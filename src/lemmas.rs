//! What holds of every variable value, proved over the resolution's model.
use vstd::prelude::*;

use crate::descriptor::descriptor_of;
use crate::text::{
    contains_char,
    count_of,
    join_with,
    lemma_split_join,
    lemma_split_len,
    lemma_split_push,
    lemma_split_single,
    split_on,
};
use crate::{
    address_listener,
    regex_is_match,
    resolve,
    resolve_segments,
    segment_spec,
    ServerStarterListener,
    HOST_PORT_PATTERN,
    PORT_PATTERN,
};

verus! {

/// The entry `address=text`.
pub open spec fn entry(address: Seq<char>, text: Seq<char>) -> Seq<char> {
    address.push('=') + text
}

/// The listener that a well-formed entry stands for.
pub open spec fn segment_listener(segment: Seq<char>) -> ServerStarterListener {
    let parts = segment_spec(segment)->0;
    address_listener(parts.0, parts.1)
}

proof fn lemma_entry_free_of(address: Seq<char>, text: Seq<char>, c: char)
    requires
        c != '=',
        !contains_char(address, c),
        !contains_char(text, c),
    ensures
        !contains_char(entry(address, text), c),
{
    let e = entry(address, text);
    if contains_char(e, c) {
        let i = choose|i: int| 0 <= i < e.len() && e[i] == c;
        if i < address.len() {
            assert(e[i] == address[i]);
        } else if i > address.len() {
            assert(e[i] == text[i - address.len() - 1]);
        }
    }
}

/// An entry with one `=`, a non-empty address and a descriptor number is
/// well formed, and is the whole variable when it holds no `;`.
proof fn lemma_entry_parts(address: Seq<char>, text: Seq<char>)
    requires
        address.len() > 0,
        !contains_char(address, ';'),
        !contains_char(address, '='),
        !contains_char(text, ';'),
        !contains_char(text, '='),
        descriptor_of(text) is Some,
    ensures
        segment_spec(entry(address, text)) == Some((address, descriptor_of(text)->0)),
        split_on(entry(address, text), ';') == seq![entry(address, text)],
{
    lemma_split_single(address, '=');
    lemma_split_push(address, text, '=');
    assert(seq![address].push(text) =~= seq![address, text]);
    lemma_entry_free_of(address, text, ';');
    lemma_split_single(entry(address, text), ';');
}

/// The listeners come out in the order of the entries, one for each, as long
/// as every entry is well formed; otherwise the first malformed entry is
/// reported.
pub proof fn lemma_resolve_segments(segments: Seq<Seq<char>>)
    ensures
        resolve_segments(segments) is Ok <==> forall|i: int|
            0 <= i < segments.len() ==> segment_spec(#[trigger] segments[i]) is Some,
        resolve_segments(segments) matches Ok(found) ==> {
            &&& found.len() == segments.len()
            &&& forall|i: int|
                0 <= i < segments.len() ==> found[i] == segment_listener(#[trigger] segments[i])
        },
        resolve_segments(segments) matches Err(bad) ==> exists|i: int|
            {
                &&& 0 <= i < segments.len()
                &&& bad == #[trigger] segments[i]
                &&& segment_spec(segments[i]) is None
                &&& forall|j: int| 0 <= j < i ==> segment_spec(#[trigger] segments[j]) is Some
            },
    decreases segments.len(),
{
    if segments.len() > 0 {
        let init = segments.drop_last();
        let n = segments.len() - 1;
        lemma_resolve_segments(init);
        assert forall|i: int| 0 <= i < init.len() implies init[i] == segments[i] by {}
        match resolve_segments(init) {
            Err(bad) => {
                let i = choose|i: int|
                    {
                        &&& 0 <= i < init.len()
                        &&& bad == #[trigger] init[i]
                        &&& segment_spec(init[i]) is None
                        &&& forall|j: int| 0 <= j < i ==> segment_spec(#[trigger] init[j]) is Some
                    };
                assert(bad == segments[i]);
                assert forall|j: int| 0 <= j < i implies segment_spec(
                    #[trigger] segments[j],
                ) is Some by {
                    assert(init[j] == segments[j]);
                }
            },
            Ok(found) => {
                assert(segments.last() == segments[n]);
                if segment_spec(segments.last()) is Some {
                    assert forall|i: int| 0 <= i < segments.len() implies segment_spec(
                        #[trigger] segments[i],
                    ) is Some by {
                        if i < n {
                            assert(init[i] == segments[i]);
                        }
                    }
                    assert forall|i: int| 0 <= i < segments.len() implies found.push(
                        segment_listener(segments.last()),
                    )[i] == segment_listener(#[trigger] segments[i]) by {
                        if i < n {
                            assert(init[i] == segments[i]);
                        }
                    }
                } else {
                    assert forall|j: int| 0 <= j < n implies segment_spec(
                        #[trigger] segments[j],
                    ) is Some by {
                        assert(init[j] == segments[j]);
                    }
                }
            },
        }
    }
}

/// A variable resolves to one listener per `;`-separated entry, left to right,
/// each the listener that its entry stands for.
pub proof fn lemma_resolve_in_order(var: Seq<char>)
    ensures
        resolve(var) matches Ok(found) ==> {
            &&& found.len() == split_on(var, ';').len()
            &&& forall|i: int|
                0 <= i < found.len() ==> found[i] == segment_listener(
                    #[trigger] split_on(var, ';')[i],
                )
        },
{
    lemma_resolve_segments(split_on(var, ';'));
}

/// A single well-formed entry whose address is `host:port` or a bare port, as
/// the address patterns decide, gives one TCP listener on its descriptor.
pub proof fn lemma_tcp_entry(address: Seq<char>, text: Seq<char>)
    requires
        address.len() > 0,
        !contains_char(address, ';'),
        !contains_char(address, '='),
        !contains_char(text, ';'),
        !contains_char(text, '='),
        descriptor_of(text) is Some,
        regex_is_match(HOST_PORT_PATTERN@, address) || regex_is_match(PORT_PATTERN@, address),
    ensures
        resolve(entry(address, text)) == Ok::<Seq<ServerStarterListener>, Seq<char>>(
            seq![ServerStarterListener::Tcp(descriptor_of(text)->0)],
        ),
{
    lemma_entry_parts(address, text);
    let e = entry(address, text);
    lemma_resolve_segments(seq![e]);
    assert(segment_listener(seq![e][0]) == ServerStarterListener::Tcp(descriptor_of(text)->0));
    assert(resolve(e)->Ok_0 =~= seq![ServerStarterListener::Tcp(descriptor_of(text)->0)]);
}

/// A single well-formed entry whose address neither address pattern matches
/// (a filesystem path) gives one Unix-domain listener on its descriptor.
pub proof fn lemma_uds_entry(address: Seq<char>, text: Seq<char>)
    requires
        address.len() > 0,
        !contains_char(address, ';'),
        !contains_char(address, '='),
        !contains_char(text, ';'),
        !contains_char(text, '='),
        descriptor_of(text) is Some,
        !regex_is_match(HOST_PORT_PATTERN@, address),
        !regex_is_match(PORT_PATTERN@, address),
    ensures
        resolve(entry(address, text)) == Ok::<Seq<ServerStarterListener>, Seq<char>>(
            seq![ServerStarterListener::Uds(descriptor_of(text)->0)],
        ),
{
    lemma_entry_parts(address, text);
    let e = entry(address, text);
    lemma_resolve_segments(seq![e]);
    assert(segment_listener(seq![e][0]) == ServerStarterListener::Uds(descriptor_of(text)->0));
    assert(resolve(e)->Ok_0 =~= seq![ServerStarterListener::Uds(descriptor_of(text)->0)]);
}

/// An entry whose descriptor is not a number is rejected, with its text.
pub proof fn lemma_bad_descriptor_rejected(address: Seq<char>, text: Seq<char>)
    requires
        !contains_char(address, ';'),
        !contains_char(address, '='),
        !contains_char(text, ';'),
        !contains_char(text, '='),
        descriptor_of(text) is None,
    ensures
        resolve(entry(address, text)) == Err::<Seq<ServerStarterListener>, Seq<char>>(
            entry(address, text),
        ),
{
    let e = entry(address, text);
    lemma_split_single(address, '=');
    lemma_split_push(address, text, '=');
    assert(seq![address].push(text) =~= seq![address, text]);
    lemma_entry_free_of(address, text, ';');
    lemma_split_single(e, ';');
    lemma_resolve_segments(seq![e]);
    assert(segment_spec(seq![e][0]) is None);
}

/// An entry with no `=`, or with more than one, is rejected, with its text.
pub proof fn lemma_bad_separator_rejected(segment: Seq<char>)
    requires
        !contains_char(segment, ';'),
        count_of(segment, '=') != 1,
    ensures
        resolve(segment) == Err::<Seq<ServerStarterListener>, Seq<char>>(segment),
{
    lemma_split_len(segment, '=');
    lemma_split_single(segment, ';');
    lemma_resolve_segments(seq![segment]);
    assert(segment_spec(seq![segment][0]) is None);
}

/// Entries built from `addresses` and descriptor texts `texts` and joined with
/// `;` resolve to as many listeners as there are entries, in the same order,
/// each on the descriptor written in its entry.
pub proof fn lemma_joined_entries(addresses: Seq<Seq<char>>, texts: Seq<Seq<char>>)
    requires
        addresses.len() == texts.len(),
        addresses.len() > 0,
        forall|i: int|
            0 <= i < addresses.len() ==> {
                &&& (#[trigger] addresses[i]).len() > 0
                &&& !contains_char(addresses[i], ';')
                &&& !contains_char(addresses[i], '=')
            },
        forall|i: int|
            0 <= i < texts.len() ==> {
                &&& !contains_char(#[trigger] texts[i], ';')
                &&& !contains_char(texts[i], '=')
                &&& descriptor_of(texts[i]) is Some
            },
    ensures
        ({
            let entries = Seq::new(addresses.len(), |i: int| entry(addresses[i], texts[i]));
            resolve(join_with(entries, ';')) matches Ok(found) && found.len() == addresses.len()
                && forall|i: int|
                0 <= i < found.len() ==> #[trigger] found[i] == address_listener(
                    addresses[i],
                    descriptor_of(texts[i])->0,
                )
        }),
{
    let entries = Seq::new(addresses.len(), |i: int| entry(addresses[i], texts[i]));
    assert forall|i: int| 0 <= i < entries.len() implies {
        &&& !contains_char(#[trigger] entries[i], ';')
        &&& segment_spec(entries[i]) == Some((addresses[i], descriptor_of(texts[i])->0))
    } by {
        lemma_entry_parts(addresses[i], texts[i]);
    }
    lemma_split_join(entries, ';');
    lemma_resolve_segments(entries);
    let found = resolve(join_with(entries, ';'))->Ok_0;
    assert forall|i: int| 0 <= i < found.len() implies #[trigger] found[i] == address_listener(
        addresses[i],
        descriptor_of(texts[i])->0,
    ) by {
        assert(found[i] == segment_listener(entries[i]));
    }
}

} // verus!
