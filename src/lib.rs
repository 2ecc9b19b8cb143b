//! Listeners handed over by a `start_server` supervisor.
//!
//! The supervisor binds the listening sockets, lets the worker inherit their
//! descriptors, and describes them in one environment variable,
//! `SERVER_STARTER_PORT`, as `address=descriptor` pairs separated by `;`.
//! This crate reads that description: each pair becomes a TCP listener when
//! its address is `host:port` or a bare port, and a Unix-domain listener
//! otherwise, in the order written.
mod descriptor;
mod lemmas;
mod pattern;
mod text;

pub use descriptor::{all_digits, descriptor_of, digits_value, has_sign, is_digit, magnitude_text};
pub use lemmas::{
    entry, lemma_bad_descriptor_rejected, lemma_bad_separator_rejected, lemma_joined_entries,
    lemma_resolve_in_order, lemma_resolve_segments, lemma_tcp_entry, lemma_uds_entry,
    segment_listener,
};
pub use pattern::{regex_is_match, Pattern};
pub use text::{contains_char, count_of, join_with, split_on, spans};

use vstd::prelude::*;

verus! {

/// `std::io::Error`, carried as the cause of a failed socket takeover.
#[verifier::external_type_specification]
#[verifier::external_body]
pub struct ExIoError(std::io::Error);

/// The environment variable that holds the listener description.
pub const SERVER_STARTER_PORT_ENV: &'static str = "SERVER_STARTER_PORT";

/// An address of this form (`host:port`) names a TCP listener.
pub const HOST_PORT_PATTERN: &'static str = "^[^:]+:\\d+$";

/// An address of this form (a bare port) names a TCP listener.
pub const PORT_PATTERN: &'static str = "^\\d+$";

/// Kind of server starter listener, with the descriptor it was handed.
#[derive(Debug, Clone, Copy, PartialEq, Eq, Structural)]
pub enum ServerStarterListener {
    Tcp(i32),
    Uds(i32),
}

/// A server starter listener error.
#[derive(Debug)]
pub enum ListenerError {
    /// The variable is not set.
    ServerStarterPortEnvNotFound,
    /// A `;`-separated entry is malformed; it holds the entry's text.
    InvalidServerStarterPortSpec(String),
    /// Taking over a Unix-domain socket's descriptor failed.
    UnixListenerBindError(std::io::Error),
}

/// One `address=descriptor` entry of the variable.
pub struct ListenerSpec {
    pub address: String,
    pub descriptor: i32,
}

/// The address and descriptor of one entry, if it is well formed: exactly one
/// `=`, a non-empty address before it, a descriptor number after it.
pub open spec fn segment_spec(segment: Seq<char>) -> Option<(Seq<char>, i32)> {
    let parts = split_on(segment, '=');
    if parts.len() == 2 && parts[0].len() > 0 && descriptor_of(parts[1]) is Some {
        Some((parts[0], descriptor_of(parts[1])->0))
    } else {
        None
    }
}

/// TCP when either address pattern matched, Unix-domain otherwise.
pub open spec fn listener_kind(
    host_port_match: bool,
    port_match: bool,
    descriptor: i32,
) -> ServerStarterListener {
    if host_port_match || port_match {
        ServerStarterListener::Tcp(descriptor)
    } else {
        ServerStarterListener::Uds(descriptor)
    }
}

/// The listener that an entry with this address and descriptor stands for.
pub open spec fn address_listener(address: Seq<char>, descriptor: i32) -> ServerStarterListener {
    listener_kind(
        regex_is_match(HOST_PORT_PATTERN@, address),
        regex_is_match(PORT_PATTERN@, address),
        descriptor,
    )
}

/// The listeners that the entries stand for, in order, or the first entry that
/// is malformed.
pub open spec fn resolve_segments(segments: Seq<Seq<char>>) -> Result<
    Seq<ServerStarterListener>,
    Seq<char>,
>
    decreases segments.len(),
{
    if segments.len() == 0 {
        Ok(Seq::empty())
    } else {
        match resolve_segments(segments.drop_last()) {
            Err(bad) => Err(bad),
            Ok(found) => match segment_spec(segments.last()) {
                Some((address, descriptor)) => Ok(
                    found.push(address_listener(address, descriptor)),
                ),
                None => Err(segments.last()),
            },
        }
    }
}

/// What a variable holding `var` resolves to.
pub open spec fn resolve(var: Seq<char>) -> Result<Seq<ServerStarterListener>, Seq<char>> {
    resolve_segments(split_on(var, ';'))
}

/// Parses one `address=descriptor` entry.
pub fn parse_spec(segment: &str) -> (r: Result<ListenerSpec, ListenerError>)
    ensures
        match segment_spec(segment@) {
            Some((address, descriptor)) => r matches Ok(spec) && spec.address@ == address
                && spec.descriptor == descriptor,
            None => r matches Err(ListenerError::InvalidServerStarterPortSpec(text)) && text@
                == segment@,
        },
{
    let cs = text::chars_of(segment);
    let parts = text::split_ranges(&cs, '=');
    let ghost pieces = split_on(segment@, '=');
    if parts.len() != 2 {
        return Err(ListenerError::InvalidServerStarterPortSpec(segment.to_owned()));
    }
    let (a_lo, a_hi) = parts[0];
    let (d_lo, d_hi) = parts[1];
    assert(cs@.subrange(a_lo as int, a_hi as int) == pieces[0]);
    assert(cs@.subrange(d_lo as int, d_hi as int) == pieces[1]);
    if a_lo == a_hi {
        return Err(ListenerError::InvalidServerStarterPortSpec(segment.to_owned()));
    }
    match descriptor::parse_descriptor(&cs, d_lo, d_hi) {
        None => Err(ListenerError::InvalidServerStarterPortSpec(segment.to_owned())),
        Some(descriptor) => {
            let address = segment.substring_char(a_lo, a_hi).to_owned();
            Ok(ListenerSpec { address, descriptor })
        },
    }
}

/// The listener for a descriptor, given whether the address matched the
/// `host:port` pattern and the bare-port pattern.
pub fn listener_for(host_port_match: bool, port_match: bool, descriptor: i32) -> (r:
    ServerStarterListener)
    ensures
        r == listener_kind(host_port_match, port_match, descriptor),
{
    if host_port_match || port_match {
        ServerStarterListener::Tcp(descriptor)
    } else {
        ServerStarterListener::Uds(descriptor)
    }
}

/// The two address patterns, compiled.
pub struct Classifier {
    host_port: Pattern,
    port: Pattern,
}

impl Classifier {
    #[verifier::type_invariant]
    spec fn compiled_from_fixed_patterns(&self) -> bool {
        &&& self.host_port@ == HOST_PORT_PATTERN@
        &&& self.port@ == PORT_PATTERN@
    }

    /// Compiles the address patterns.
    pub fn new() -> (r: Result<Classifier, regex::Error>) {
        let host_port = match Pattern::new(HOST_PORT_PATTERN) {
            Ok(p) => p,
            Err(e) => return Err(e),
        };
        let port = match Pattern::new(PORT_PATTERN) {
            Ok(p) => p,
            Err(e) => return Err(e),
        };
        Ok(Classifier { host_port, port })
    }

    /// The listener that an entry stands for.
    pub fn classify(&self, spec: &ListenerSpec) -> (r: ServerStarterListener)
        ensures
            r == address_listener(spec.address@, spec.descriptor),
    {
        proof {
            use_type_invariant(self);
        }
        let address = spec.address.as_str();
        let host_port_match = self.host_port.is_match(address);
        let port_match = if host_port_match {
            true
        } else {
            self.port.is_match(address)
        };
        listener_for(host_port_match, port_match, spec.descriptor)
    }
}

/// Get server starter listening listeners from the value of
/// `SERVER_STARTER_PORT` (`None` when the variable is not set).
pub fn listeners(classifier: &Classifier, var: Option<&str>) -> (r: Result<
    Vec<ServerStarterListener>,
    ListenerError,
>)
    ensures
        var is None ==> r matches Err(ListenerError::ServerStarterPortEnvNotFound),
        var matches Some(v) ==> match resolve(v@) {
            Ok(found) => r matches Ok(out) && out@ == found,
            Err(bad) => r matches Err(ListenerError::InvalidServerStarterPortSpec(text)) && text@
                == bad,
        },
{
    let specs = match var {
        Some(v) => v,
        None => return Err(ListenerError::ServerStarterPortEnvNotFound),
    };
    let cs = text::chars_of(specs);
    let ranges = text::split_ranges(&cs, ';');
    let ghost segments = split_on(specs@, ';');
    let mut results: Vec<ServerStarterListener> = Vec::new();
    let mut k: usize = 0;
    while k < ranges.len()
        invariant
            k <= ranges.len() == segments.len(),
            var == Some(specs),
            cs@ == specs@,
            segments == split_on(specs@, ';'),
            spans(cs@, ranges@, segments),
            resolve_segments(segments.take(k as int)) == Ok::<
                Seq<ServerStarterListener>,
                Seq<char>,
            >(results@),
        decreases ranges.len() - k,
    {
        let (lo, hi) = ranges[k];
        assert(segments.take(k as int + 1).drop_last() =~= segments.take(k as int));
        assert(segments.take(k as int + 1).last() == segments[k as int]);
        let segment = specs.substring_char(lo, hi);
        let spec = match parse_spec(segment) {
            Ok(spec) => spec,
            Err(e) => {
                proof {
                    lemma_resolve_stops(segments, k as int + 1);
                    assert(segments.take(segments.len() as int) =~= segments);
                }
                return Err(e);
            },
        };
        results.push(classifier.classify(&spec));
        k = k + 1;
    }
    assert(segments.take(segments.len() as int) =~= segments);
    Ok(results)
}

/// Once some prefix of the entries fails, every longer prefix fails the same way.
proof fn lemma_resolve_stops(segments: Seq<Seq<char>>, n: int)
    requires
        0 <= n <= segments.len(),
        resolve_segments(segments.take(n)) is Err,
    ensures
        resolve_segments(segments) == resolve_segments(segments.take(n)),
    decreases segments.len() - n,
{
    if n < segments.len() {
        assert(segments.take(n + 1).drop_last() =~= segments.take(n));
        lemma_resolve_stops(segments, n + 1);
    } else {
        assert(segments.take(n) =~= segments);
    }
}

} // verus!
