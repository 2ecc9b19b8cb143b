//! Splitting text on a separator, and reading descriptor numbers.
use vstd::prelude::*;

verus! {

/// The pieces of `s` between occurrences of `sep`, as `str::split` yields them:
/// always at least one piece, empty pieces kept.
pub open spec fn split_on(s: Seq<char>, sep: char) -> Seq<Seq<char>>
    decreases s.len(),
{
    if s.len() == 0 {
        seq![Seq::<char>::empty()]
    } else {
        let pieces = split_on(s.drop_last(), sep);
        if s.last() == sep {
            pieces.push(Seq::<char>::empty())
        } else {
            pieces.update(pieces.len() - 1, pieces.last().push(s.last()))
        }
    }
}

/// How many times `c` occurs in `s`.
pub open spec fn count_of(s: Seq<char>, c: char) -> nat
    decreases s.len(),
{
    if s.len() == 0 {
        0
    } else {
        count_of(s.drop_last(), c) + if s.last() == c { 1nat } else { 0nat }
    }
}

/// Whether `c` occurs in `s`.
pub open spec fn contains_char(s: Seq<char>, c: char) -> bool {
    exists|i: int| 0 <= i < s.len() && s[i] == c
}

/// `parts` joined with `sep` between each two of them.
pub open spec fn join_with(parts: Seq<Seq<char>>, sep: char) -> Seq<char>
    decreases parts.len(),
{
    if parts.len() <= 1 {
        if parts.len() == 0 { Seq::<char>::empty() } else { parts[0] }
    } else {
        join_with(parts.drop_last(), sep).push(sep) + parts.last()
    }
}

pub proof fn lemma_split_len(s: Seq<char>, sep: char)
    ensures
        split_on(s, sep).len() == count_of(s, sep) + 1,
    decreases s.len(),
{
    if s.len() > 0 {
        lemma_split_len(s.drop_last(), sep);
    }
}

/// Appending text free of `sep` extends the last piece only.
pub proof fn lemma_split_append(s: Seq<char>, t: Seq<char>, sep: char)
    requires
        !contains_char(t, sep),
    ensures
        split_on(s + t, sep) == ({
            let p = split_on(s, sep);
            p.update(p.len() - 1, p.last() + t)
        }),
    decreases t.len(),
{
    lemma_split_len(s, sep);
    if t.len() == 0 {
        assert(s + t =~= s);
        assert(split_on(s, sep).last() + t =~= split_on(s, sep).last());
        assert(split_on(s, sep).update(split_on(s, sep).len() - 1, split_on(s, sep).last())
            =~= split_on(s, sep));
    } else {
        let t0 = t.drop_last();
        assert(!contains_char(t0, sep)) by {
            if contains_char(t0, sep) {
                let i = choose|i: int| 0 <= i < t0.len() && t0[i] == sep;
                assert(t[i] == sep);
            }
        }
        lemma_split_append(s, t0, sep);
        assert((s + t).drop_last() =~= s + t0);
        assert((s + t).last() == t.last());
        assert(t.last() != sep) by {
            assert(t[t.len() - 1] == t.last());
        }
        let p = split_on(s, sep);
        assert((p.last() + t0).push(t.last()) =~= p.last() + t);
        assert(p.update(p.len() - 1, p.last() + t0).update(p.len() - 1, p.last() + t)
            =~= p.update(p.len() - 1, p.last() + t));
    }
}

/// Text free of `sep` is a single piece.
pub proof fn lemma_split_single(t: Seq<char>, sep: char)
    requires
        !contains_char(t, sep),
    ensures
        split_on(t, sep) == seq![t],
{
    lemma_split_append(Seq::<char>::empty(), t, sep);
    assert(Seq::<char>::empty() + t =~= t);
    assert(split_on(Seq::<char>::empty(), sep) == seq![Seq::<char>::empty()]);
    assert(seq![Seq::<char>::empty()].update(0, Seq::<char>::empty() + t) =~= seq![t]);
}

/// `s`, then `sep`, then text free of `sep`: one more piece.
pub proof fn lemma_split_push(s: Seq<char>, t: Seq<char>, sep: char)
    requires
        !contains_char(t, sep),
    ensures
        split_on(s.push(sep) + t, sep) == split_on(s, sep).push(t),
{
    lemma_split_len(s, sep);
    assert(s.push(sep).drop_last() =~= s);
    assert(split_on(s.push(sep), sep) == split_on(s, sep).push(Seq::<char>::empty()));
    lemma_split_append(s.push(sep), t, sep);
    let p = split_on(s, sep).push(Seq::<char>::empty());
    assert(Seq::<char>::empty() + t =~= t);
    assert(p.update(p.len() - 1, p.last() + t) =~= split_on(s, sep).push(t));
}

/// Splitting undoes joining, when no part holds the separator.
pub proof fn lemma_split_join(parts: Seq<Seq<char>>, sep: char)
    requires
        parts.len() > 0,
        forall|i: int| 0 <= i < parts.len() ==> !contains_char(#[trigger] parts[i], sep),
    ensures
        split_on(join_with(parts, sep), sep) == parts,
    decreases parts.len(),
{
    if parts.len() == 1 {
        lemma_split_single(parts[0], sep);
        assert(seq![parts[0]] =~= parts);
    } else {
        let init = parts.drop_last();
        assert forall|i: int| 0 <= i < init.len() implies !contains_char(#[trigger] init[i], sep) by {
            assert(init[i] == parts[i]);
        }
        lemma_split_join(init, sep);
        assert(!contains_char(parts[parts.len() - 1], sep));
        lemma_split_push(join_with(init, sep), parts.last(), sep);
        assert(init.push(parts.last()) =~= parts);
    }
}

/// The characters of `s`, one by one.
pub(crate) fn chars_of(s: &str) -> (r: Vec<char>)
    ensures
        r@ == s@,
{
    let mut out: Vec<char> = Vec::new();
    for c in it: s.chars()
        invariant
            it.seq() == s@,
            out@ == it.seq().take(it.index() as int),
    {
        out.push(c);
        assert(out@ =~= it.seq().take(it.index() as int + 1));
    }
    assert(out@ =~= s@);
    out
}

/// Each range of `ranges` lies within `cs` and spans the matching piece.
pub open spec fn spans(cs: Seq<char>, ranges: Seq<(usize, usize)>, pieces: Seq<Seq<char>>) -> bool {
    forall|k: int|
        0 <= k < ranges.len() ==> {
            &&& (#[trigger] ranges[k]).0 <= ranges[k].1 <= cs.len()
            &&& cs.subrange(ranges[k].0 as int, ranges[k].1 as int) == pieces[k]
        }
}

/// The pieces of `cs` between occurrences of `sep`, as ranges of positions.
pub(crate) fn split_ranges(cs: &Vec<char>, sep: char) -> (r: Vec<(usize, usize)>)
    ensures
        r.len() == split_on(cs@, sep).len(),
        spans(cs@, r@, split_on(cs@, sep)),
{
    let mut out: Vec<(usize, usize)> = Vec::new();
    let mut start: usize = 0;
    let mut i: usize = 0;
    while i < cs.len()
        invariant
            start <= i <= cs.len(),
            out.len() + 1 == split_on(cs@.take(i as int), sep).len(),
            spans(cs@, out@, split_on(cs@.take(i as int), sep)),
            cs@.subrange(start as int, i as int) == split_on(cs@.take(i as int), sep).last(),
        decreases cs.len() - i,
    {
        let ghost before = split_on(cs@.take(i as int), sep);
        assert(cs@.take(i as int + 1).drop_last() =~= cs@.take(i as int));
        assert(cs@.take(i as int + 1).last() == cs@[i as int]);
        let ghost after = split_on(cs@.take(i as int + 1), sep);
        if cs[i] == sep {
            out.push((start, i));
            start = i + 1;
            assert(cs@.subrange(start as int, i as int + 1) =~= Seq::<char>::empty());
        } else {
            assert(cs@.subrange(start as int, i as int + 1) =~= cs@.subrange(
                start as int,
                i as int,
            ).push(cs@[i as int]));
        }
        assert forall|k: int| 0 <= k < out.len() implies {
            &&& (#[trigger] out@[k]).0 <= out@[k].1 <= cs.len()
            &&& cs@.subrange(out@[k].0 as int, out@[k].1 as int) == after[k]
        } by {
            assert(after[k] == before[k]);
        }
        i = i + 1;
    }
    assert(cs@.take(cs.len() as int) =~= cs@);
    let ghost pieces = split_on(cs@, sep);
    out.push((start, i));
    assert forall|k: int| 0 <= k < out.len() implies {
        &&& (#[trigger] out@[k]).0 <= out@[k].1 <= cs.len()
        &&& cs@.subrange(out@[k].0 as int, out@[k].1 as int) == pieces[k]
    } by {
        if k + 1 == out.len() {
            assert(pieces[k] == pieces.last());
        }
    }
    out
}

} // verus!
