//! Reading a file descriptor number written in decimal.
use vstd::prelude::*;

verus! {

pub open spec fn is_digit(c: char) -> bool {
    '0' <= c && c <= '9'
}

pub open spec fn all_digits(d: Seq<char>) -> bool {
    forall|i: int| 0 <= i < d.len() ==> is_digit(#[trigger] d[i])
}

/// The number that the decimal digits `d` spell.
pub open spec fn digits_value(d: Seq<char>) -> nat
    decreases d.len(),
{
    if d.len() == 0 {
        0
    } else {
        digits_value(d.drop_last()) * 10 + (d.last() as int - '0' as int) as nat
    }
}

pub open spec fn has_sign(t: Seq<char>) -> bool {
    t.len() > 0 && (t[0] == '+' || t[0] == '-')
}

/// `t` without its leading sign, if it has one.
pub open spec fn magnitude_text(t: Seq<char>) -> Seq<char> {
    if has_sign(t) {
        t.drop_first()
    } else {
        t
    }
}

/// The descriptor number that `t` spells, if any: `t` reads as an `i32` the way
/// `str::parse` reads one (an optional `+` or `-`, then one or more ASCII
/// digits, in range), and that number is not negative.
pub open spec fn descriptor_of(t: Seq<char>) -> Option<i32> {
    let d = magnitude_text(t);
    if d.len() > 0 && all_digits(d) && digits_value(d) <= i32::MAX && (t[0] == '-'
        ==> digits_value(d) == 0) {
        Some(digits_value(d) as i32)
    } else {
        None
    }
}

/// A prefix of a run of digits spells no larger number than the whole run.
proof fn lemma_prefix_value_le(d: Seq<char>, j: int)
    requires
        0 <= j <= d.len(),
        all_digits(d),
    ensures
        digits_value(d.take(j)) <= digits_value(d),
    decreases d.len(),
{
    if j == d.len() {
        assert(d.take(j) =~= d);
    } else {
        let init = d.drop_last();
        assert(all_digits(init)) by {
            assert forall|i: int| 0 <= i < init.len() implies is_digit(#[trigger] init[i]) by {
                assert(init[i] == d[i]);
            }
        }
        lemma_prefix_value_le(init, j);
        assert(init.take(j) =~= d.take(j));
        assert(is_digit(d[d.len() - 1]));
    }
}

/// The descriptor number spelled by `cs[lo..hi]`.
pub(crate) fn parse_descriptor(cs: &Vec<char>, lo: usize, hi: usize) -> (r: Option<i32>)
    requires
        lo <= hi <= cs.len(),
    ensures
        r == descriptor_of(cs@.subrange(lo as int, hi as int)),
{
    let ghost t = cs@.subrange(lo as int, hi as int);
    let negative = lo < hi && cs[lo] == '-';
    let start: usize = if lo < hi && (cs[lo] == '+' || cs[lo] == '-') {
        lo + 1
    } else {
        lo
    };
    let ghost d = cs@.subrange(start as int, hi as int);
    assert(d =~= magnitude_text(t));
    if start == hi {
        return None;
    }
    let mut v: u64 = 0;
    let mut p: usize = start;
    while p < hi
        invariant
            lo <= start <= p <= hi <= cs.len(),
            d == cs@.subrange(start as int, hi as int),
            d == magnitude_text(cs@.subrange(lo as int, hi as int)),
            negative == (cs@.subrange(lo as int, hi as int)[0] == '-'),
            v == digits_value(cs@.subrange(start as int, p as int)),
            v <= i32::MAX,
            all_digits(cs@.subrange(start as int, p as int)),
        decreases hi - p,
    {
        let c = cs[p];
        if !('0' <= c && c <= '9') {
            assert(d[p - start] == c);
            assert(!is_digit(d[p - start]));
            return None;
        }
        let ghost prev = cs@.subrange(start as int, p as int);
        let ghost next = cs@.subrange(start as int, p as int + 1);
        assert(next.drop_last() =~= prev);
        assert(next.last() == c);
        v = v * 10 + (c as u32 - '0' as u32) as u64;
        assert(all_digits(next)) by {
            assert forall|i: int| 0 <= i < next.len() implies is_digit(#[trigger] next[i]) by {
                if i < prev.len() {
                    assert(next[i] == prev[i]);
                }
            }
        }
        if v > 2147483647 {
            proof {
                if all_digits(d) {
                    assert(d.take(p - start + 1) =~= next);
                    lemma_prefix_value_le(d, p - start + 1);
                }
            }
            return None;
        }
        p = p + 1;
    }
    if negative && v != 0 {
        return None;
    }
    Some(v as i32)
}

} // verus!
