//! Byte-level text utilities shared by the TSV parser and the IP text
//! parser: splitting on a separator byte and reading decimal numbers.

use vstd::prelude::*;

verus! {

/// The views of a sequence of byte vectors.
pub open spec fn seq_views(vs: Seq<Vec<u8>>) -> Seq<Seq<u8>> {
    Seq::new(vs.len(), |i: int| vs[i]@)
}

/// State of a left-to-right split of `s.take(i)` on `sep`: the complete
/// parts emitted so far, and the part still being accumulated.
pub open spec fn split_state(s: Seq<u8>, sep: u8, i: int) -> (Seq<Seq<u8>>, Seq<u8>)
    decreases i,
{
    if i <= 0 {
        (Seq::empty(), Seq::empty())
    } else {
        let prev = split_state(s, sep, i - 1);
        if s[i - 1] == sep {
            (prev.0.push(prev.1), Seq::empty())
        } else {
            (prev.0, prev.1.push(s[i - 1]))
        }
    }
}

/// `s` split on `sep`: one part more than there are separators.
pub open spec fn spec_split(s: Seq<u8>, sep: u8) -> Seq<Seq<u8>> {
    let st = split_state(s, sep, s.len() as int);
    st.0.push(st.1)
}

/// Split a byte string on a separator byte. The result has one part per
/// separator plus one; parts do not contain the separator.
pub fn split_bytes(s: &[u8], sep: u8) -> (parts: Vec<Vec<u8>>)
    ensures
        seq_views(parts@) == spec_split(s@, sep),
{
    let mut parts: Vec<Vec<u8>> = Vec::new();
    let mut cur: Vec<u8> = Vec::new();
    let mut i: usize = 0;
    while i < s.len()
        invariant
            i <= s.len(),
            (seq_views(parts@), cur@) == split_state(s@, sep, i as int),
        decreases s.len() - i,
    {
        let b = s[i];
        if b == sep {
            parts.push(cur);
            cur = Vec::new();
        } else {
            cur.push(b);
        }
        i = i + 1;
        proof {
            assert(seq_views(parts@) =~= split_state(s@, sep, i as int).0);
            assert(cur@ =~= split_state(s@, sep, i as int).1);
        }
    }
    parts.push(cur);
    proof {
        assert(seq_views(parts@) =~= spec_split(s@, sep));
    }
    parts
}

/// An ASCII decimal digit.
pub open spec fn is_digit(b: u8) -> bool {
    0x30 <= b <= 0x39
}

/// Every byte of `s` is a decimal digit.
pub open spec fn all_digits(s: Seq<u8>) -> bool {
    forall|i: int| 0 <= i < s.len() ==> is_digit(#[trigger] s[i])
}

/// The value of a digit string, most significant digit first.
pub open spec fn dec_value(s: Seq<u8>) -> int
    decreases s.len(),
{
    if s.len() == 0 {
        0
    } else {
        dec_value(s.drop_last()) * 10 + (s.last() - 0x30)
    }
}

/// A digit string's value is non-negative and below `10^len`.
pub proof fn lemma_dec_value_bound(s: Seq<u8>)
    requires
        all_digits(s),
    ensures
        0 <= dec_value(s),
        s.len() == 1 ==> dec_value(s) < 10,
        s.len() == 2 ==> dec_value(s) < 100,
        s.len() == 3 ==> dec_value(s) < 1000,
    decreases s.len(),
{
    if s.len() > 0 {
        assert(all_digits(s.drop_last()));
        lemma_dec_value_bound(s.drop_last());
        if s.len() == 1 {
            assert(dec_value(s.drop_last()) == 0);
        }
    }
}

/// Extending a digit string on the right never decreases its value.
pub proof fn lemma_dec_value_monotone(s: Seq<u8>, i: int)
    requires
        all_digits(s),
        0 <= i <= s.len(),
    ensures
        dec_value(s.take(i)) <= dec_value(s),
    decreases s.len() - i,
{
    if i < s.len() {
        lemma_dec_value_monotone(s, i + 1);
        assert(s.take(i + 1).drop_last() =~= s.take(i));
        assert(s.take(i + 1).last() == s[i]);
        assert(all_digits(s.take(i)));
        lemma_dec_value_bound_nonneg(s.take(i));
    } else {
        assert(s.take(i) =~= s);
    }
}

/// A digit string's value is non-negative.
pub proof fn lemma_dec_value_bound_nonneg(s: Seq<u8>)
    requires
        all_digits(s),
    ensures
        0 <= dec_value(s),
    decreases s.len(),
{
    if s.len() > 0 {
        assert(all_digits(s.drop_last()));
        lemma_dec_value_bound_nonneg(s.drop_last());
    }
}

/// What a byte string means when read as a `u32` the way the TSV parser
/// reads AS numbers: an optional leading `+`, then one or more decimal
/// digits, with a value that fits in 32 bits.
pub open spec fn spec_parse_u32(s: Seq<u8>) -> Option<u32> {
    let t = if s.len() > 0 && s[0] == 0x2b { s.skip(1) } else { s };
    if t.len() > 0 && all_digits(t) && dec_value(t) <= u32::MAX {
        Some(dec_value(t) as u32)
    } else {
        None::<u32>
    }
}

/// Read a `u32` from decimal text: an optional `+`, then digits.
pub fn parse_u32(s: &[u8]) -> (r: Option<u32>)
    ensures
        r == spec_parse_u32(s@),
{
    let start: usize = if s.len() > 0 && s[0] == 0x2b { 1 } else { 0 };
    let ghost t: Seq<u8> = if s@.len() > 0 && s@[0] == 0x2b { s@.skip(1) } else { s@ };
    if s.len() == start {
        return None;
    }
    let mut acc: u64 = 0;
    let mut i: usize = start;
    while i < s.len()
        invariant
            start <= i <= s.len(),
            start == (if s@.len() > 0 && s@[0] == 0x2b { 1int } else { 0int }),
            t == (if s@.len() > 0 && s@[0] == 0x2b { s@.skip(1) } else { s@ }),
            s@.len() > start,
            t =~= s@.subrange(start as int, s@.len() as int),
            all_digits(t.take(i - start)),
            acc == dec_value(t.take(i - start)),
            acc <= u32::MAX,
        decreases s.len() - i,
    {
        let b = s[i];
        proof {
            assert(t[i - start] == s@[i as int]);
        }
        if b < 0x30 || b > 0x39 {
            proof {
                assert(!is_digit(t[i - start]));
                assert(!all_digits(t));
            }
            return None;
        }
        let d: u64 = (b - 0x30) as u64;
        let next: u64 = acc * 10 + d;
        proof {
            assert(t.take(i - start + 1).drop_last() =~= t.take(i - start));
            assert(t.take(i - start + 1).last() == t[i - start]);
            assert(dec_value(t.take(i - start + 1)) == acc * 10 + d);
        }
        if next > u32::MAX as u64 {
            proof {
                if all_digits(t) {
                    lemma_dec_value_monotone(t, i - start + 1);
                    assert(dec_value(t) > u32::MAX);
                }
            }
            return None;
        }
        acc = next;
        i = i + 1;
    }
    proof {
        assert(t.take(i - start) =~= t);
    }
    Some(acc as u32)
}

/// An ASCII whitespace byte: space, tab, newline, form feed, carriage
/// return.
pub open spec fn is_ascii_space(b: u8) -> bool {
    b == 0x20 || b == 0x09 || b == 0x0a || b == 0x0c || b == 0x0d
}

/// Every byte of `s` is ASCII whitespace.
pub open spec fn all_space(s: Seq<u8>) -> bool {
    forall|i: int| 0 <= i < s.len() ==> is_ascii_space(#[trigger] s[i])
}

/// True when the line is blank: empty, or whitespace only.
pub fn is_blank(s: &[u8]) -> (r: bool)
    ensures
        r == all_space(s@),
{
    let mut i: usize = 0;
    while i < s.len()
        invariant
            i <= s.len(),
            forall|j: int| 0 <= j < i ==> is_ascii_space(#[trigger] s@[j]),
        decreases s.len() - i,
    {
        let b = s[i];
        if !(b == 0x20 || b == 0x09 || b == 0x0a || b == 0x0c || b == 0x0d) {
            return false;
        }
        i = i + 1;
    }
    true
}

/// Byte-for-byte equality of two byte vectors.
pub fn bytes_eq(a: &Vec<u8>, b: &Vec<u8>) -> (r: bool)
    ensures
        r == (a@ == b@),
{
    if a.len() != b.len() {
        proof {
            assert(a@.len() != b@.len());
        }
        return false;
    }
    let mut i: usize = 0;
    while i < a.len()
        invariant
            i <= a.len(),
            a@.len() == b@.len(),
            forall|j: int| 0 <= j < i ==> a@[j] == b@[j],
        decreases a.len() - i,
    {
        if a[i] != b[i] {
            return false;
        }
        i = i + 1;
    }
    proof {
        assert(a@ =~= b@);
    }
    true
}

} // verus!
