//! Textual form of IP addresses: parsing dotted-quad IPv4 and
//! colon-separated IPv6 (with `::` abbreviation and an optional embedded
//! IPv4 tail), and formatting back to text.

use vstd::prelude::*;

use crate::ip::IpAddress;
use crate::text::{
    all_digits, dec_value, is_digit, lemma_dec_value_bound, seq_views, spec_split, split_bytes,
};

verus! {

/// An ASCII hexadecimal digit.
pub open spec fn is_hex_digit(b: u8) -> bool {
    (0x30 <= b <= 0x39) || (0x41 <= b <= 0x46) || (0x61 <= b <= 0x66)
}

/// The value of one hexadecimal digit.
pub open spec fn hex_digit_value(b: u8) -> int {
    if 0x30 <= b <= 0x39 {
        b - 0x30
    } else if 0x41 <= b <= 0x46 {
        b - 0x41 + 10
    } else {
        b - 0x61 + 10
    }
}

/// Every byte of `s` is a hexadecimal digit.
pub open spec fn all_hex(s: Seq<u8>) -> bool {
    forall|i: int| 0 <= i < s.len() ==> is_hex_digit(#[trigger] s[i])
}

/// The value of a hexadecimal digit string, most significant first.
pub open spec fn hex_value(s: Seq<u8>) -> int
    decreases s.len(),
{
    if s.len() == 0 {
        0
    } else {
        hex_value(s.drop_last()) * 16 + hex_digit_value(s.last())
    }
}

/// A hex string of at most four digits has a value below `0x10000`.
pub proof fn lemma_hex_value_bound(s: Seq<u8>)
    requires
        all_hex(s),
        s.len() <= 4,
    ensures
        0 <= hex_value(s) < 0x10000,
        s.len() <= 3 ==> hex_value(s) < 0x1000,
        s.len() <= 2 ==> hex_value(s) < 0x100,
        s.len() <= 1 ==> hex_value(s) < 0x10,
    decreases s.len(),
{
    if s.len() > 0 {
        assert(all_hex(s.drop_last()));
        lemma_hex_value_bound(s.drop_last());
    }
}

/// One IPv4 dotted-quad segment: one to three digits, value at most 255,
/// no leading zero.
pub open spec fn valid_octet(s: Seq<u8>) -> bool {
    &&& 1 <= s.len() <= 3
    &&& all_digits(s)
    &&& dec_value(s) <= 255
    &&& (s.len() > 1 ==> s[0] != 0x30)
}

/// The four octets of an IPv4 address value, most significant first.
pub open spec fn ipv4_of_octets(o0: int, o1: int, o2: int, o3: int) -> int {
    o0 * 0x1000000 + o1 * 0x10000 + o2 * 0x100 + o3
}

/// What a byte string means when read as an IPv4 address: four valid
/// octets separated by dots.
pub open spec fn spec_parse_ipv4(s: Seq<u8>) -> Option<u32> {
    let parts = spec_split(s, 0x2e);
    if parts.len() == 4 && valid_octet(parts[0]) && valid_octet(parts[1]) && valid_octet(parts[2])
        && valid_octet(parts[3]) {
        Some(
            ipv4_of_octets(
                dec_value(parts[0]),
                dec_value(parts[1]),
                dec_value(parts[2]),
                dec_value(parts[3]),
            ) as u32,
        )
    } else {
        None::<u32>
    }
}

/// One IPv6 group: one to four hexadecimal digits.
pub open spec fn valid_group(s: Seq<u8>) -> bool {
    1 <= s.len() <= 4 && all_hex(s)
}

/// The 16-bit words of a run of plain hexadecimal groups, or `None` if
/// any part is not a valid group.
pub open spec fn groups_words(parts: Seq<Seq<u8>>) -> Option<Seq<u16>>
    decreases parts.len(),
{
    if parts.len() == 0 {
        Some(Seq::<u16>::empty())
    } else {
        if groups_words(parts.drop_last()) is Some && valid_group(parts.last()) {
            Some(groups_words(parts.drop_last()).unwrap().push(hex_value(parts.last()) as u16))
        } else {
            None::<Seq<u16>>
        }
    }
}

/// Whether a part contains a dot, which marks it as an embedded IPv4
/// tail rather than a hexadecimal group.
pub open spec fn contains_dot(s: Seq<u8>) -> bool {
    exists|i: int| 0 <= i < s.len() && s[i] == 0x2e
}

/// The 16-bit words of a run of groups whose last part may be an
/// embedded IPv4 address (two words).
pub open spec fn tail_words(parts: Seq<Seq<u8>>) -> Option<Seq<u16>> {
    if parts.len() > 0 && contains_dot(parts.last()) {
        if groups_words(parts.drop_last()) is Some && spec_parse_ipv4(parts.last()) is Some {
            let v = spec_parse_ipv4(parts.last()).unwrap();
            Some(
                groups_words(parts.drop_last()).unwrap().push((v / 0x10000) as u16).push(
                    (v % 0x10000) as u16,
                ),
            )
        } else {
            None::<Seq<u16>>
        }
    } else {
        groups_words(parts)
    }
}

/// The first position of a `::` in `s` at or after `i`.
pub open spec fn find_dc_from(s: Seq<u8>, i: int) -> Option<int>
    decreases s.len() - i,
{
    if i < 0 || i + 1 >= s.len() {
        None::<int>
    } else if s[i] == 0x3a && s[i + 1] == 0x3a {
        Some(i)
    } else {
        find_dc_from(s, i + 1)
    }
}

/// The value of a full sequence of 16-bit words, most significant first.
pub open spec fn words_value(ws: Seq<u16>) -> int
    decreases ws.len(),
{
    if ws.len() == 0 {
        0
    } else {
        words_value(ws.drop_last()) * 0x10000 + ws.last()
    }
}

/// An upper bound for the value of `n` words.
pub open spec fn words_cap(n: nat) -> int
    decreases n,
{
    if n == 0 {
        1
    } else {
        0x10000 * words_cap((n - 1) as nat)
    }
}

/// The value of a word sequence is below the cap for its length.
pub proof fn lemma_words_value_bound(ws: Seq<u16>)
    ensures
        0 <= words_value(ws) < words_cap(ws.len()),
    decreases ws.len(),
{
    if ws.len() > 0 {
        lemma_words_value_bound(ws.drop_last());
    }
}

/// Eight words never exceed 128 bits.
pub proof fn lemma_words_value_fits(ws: Seq<u16>)
    requires
        ws.len() <= 8,
    ensures
        0 <= words_value(ws) <= u128::MAX,
    decreases ws.len(),
{
    lemma_words_value_bound(ws);
    assert(words_cap(ws.len()) <= words_cap(8)) by {
        if ws.len() < 8 {
            lemma_words_cap_monotone(ws.len(), 8);
        }
    }
    assert(words_cap(8) == 0x1_0000_0000_0000_0000_0000_0000_0000_0000) by {
        reveal_with_fuel(words_cap, 9);
    }
}

/// The cap grows with the word count.
pub proof fn lemma_words_cap_monotone(a: nat, b: nat)
    requires
        a <= b,
    ensures
        words_cap(a) <= words_cap(b),
    decreases b,
{
    if a < b {
        lemma_words_cap_monotone(a, (b - 1) as nat);
        assert(words_cap((b - 1) as nat) >= 1) by {
            lemma_words_cap_positive((b - 1) as nat);
        }
    }
}

/// The cap is at least one.
pub proof fn lemma_words_cap_positive(n: nat)
    ensures
        words_cap(n) >= 1,
    decreases n,
{
    if n > 0 {
        lemma_words_cap_positive((n - 1) as nat);
    }
}

/// What a byte string means when read as an IPv6 address. Without a
/// `::` it is exactly eight words of groups, the last possibly an
/// embedded IPv4 pair. With one `::`, the words on either side total at
/// most seven, and the gap is filled with zero words.
pub open spec fn spec_parse_ipv6(s: Seq<u8>) -> Option<u128> {
    match find_dc_from(s, 0) {
        Option::None => {
            let parts = spec_split(s, 0x3a);
            match tail_words(parts) {
                Option::Some(ws) => {
                    if ws.len() == 8 {
                        Some(words_value(ws) as u128)
                    } else {
                        None::<u128>
                    }
                },
                Option::None => None::<u128>,
            }
        },
        Option::Some(i) => {
            let left = s.take(i);
            let right = s.skip(i + 2);
            let lparts = if left.len() == 0 {
                Seq::<Seq<u8>>::empty()
            } else {
                spec_split(left, 0x3a)
            };
            let rparts = if right.len() == 0 {
                Seq::<Seq<u8>>::empty()
            } else {
                spec_split(right, 0x3a)
            };
            match (groups_words(lparts), tail_words(rparts)) {
                (Option::Some(lw), Option::Some(rw)) => {
                    if lw.len() + rw.len() <= 7 {
                        let ws = lw + Seq::<u16>::new((8 - lw.len() - rw.len()) as nat, |j: int| 0u16)
                            + rw;
                        Some(words_value(ws) as u128)
                    } else {
                        None::<u128>
                    }
                },
                _ => None::<u128>,
            }
        },
    }
}

/// What a byte string means when read as an IP address of either
/// family: dotted-quad IPv4 first, IPv6 otherwise.
pub open spec fn spec_parse_ip(s: Seq<u8>) -> Option<IpAddress> {
    if spec_parse_ipv4(s) is Some {
        Some(IpAddress::V4(spec_parse_ipv4(s).unwrap()))
    } else if spec_parse_ipv6(s) is Some {
        Some(IpAddress::V6(spec_parse_ipv6(s).unwrap()))
    } else {
        None::<IpAddress>
    }
}

/// Read one dotted-quad segment.
fn octet_value(seg: &Vec<u8>) -> (r: Option<u8>)
    ensures
        r is Some <==> valid_octet(seg@),
        r is Some ==> r.unwrap() == dec_value(seg@),
{
    if seg.len() < 1 || seg.len() > 3 {
        return None;
    }
    if seg.len() > 1 && seg[0] == 0x30 {
        return None;
    }
    let mut acc: u32 = 0;
    let mut i: usize = 0;
    while i < seg.len()
        invariant
            i <= seg.len() <= 3,
            all_digits(seg@.take(i as int)),
            acc == dec_value(seg@.take(i as int)),
            acc <= 999,
        decreases seg.len() - i,
    {
        let b = seg[i];
        if b < 0x30 || b > 0x39 {
            proof {
                assert(!is_digit(seg@[i as int]));
            }
            return None;
        }
        proof {
            lemma_dec_value_bound(seg@.take(i as int));
            assert(seg@.take(i + 1).drop_last() =~= seg@.take(i as int));
            assert(seg@.take(i + 1).last() == seg@[i as int]);
            assert(all_digits(seg@.take(i + 1)));
            lemma_dec_value_bound(seg@.take(i + 1));
        }
        acc = acc * 10 + (b - 0x30) as u32;
        i = i + 1;
    }
    proof {
        assert(seg@.take(i as int) =~= seg@);
    }
    if acc > 255 {
        None
    } else {
        Some(acc as u8)
    }
}

/// Read one hexadecimal group.
fn group_value(seg: &Vec<u8>) -> (r: Option<u16>)
    ensures
        r is Some <==> valid_group(seg@),
        r is Some ==> r.unwrap() == hex_value(seg@),
{
    if seg.len() < 1 || seg.len() > 4 {
        return None;
    }
    let mut acc: u32 = 0;
    let mut i: usize = 0;
    while i < seg.len()
        invariant
            i <= seg.len() <= 4,
            all_hex(seg@.take(i as int)),
            acc == hex_value(seg@.take(i as int)),
            acc <= 0xFFFF,
        decreases seg.len() - i,
    {
        let b = seg[i];
        let d: u32 = if b >= 0x30 && b <= 0x39 {
            (b - 0x30) as u32
        } else if b >= 0x41 && b <= 0x46 {
            (b - 0x41) as u32 + 10
        } else if b >= 0x61 && b <= 0x66 {
            (b - 0x61) as u32 + 10
        } else {
            proof {
                assert(!is_hex_digit(seg@[i as int]));
            }
            return None;
        };
        proof {
            lemma_hex_value_bound(seg@.take(i as int));
            assert(seg@.take(i + 1).drop_last() =~= seg@.take(i as int));
            assert(seg@.take(i + 1).last() == seg@[i as int]);
            assert(all_hex(seg@.take(i + 1)));
            lemma_hex_value_bound(seg@.take(i + 1));
        }
        acc = acc * 16 + d;
        i = i + 1;
    }
    proof {
        assert(seg@.take(i as int) =~= seg@);
    }
    Some(acc as u16)
}

/// Read a dotted-quad IPv4 address.
pub fn parse_ipv4(s: &[u8]) -> (r: Option<u32>)
    ensures
        r == spec_parse_ipv4(s@),
{
    let parts = split_bytes(s, 0x2e);
    if parts.len() != 4 {
        return None;
    }
    proof {
        assert(parts@[0]@ == seq_views(parts@)[0]);
        assert(parts@[1]@ == seq_views(parts@)[1]);
        assert(parts@[2]@ == seq_views(parts@)[2]);
        assert(parts@[3]@ == seq_views(parts@)[3]);
    }
    let o0 = match octet_value(&parts[0]) {
        Option::Some(v) => v,
        Option::None => { return None; },
    };
    let o1 = match octet_value(&parts[1]) {
        Option::Some(v) => v,
        Option::None => { return None; },
    };
    let o2 = match octet_value(&parts[2]) {
        Option::Some(v) => v,
        Option::None => { return None; },
    };
    let o3 = match octet_value(&parts[3]) {
        Option::Some(v) => v,
        Option::None => { return None; },
    };
    Some((o0 as u32) * 0x1000000 + (o1 as u32) * 0x10000 + (o2 as u32) * 0x100 + (o3 as u32))
}

/// Whether the part holds a dot.
fn has_dot(seg: &Vec<u8>) -> (r: bool)
    ensures
        r == contains_dot(seg@),
{
    let mut i: usize = 0;
    while i < seg.len()
        invariant
            i <= seg.len(),
            forall|j: int| 0 <= j < i ==> seg@[j] != 0x2e,
        decreases seg.len() - i,
    {
        if seg[i] == 0x2e {
            return true;
        }
        i = i + 1;
    }
    false
}

/// Read the first `end` parts as plain hexadecimal groups.
fn groups_prefix(parts: &Vec<Vec<u8>>, end: usize) -> (r: Option<Vec<u16>>)
    requires
        end <= parts@.len(),
    ensures
        match r {
            Option::Some(ws) => groups_words(seq_views(parts@).take(end as int)) == Some(ws@),
            Option::None => groups_words(seq_views(parts@).take(end as int)) is None,
        },
{
    let mut ws: Vec<u16> = Vec::new();
    let mut i: usize = 0;
    while i < end
        invariant
            i <= end <= parts@.len(),
            groups_words(seq_views(parts@).take(i as int)) == Some(ws@),
        decreases end - i,
    {
        proof {
            assert(parts@[i as int]@ == seq_views(parts@)[i as int]);
        }
        let w = match group_value(&parts[i]) {
            Option::Some(w) => w,
            Option::None => {
                proof {
                    let p = seq_views(parts@).take(end as int);
                    assert(p.take(i as int) =~= seq_views(parts@).take(i as int));
                    assert(p[i as int] == seq_views(parts@)[i as int]);
                    lemma_groups_words_prefix_none(p, i as int);
                }
                return None;
            },
        };
        ws.push(w);
        i = i + 1;
        proof {
            let p = seq_views(parts@).take(i as int);
            assert(p.drop_last() =~= seq_views(parts@).take(i - 1));
            assert(p.last() == seq_views(parts@)[i - 1]);
        }
    }
    Some(ws)
}

/// If a prefix of the parts already fails as groups, the whole run
/// fails.
proof fn lemma_groups_words_prefix_none(parts: Seq<Seq<u8>>, i: int)
    requires
        0 <= i < parts.len(),
        groups_words(parts.take(i)) is Some,
        !valid_group(parts[i]),
    ensures
        groups_words(parts) is None,
    decreases parts.len(),
{
    if i == parts.len() - 1 {
        assert(parts.take(i) =~= parts.drop_last());
        assert(parts.last() == parts[i]);
    } else {
        assert(parts.drop_last().take(i) =~= parts.take(i));
        assert(parts.drop_last()[i] == parts[i]);
        lemma_groups_words_prefix_none(parts.drop_last(), i);
    }
}

/// Read a run of parts whose last may be an embedded IPv4 tail.
fn tail_words_exec(parts: &Vec<Vec<u8>>) -> (r: Option<Vec<u16>>)
    ensures
        match r {
            Option::Some(ws) => tail_words(seq_views(parts@)) == Some(ws@),
            Option::None => tail_words(seq_views(parts@)) is None,
        },
{
    let n = parts.len();
    if n > 0 {
        proof {
            assert(parts@[n - 1]@ == seq_views(parts@)[n - 1]);
            assert(seq_views(parts@).last() == seq_views(parts@)[n - 1]);
        }
        if has_dot(&parts[n - 1]) {
            let mut ws = match groups_prefix(parts, n - 1) {
                Option::Some(ws) => ws,
                Option::None => {
                    proof {
                        assert(seq_views(parts@).take(n - 1) =~= seq_views(parts@).drop_last());
                    }
                    return None;
                },
            };
            proof {
                assert(seq_views(parts@).take(n - 1) =~= seq_views(parts@).drop_last());
            }
            let v = match parse_ipv4(parts[n - 1].as_slice()) {
                Option::Some(v) => v,
                Option::None => { return None; },
            };
            ws.push((v / 0x10000) as u16);
            ws.push((v % 0x10000) as u16);
            return Some(ws);
        }
    }
    let r = groups_prefix(parts, n);
    proof {
        assert(seq_views(parts@).take(n as int) =~= seq_views(parts@));
    }
    r
}

/// The position of the first `::`, if any.
fn find_double_colon(s: &[u8]) -> (r: Option<usize>)
    ensures
        match r {
            Option::Some(i) => find_dc_from(s@, 0) == Some(i as int) && i + 2 <= s@.len(),
            Option::None => find_dc_from(s@, 0) is None,
        },
{
    if s.len() < 2 {
        return None;
    }
    let mut i: usize = 0;
    while i + 1 < s.len()
        invariant
            i + 1 <= s.len(),
            find_dc_from(s@, 0) == find_dc_from(s@, i as int),
        decreases s.len() - i,
    {
        if s[i] == 0x3a && s[i + 1] == 0x3a {
            return Some(i);
        }
        i = i + 1;
    }
    None
}

/// Copy a range of a byte slice.
fn subvec(s: &[u8], from: usize, to: usize) -> (r: Vec<u8>)
    requires
        from <= to <= s@.len(),
    ensures
        r@ == s@.subrange(from as int, to as int),
{
    let mut out: Vec<u8> = Vec::new();
    let mut i: usize = from;
    while i < to
        invariant
            from <= i <= to <= s@.len(),
            out@ =~= s@.subrange(from as int, i as int),
        decreases to - i,
    {
        out.push(s[i]);
        proof {
            assert(out@ =~= s@.subrange(from as int, i + 1));
        }
        i = i + 1;
    }
    out
}

/// Read a colon-separated IPv6 address.
pub fn parse_ipv6(s: &[u8]) -> (r: Option<u128>)
    ensures
        r == spec_parse_ipv6(s@),
{
    match find_double_colon(s) {
        Option::None => {
            let parts = split_bytes(s, 0x3a);
            let ws = match tail_words_exec(&parts) {
                Option::Some(ws) => ws,
                Option::None => { return None; },
            };
            if ws.len() != 8 {
                return None;
            }
            proof {
                lemma_words_value_fits(ws@);
            }
            Some(words_value_exec(&ws))
        },
        Option::Some(i) => {
            let n: usize = s.len();
            let left = subvec(s, 0, i);
            let right = subvec(s, i + 2, n);
            let lparts: Vec<Vec<u8>> = if left.len() == 0 {
                Vec::new()
            } else {
                split_bytes(left.as_slice(), 0x3a)
            };
            let rparts: Vec<Vec<u8>> = if right.len() == 0 {
                Vec::new()
            } else {
                split_bytes(right.as_slice(), 0x3a)
            };
            proof {
                assert(s@.take(i as int) == left@);
                assert(s@.skip(i + 2) == right@);
                if left@.len() == 0 {
                    assert(seq_views(lparts@) =~= Seq::<Seq<u8>>::empty());
                }
                if right@.len() == 0 {
                    assert(seq_views(rparts@) =~= Seq::<Seq<u8>>::empty());
                }
            }
            let n = lparts.len();
            let lw = match groups_prefix(&lparts, n) {
                Option::Some(ws) => ws,
                Option::None => {
                    proof {
                        assert(seq_views(lparts@).take(n as int) =~= seq_views(lparts@));
                    }
                    return None;
                },
            };
            proof {
                assert(seq_views(lparts@).take(n as int) =~= seq_views(lparts@));
            }
            let rw = match tail_words_exec(&rparts) {
                Option::Some(ws) => ws,
                Option::None => { return None; },
            };
            if lw.len() > 7 || rw.len() > 7 {
                return None;
            }
            if lw.len() + rw.len() > 7 {
                return None;
            }
            let ghost lwv: Seq<u16> = lw@;
            let ghost rwv: Seq<u16> = rw@;
            let ghost fill_n: nat = (8 - lwv.len() - rwv.len()) as nat;
            let mut ws: Vec<u16> = lw;
            let fill: usize = 8 - ws.len() - rw.len();
            let mut k: usize = 0;
            while k < fill
                invariant
                    k <= fill,
                    fill == fill_n,
                    ws@ =~= lwv + Seq::<u16>::new(k as nat, |j: int| 0u16),
                decreases fill - k,
            {
                ws.push(0u16);
                k = k + 1;
                proof {
                    assert(ws@ =~= lwv + Seq::<u16>::new(k as nat, |j: int| 0u16));
                }
            }
            let mut j: usize = 0;
            while j < rw.len()
                invariant
                    j <= rw@.len(),
                    rw@ == rwv,
                    ws@ =~= lwv + Seq::<u16>::new(fill_n, |j: int| 0u16) + rwv.take(j as int),
                decreases rw.len() - j,
            {
                ws.push(rw[j]);
                j = j + 1;
                proof {
                    assert(ws@ =~= lwv + Seq::<u16>::new(fill_n, |j: int| 0u16) + rwv.take(
                        j as int,
                    ));
                }
            }
            proof {
                assert(rwv.take(rwv.len() as int) =~= rwv);
                assert(ws@ =~= lwv + Seq::<u16>::new(fill_n, |j: int| 0u16) + rwv);
                lemma_words_value_fits(ws@);
            }
            Some(words_value_exec(&ws))
        },
    }
}

/// The 128-bit value of exactly eight words.
fn words_value_exec(ws: &Vec<u16>) -> (r: u128)
    requires
        ws@.len() == 8,
    ensures
        r == words_value(ws@),
{
    let mut acc: u128 = 0;
    let mut i: usize = 0;
    while i < 8
        invariant
            i <= 8,
            ws@.len() == 8,
            acc == words_value(ws@.take(i as int)),
        decreases 8 - i,
    {
        proof {
            assert(ws@.take(i + 1).drop_last() =~= ws@.take(i as int));
            assert(ws@.take(i + 1).last() == ws@[i as int]);
            lemma_words_value_fits(ws@.take(i + 1));
            lemma_words_value_fits(ws@.take(i as int));
        }
        acc = acc * 0x10000 + ws[i] as u128;
        i = i + 1;
    }
    proof {
        assert(ws@.take(8) =~= ws@);
    }
    acc
}

/// Read an IP address of either family.
pub fn parse_ip(s: &[u8]) -> (r: Option<IpAddress>)
    ensures
        r == spec_parse_ip(s@),
{
    match parse_ipv4(s) {
        Option::Some(v) => Some(IpAddress::V4(v)),
        Option::None => match parse_ipv6(s) {
            Option::Some(v) => Some(IpAddress::V6(v)),
            Option::None => None,
        },
    }
}

/// The character of one decimal digit value.
pub open spec fn digit_char(d: int) -> char {
    if d == 0 {
        '0'
    } else if d == 1 {
        '1'
    } else if d == 2 {
        '2'
    } else if d == 3 {
        '3'
    } else if d == 4 {
        '4'
    } else if d == 5 {
        '5'
    } else if d == 6 {
        '6'
    } else if d == 7 {
        '7'
    } else if d == 8 {
        '8'
    } else {
        '9'
    }
}

/// The character of one hexadecimal digit value, lower case.
pub open spec fn hex_char(d: int) -> char {
    if d < 10 {
        digit_char(d)
    } else if d == 10 {
        'a'
    } else if d == 11 {
        'b'
    } else if d == 12 {
        'c'
    } else if d == 13 {
        'd'
    } else if d == 14 {
        'e'
    } else {
        'f'
    }
}

/// The decimal text of a value up to 255, without leading zeros.
pub open spec fn dec_chars(n: int) -> Seq<char> {
    if n < 10 {
        seq![digit_char(n)]
    } else if n < 100 {
        seq![digit_char(n / 10), digit_char(n % 10)]
    } else {
        seq![digit_char(n / 100), digit_char((n / 10) % 10), digit_char(n % 10)]
    }
}

/// The hexadecimal text of a 16-bit word, lower case, without leading
/// zeros.
pub open spec fn hex_chars(w: int) -> Seq<char> {
    if w < 0x10 {
        seq![hex_char(w)]
    } else if w < 0x100 {
        seq![hex_char(w / 0x10), hex_char(w % 0x10)]
    } else if w < 0x1000 {
        seq![hex_char(w / 0x100), hex_char((w / 0x10) % 0x10), hex_char(w % 0x10)]
    } else {
        seq![
            hex_char(w / 0x1000),
            hex_char((w / 0x100) % 0x10),
            hex_char((w / 0x10) % 0x10),
            hex_char(w % 0x10),
        ]
    }
}

/// The dotted-quad text of an IPv4 address value.
pub open spec fn ipv4_chars(n: int) -> Seq<char> {
    dec_chars(n / 0x1000000) + seq!['.'] + dec_chars((n / 0x10000) % 0x100) + seq!['.'] + dec_chars(
        (n / 0x100) % 0x100,
    ) + seq!['.'] + dec_chars(n % 0x100)
}

/// The full-form text of an IPv6 address value: eight groups, no `::`
/// abbreviation.
pub open spec fn ipv6_chars(n: int) -> Seq<char> {
    hex_chars((n / 0x1_0000_0000_0000_0000_0000_0000_0000) % 0x10000) + seq![':'] + hex_chars(
        (n / 0x1_0000_0000_0000_0000_0000_0000) % 0x10000,
    ) + seq![':'] + hex_chars((n / 0x1_0000_0000_0000_0000_0000) % 0x10000) + seq![':'] + hex_chars(
        (n / 0x1_0000_0000_0000_0000) % 0x10000,
    ) + seq![':'] + hex_chars((n / 0x1_0000_0000_0000) % 0x10000) + seq![':'] + hex_chars(
        (n / 0x1_0000_0000) % 0x10000,
    ) + seq![':'] + hex_chars((n / 0x1_0000) % 0x10000) + seq![':'] + hex_chars(n % 0x10000)
}

/// The text of an IP address of either family.
pub open spec fn ip_chars(ip: IpAddress) -> Seq<char> {
    match ip {
        IpAddress::V4(n) => ipv4_chars(n as int),
        IpAddress::V6(n) => ipv6_chars(n as int),
    }
}

/// One decimal digit as text.
fn digit_str(d: u8) -> (r: &'static str)
    requires
        d < 10,
    ensures
        r@ =~= seq![digit_char(d as int)],
{
    proof {
        reveal_strlit("0");
        reveal_strlit("1");
        reveal_strlit("2");
        reveal_strlit("3");
        reveal_strlit("4");
        reveal_strlit("5");
        reveal_strlit("6");
        reveal_strlit("7");
        reveal_strlit("8");
        reveal_strlit("9");
    }
    match d {
        0 => "0",
        1 => "1",
        2 => "2",
        3 => "3",
        4 => "4",
        5 => "5",
        6 => "6",
        7 => "7",
        8 => "8",
        _ => "9",
    }
}

/// One hexadecimal digit as text, lower case.
fn hex_str(d: u8) -> (r: &'static str)
    requires
        d < 16,
    ensures
        r@ =~= seq![hex_char(d as int)],
{
    if d < 10 {
        digit_str(d)
    } else {
        proof {
            reveal_strlit("a");
            reveal_strlit("b");
            reveal_strlit("c");
            reveal_strlit("d");
            reveal_strlit("e");
            reveal_strlit("f");
        }
        match d {
            10 => "a",
            11 => "b",
            12 => "c",
            13 => "d",
            14 => "e",
            _ => "f",
        }
    }
}

/// Append the decimal text of a byte value.
fn push_dec(out: &mut String, n: u8)
    ensures
        final(out)@ == old(out)@ + dec_chars(n as int),
{
    if n >= 100 {
        out.append(digit_str(n / 100));
    }
    if n >= 10 {
        out.append(digit_str((n / 10) % 10));
    }
    out.append(digit_str(n % 10));
    proof {
        assert(final(out)@ =~= old(out)@ + dec_chars(n as int));
    }
}

/// Append the hexadecimal text of a word, without leading zeros.
fn push_hex(out: &mut String, w: u16)
    ensures
        final(out)@ == old(out)@ + hex_chars(w as int),
{
    if w >= 0x1000 {
        out.append(hex_str((w / 0x1000) as u8));
    }
    if w >= 0x100 {
        out.append(hex_str(((w / 0x100) % 0x10) as u8));
    }
    if w >= 0x10 {
        out.append(hex_str(((w / 0x10) % 0x10) as u8));
    }
    out.append(hex_str((w % 0x10) as u8));
    proof {
        assert(final(out)@ =~= old(out)@ + hex_chars(w as int));
    }
}

/// Append a dot.
fn push_dot(out: &mut String)
    ensures
        final(out)@ == old(out)@ + seq!['.'],
{
    proof {
        reveal_strlit(".");
    }
    out.append(".");
    proof {
        assert(final(out)@ =~= old(out)@ + seq!['.']);
    }
}

/// Append a colon.
fn push_colon(out: &mut String)
    ensures
        final(out)@ == old(out)@ + seq![':'],
{
    proof {
        reveal_strlit(":");
    }
    out.append(":");
    proof {
        assert(final(out)@ =~= old(out)@ + seq![':']);
    }
}

/// Format an IPv4 address value as dotted-quad text.
pub fn ipv4_to_text(n: u32) -> (r: String)
    ensures
        r@ == ipv4_chars(n as int),
{
    let mut out = String::new();
    push_dec(&mut out, (n / 0x1000000) as u8);
    push_dot(&mut out);
    push_dec(&mut out, ((n / 0x10000) % 0x100) as u8);
    push_dot(&mut out);
    push_dec(&mut out, ((n / 0x100) % 0x100) as u8);
    push_dot(&mut out);
    push_dec(&mut out, (n % 0x100) as u8);
    proof {
        assert(out@ =~= ipv4_chars(n as int));
    }
    out
}

/// Format an IPv6 address value as eight colon-separated groups.
pub fn ipv6_to_text(n: u128) -> (r: String)
    ensures
        r@ == ipv6_chars(n as int),
{
    let mut out = String::new();
    push_hex(&mut out, ((n / 0x1_0000_0000_0000_0000_0000_0000_0000) % 0x10000) as u16);
    push_colon(&mut out);
    push_hex(&mut out, ((n / 0x1_0000_0000_0000_0000_0000_0000) % 0x10000) as u16);
    push_colon(&mut out);
    push_hex(&mut out, ((n / 0x1_0000_0000_0000_0000_0000) % 0x10000) as u16);
    push_colon(&mut out);
    push_hex(&mut out, ((n / 0x1_0000_0000_0000_0000) % 0x10000) as u16);
    push_colon(&mut out);
    push_hex(&mut out, ((n / 0x1_0000_0000_0000) % 0x10000) as u16);
    push_colon(&mut out);
    push_hex(&mut out, ((n / 0x1_0000_0000) % 0x10000) as u16);
    push_colon(&mut out);
    push_hex(&mut out, ((n / 0x1_0000) % 0x10000) as u16);
    push_colon(&mut out);
    push_hex(&mut out, (n % 0x10000) as u16);
    proof {
        assert(out@ =~= ipv6_chars(n as int));
    }
    out
}

/// Format an IP address of either family.
pub fn ip_to_text(ip: &IpAddress) -> (r: String)
    ensures
        r@ == ip_chars(*ip),
{
    match ip {
        IpAddress::V4(n) => ipv4_to_text(*n),
        IpAddress::V6(n) => ipv6_to_text(*n),
    }
}

} // verus!
