//! IP address literals.
//!
//! An address is parsed from its textual form before any reverse query is
//! issued. The grammar accepted here is the usual one for address literals:
//! an IPv4 dotted quad of decimal octets without leading zeros, or an IPv6
//! literal of hexadecimal groups with an optional `::` gap and an optional
//! embedded dotted quad in the last position. The executable parser is
//! verified against the specification functions in this module.

use vstd::prelude::*;
use vstd::string::StrSliceExecFns;

verus! {

/// A parsed IP address: the 32-bit value of an IPv4 address or the 128-bit
/// value of an IPv6 address.
#[derive(PartialEq, Eq, Structural, Clone, Copy, Debug)]
pub enum IpAddress {
    V4(u32),
    V6(u128),
}

// ---------------------------------------------------------------------------
// Characters
// ---------------------------------------------------------------------------

/// `c` is a decimal digit `'0'..='9'`.
pub open spec fn is_dec_digit(c: char) -> bool {
    48 <= c as u32 <= 57
}

/// Value of a decimal digit.
pub open spec fn dec_val(c: char) -> int {
    c as u32 - 48
}

/// `c` is a hexadecimal digit `'0'..='9'`, `'a'..='f'` or `'A'..='F'`.
pub open spec fn is_hex_digit(c: char) -> bool {
    is_dec_digit(c) || 97 <= c as u32 <= 102 || 65 <= c as u32 <= 70
}

/// Value of a hexadecimal digit.
pub open spec fn hex_val(c: char) -> int {
    if is_dec_digit(c) {
        c as u32 - 48
    } else if 97 <= c as u32 {
        c as u32 - 87
    } else {
        c as u32 - 55
    }
}

// ---------------------------------------------------------------------------
// Splitting at a separator
// ---------------------------------------------------------------------------

/// Index of the first occurrence of `sep` in `s`, or `s.len()` if none.
pub open spec fn find_sep(s: Seq<char>, sep: char) -> int
    decreases s.len(),
{
    if s.len() == 0 {
        0
    } else if s[0] == sep {
        0
    } else {
        1 + find_sep(s.skip(1), sep)
    }
}

/// The pieces of `s` between occurrences of `sep`, in order; always one more
/// piece than there are separators, so never empty.
pub open spec fn split_sep(s: Seq<char>, sep: char) -> Seq<Seq<char>>
    decreases s.len(),
{
    let i = find_sep(s, sep);
    if 0 <= i < s.len() {
        seq![s.take(i)].add(split_sep(s.skip(i + 1), sep))
    } else {
        seq![s]
    }
}

proof fn lemma_find_sep_bounds(s: Seq<char>, sep: char)
    ensures
        0 <= find_sep(s, sep) <= s.len(),
        find_sep(s, sep) < s.len() ==> s[find_sep(s, sep)] == sep,
        forall|j: int| 0 <= j < find_sep(s, sep) ==> s[j] != sep,
    decreases s.len(),
{
    if s.len() == 0 {
    } else if s[0] == sep {
    } else {
        lemma_find_sep_bounds(s.skip(1), sep);
        assert forall|j: int| 0 <= j < find_sep(s, sep) implies s[j] != sep by {
            if j > 0 {
                assert(s.skip(1)[j - 1] != sep);
            }
        }
    }
}

/// If the first `k` characters of `s` are not `sep` and `s[k]` is `sep`, the
/// split of `s` starts with `s.take(k)` followed by the split of the rest.
proof fn lemma_split_sep_step(s: Seq<char>, sep: char, k: int)
    requires
        0 <= k < s.len(),
        s[k] == sep,
        forall|j: int| 0 <= j < k ==> s[j] != sep,
    ensures
        split_sep(s, sep) == seq![s.take(k)].add(split_sep(s.skip(k + 1), sep)),
{
    lemma_find_sep_bounds(s, sep);
    assert(find_sep(s, sep) == k);
}

/// A string without the separator splits into itself alone.
proof fn lemma_split_sep_whole(s: Seq<char>, sep: char)
    requires
        forall|j: int| 0 <= j < s.len() ==> s[j] != sep,
    ensures
        split_sep(s, sep) == seq![s],
{
    lemma_find_sep_bounds(s, sep);
}

/// The characters of `s`, in order, as a vector.
fn chars_of(s: &str) -> (cs: Vec<char>)
    ensures
        cs@ == s@,
{
    let n = s.unicode_len();
    let mut cs: Vec<char> = Vec::new();
    let mut i: usize = 0;
    while i < n
        invariant
            n == s@.len(),
            i <= n,
            cs@ == s@.take(i as int),
        decreases n - i,
    {
        let c = s.get_char(i);
        cs.push(c);
        proof {
            assert(s@.take(i + 1 as int) =~= s@.take(i as int).push(s@[i as int]));
        }
        i = i + 1;
    }
    proof {
        assert(s@.take(n as int) =~= s@);
    }
    cs
}

/// Splits `cs` at every occurrence of `sep`.
fn split_char(cs: &Vec<char>, sep: char) -> (parts: Vec<Vec<char>>)
    ensures
        parts.deep_view() == split_sep(cs@, sep),
{
    let mut parts: Vec<Vec<char>> = Vec::new();
    let mut cur: Vec<char> = Vec::new();
    let ghost mut start: int = 0;
    let mut i: usize = 0;
    proof {
        assert(cs@.skip(0) =~= cs@);
        assert(parts.deep_view() =~~= Seq::<Seq<char>>::empty());
        assert(Seq::<Seq<char>>::empty().add(split_sep(cs@, sep)) =~= split_sep(cs@, sep));
    }
    while i < cs.len()
        invariant
            0 <= start <= i as int <= cs@.len(),
            cur@ == cs@.subrange(start, i as int),
            forall|j: int| start <= j < i as int ==> cs@[j] != sep,
            split_sep(cs@, sep) == parts.deep_view().add(split_sep(cs@.skip(start), sep)),
        decreases cs@.len() - i,
    {
        let c = cs[i];
        if c == sep {
            proof {
                let tail = cs@.skip(start);
                assert forall|j: int| 0 <= j < i - start implies tail[j] != sep by {
                    assert(tail[j] == cs@[j + start]);
                }
                lemma_split_sep_step(tail, sep, i - start);
                assert(tail.take(i - start) =~= cs@.subrange(start, i as int));
                assert(tail.skip(i - start + 1) =~= cs@.skip(i + 1));
            }
            let ghost old_parts = parts.deep_view();
            parts.push(cur);
            proof {
                assert(parts.deep_view() =~~= old_parts.push(cs@.subrange(start, i as int)));
                assert(old_parts.push(cs@.subrange(start, i as int)).add(
                    split_sep(cs@.skip(i + 1), sep)) =~= old_parts.add(
                    seq![cs@.subrange(start, i as int)].add(split_sep(cs@.skip(i + 1), sep))));
            }
            cur = Vec::new();
            proof {
                start = i + 1;
                assert(cur@ =~= cs@.subrange(start, i + 1 as int));
            }
        } else {
            cur.push(c);
            proof {
                assert(cur@ =~= cs@.subrange(start, i + 1 as int));
            }
        }
        i = i + 1;
    }
    proof {
        let tail = cs@.skip(start);
        assert forall|j: int| 0 <= j < tail.len() implies tail[j] != sep by {
            assert(tail[j] == cs@[j + start]);
        }
        lemma_split_sep_whole(tail, sep);
        assert(tail =~= cs@.subrange(start, cs@.len() as int));
    }
    let ghost old_parts = parts.deep_view();
    parts.push(cur);
    proof {
        assert(parts.deep_view() =~~= old_parts.push(cs@.subrange(start, cs@.len() as int)));
        assert(old_parts.push(cs@.subrange(start, cs@.len() as int)) =~= old_parts.add(
            seq![cs@.subrange(start, cs@.len() as int)]));
    }
    parts
}

// ---------------------------------------------------------------------------
// IPv4
// ---------------------------------------------------------------------------

/// Value of a dotted-quad component: one to three decimal digits, no leading
/// zero unless the component is exactly `"0"`, value at most 255.
pub open spec fn spec_parse_octet(s: Seq<char>) -> Option<int> {
    if 1 <= s.len() <= 3 && (forall|i: int| 0 <= i < s.len() ==> is_dec_digit(s[i])) && (s.len()
        > 1 ==> s[0] != '0') {
        let v = if s.len() == 1 {
            dec_val(s[0])
        } else if s.len() == 2 {
            10 * dec_val(s[0]) + dec_val(s[1])
        } else {
            100 * dec_val(s[0]) + 10 * dec_val(s[1]) + dec_val(s[2])
        };
        if v <= 255 {
            Some(v)
        } else {
            None
        }
    } else {
        None
    }
}

/// Value of an IPv4 dotted-quad literal: exactly four octets separated by
/// dots, combined big-endian into one 32-bit value.
#[verifier::opaque]
pub open spec fn spec_parse_ipv4(s: Seq<char>) -> Option<int> {
    let p = split_sep(s, '.');
    if p.len() == 4 {
        match (spec_parse_octet(p[0]), spec_parse_octet(p[1]), spec_parse_octet(p[2]),
        spec_parse_octet(p[3])) {
            (Some(a), Some(b), Some(c), Some(d)) => Some(
                0x1000000 * a + 0x10000 * b + 0x100 * c + d,
            ),
            _ => None,
        }
    } else {
        None
    }
}

/// Decides `is_dec_digit`.
fn dec_digit(c: char) -> (b: bool)
    ensures
        b == is_dec_digit(c),
{
    let u = c as u32;
    48 <= u && u <= 57
}

/// Executable octet parser, exact against `spec_parse_octet`.
fn parse_octet(p: &Vec<char>) -> (r: Option<u8>)
    ensures
        match r {
            Some(v) => spec_parse_octet(p@) == Some(v as int),
            None => spec_parse_octet(p@) is None,
        },
{
    let n = p.len();
    if n < 1 || n > 3 {
        return None;
    }
    let mut k: usize = 0;
    while k < n
        invariant
            n == p@.len(),
            1 <= n <= 3,
            k <= n,
            forall|j: int| 0 <= j < k as int ==> is_dec_digit(p@[j]),
        decreases n - k,
    {
        if !dec_digit(p[k]) {
            return None;
        }
        k = k + 1;
    }
    if n > 1 && p[0] == '0' {
        return None;
    }
    let v: u32 = if n == 1 {
        p[0] as u32 - 48
    } else if n == 2 {
        10 * (p[0] as u32 - 48) + (p[1] as u32 - 48)
    } else {
        100 * (p[0] as u32 - 48) + 10 * (p[1] as u32 - 48) + (p[2] as u32 - 48)
    };
    if v > 255 {
        return None;
    }
    Some(v as u8)
}

/// Executable IPv4 parser, exact against `spec_parse_ipv4`.
fn parse_ipv4(cs: &Vec<char>) -> (r: Option<u32>)
    ensures
        match r {
            Some(v) => spec_parse_ipv4(cs@) == Some(v as int),
            None => spec_parse_ipv4(cs@) is None,
        },
{
    proof {
        reveal(spec_parse_ipv4);
    }
    let parts = split_char(cs, '.');
    proof {
        assert(parts.deep_view().len() == parts@.len());
    }
    if parts.len() != 4 {
        return None;
    }
    proof {
        assert(parts.deep_view()[0] == parts@[0]@);
        assert(parts.deep_view()[1] == parts@[1]@);
        assert(parts.deep_view()[2] == parts@[2]@);
        assert(parts.deep_view()[3] == parts@[3]@);
    }
    let a = match parse_octet(&parts[0]) {
        Some(v) => v,
        None => {
            return None;
        },
    };
    let b = match parse_octet(&parts[1]) {
        Some(v) => v,
        None => {
            return None;
        },
    };
    let c = match parse_octet(&parts[2]) {
        Some(v) => v,
        None => {
            return None;
        },
    };
    let d = match parse_octet(&parts[3]) {
        Some(v) => v,
        None => {
            return None;
        },
    };
    Some(0x1000000 * (a as u32) + 0x10000 * (b as u32) + 0x100 * (c as u32) + (d as u32))
}

// ---------------------------------------------------------------------------
// IPv6
// ---------------------------------------------------------------------------

/// Value of one hexadecimal group: one to four hexadecimal digits.
pub open spec fn spec_parse_h16(s: Seq<char>) -> Option<int> {
    if 1 <= s.len() <= 4 && (forall|i: int| 0 <= i < s.len() ==> is_hex_digit(s[i])) {
        Some(
            if s.len() == 1 {
                hex_val(s[0])
            } else if s.len() == 2 {
                16 * hex_val(s[0]) + hex_val(s[1])
            } else if s.len() == 3 {
                256 * hex_val(s[0]) + 16 * hex_val(s[1]) + hex_val(s[2])
            } else {
                4096 * hex_val(s[0]) + 256 * hex_val(s[1]) + 16 * hex_val(s[2]) + hex_val(s[3])
            },
        )
    } else {
        None
    }
}

/// Every piece of `ps` is a hexadecimal group.
pub open spec fn all_h16(ps: Seq<Seq<char>>) -> bool {
    forall|i: int| 0 <= i < ps.len() ==> spec_parse_h16(ps[i]) is Some
}

/// The group values of pieces that are all hexadecimal groups.
pub open spec fn h16_vals(ps: Seq<Seq<char>>) -> Seq<int> {
    Seq::new(ps.len(), |i: int| spec_parse_h16(ps[i]).unwrap())
}

/// Group values of a run of pieces that must all be hexadecimal groups.
pub open spec fn spec_head_groups(ps: Seq<Seq<char>>) -> Option<Seq<int>> {
    if all_h16(ps) {
        Some(h16_vals(ps))
    } else {
        None
    }
}

/// Group values of the run that ends an IPv6 literal: hexadecimal groups,
/// the last piece optionally an embedded IPv4 dotted quad that contributes
/// the final two groups.
pub open spec fn spec_tail_groups(ps: Seq<Seq<char>>) -> Option<Seq<int>> {
    if all_h16(ps) {
        Some(h16_vals(ps))
    } else if ps.len() >= 1 && all_h16(ps.drop_last()) && spec_parse_ipv4(ps.last()) is Some {
        let v = spec_parse_ipv4(ps.last()).unwrap();
        Some(h16_vals(ps.drop_last()).push(v / 0x10000).push(v % 0x10000))
    } else {
        None
    }
}

/// No piece of `ps` with index in `[lo, hi)` is empty.
pub open spec fn no_empty_piece(ps: Seq<Seq<char>>, lo: int, hi: int) -> bool {
    forall|i: int| lo <= i < hi ==> ps[i].len() > 0
}

/// `n` zero group values.
pub open spec fn zero_groups(n: int) -> Seq<int> {
    Seq::new(n as nat, |i: int| 0)
}

/// `ps` has a `::` gap at piece `e` and nowhere else: the piece at `e` is
/// empty, every other piece is not, and the gap is strictly inside.
pub open spec fn is_gap_at(ps: Seq<Seq<char>>, e: int) -> bool {
    &&& 0 < e < ps.len() - 1
    &&& ps[e].len() == 0
    &&& no_empty_piece(ps, 0, e)
    &&& no_empty_piece(ps, e + 1, ps.len() as int)
}

/// The eight 16-bit group values denoted by an IPv6 literal, from the shape
/// of its colon-separated pieces:
/// either eight groups and no `::`, or a `::` standing for the missing zero
/// groups at the start, the end, or strictly inside, with at most seven
/// explicit groups. A `::` shows up in the pieces as empty pieces: two
/// leading ones, two trailing ones, one inner one, or three pieces of `"::"`
/// itself.
#[verifier::opaque]
pub open spec fn spec_ipv6_groups(s: Seq<char>) -> Option<Seq<int>> {
    let p = split_sep(s, ':');
    let n = p.len() as int;
    if no_empty_piece(p, 0, n) {
        match spec_tail_groups(p) {
            Some(g) => if g.len() == 8 {
                Some(g)
            } else {
                None
            },
            None => None,
        }
    } else if n == 3 && p[0].len() == 0 && p[1].len() == 0 && p[2].len() == 0 {
        Some(zero_groups(8))
    } else if n >= 3 && p[0].len() == 0 && p[1].len() == 0 && no_empty_piece(p, 2, n) {
        match spec_tail_groups(p.skip(2)) {
            Some(g) => if g.len() <= 7 {
                Some(zero_groups(8 - g.len()).add(g))
            } else {
                None
            },
            None => None,
        }
    } else if n >= 3 && p[n - 1].len() == 0 && p[n - 2].len() == 0 && no_empty_piece(p, 0, n - 2) {
        match spec_head_groups(p.take(n - 2)) {
            Some(g) => if g.len() <= 7 {
                Some(g.add(zero_groups(8 - g.len())))
            } else {
                None
            },
            None => None,
        }
    } else if exists|e: int| is_gap_at(p, e) {
        let e = choose|e: int| is_gap_at(p, e);
        match (spec_head_groups(p.take(e)), spec_tail_groups(p.skip(e + 1))) {
            (Some(h), Some(t)) => if h.len() + t.len() <= 7 {
                Some(h.add(zero_groups(8 - h.len() - t.len())).add(t))
            } else {
                None
            },
            _ => None,
        }
    } else {
        None
    }
}

/// The 128-bit value of eight 16-bit groups, big-endian.
pub open spec fn spec_ipv6_value(g: Seq<int>) -> int
    recommends
        g.len() == 8,
{
    g[0] * 0x10000000000000000000000000000 + g[1] * 0x1000000000000000000000000 + g[2]
        * 0x100000000000000000000 + g[3] * 0x10000000000000000 + g[4] * 0x1000000000000 + g[5]
        * 0x100000000 + g[6] * 0x10000 + g[7]
}

/// Value of an IPv6 literal.
pub open spec fn spec_parse_ipv6(s: Seq<char>) -> Option<int> {
    match spec_ipv6_groups(s) {
        Some(g) => Some(spec_ipv6_value(g)),
        None => None,
    }
}

/// Decides `is_hex_digit`.
fn hex_digit(c: char) -> (b: bool)
    ensures
        b == is_hex_digit(c),
{
    let u = c as u32;
    (48 <= u && u <= 57) || (97 <= u && u <= 102) || (65 <= u && u <= 70)
}

/// Value of a hexadecimal digit.
fn hex_digit_value(c: char) -> (v: u32)
    requires
        is_hex_digit(c),
    ensures
        v as int == hex_val(c),
{
    let u = c as u32;
    if u <= 57 {
        u - 48
    } else if u >= 97 {
        u - 87
    } else {
        u - 55
    }
}

/// Executable group parser, exact against `spec_parse_h16`.
fn parse_h16(p: &Vec<char>) -> (r: Option<u16>)
    ensures
        match r {
            Some(v) => spec_parse_h16(p@) == Some(v as int),
            None => spec_parse_h16(p@) is None,
        },
{
    let n = p.len();
    if n < 1 || n > 4 {
        return None;
    }
    let mut k: usize = 0;
    while k < n
        invariant
            n == p@.len(),
            1 <= n <= 4,
            k <= n,
            forall|j: int| 0 <= j < k as int ==> is_hex_digit(p@[j]),
        decreases n - k,
    {
        if !hex_digit(p[k]) {
            return None;
        }
        k = k + 1;
    }
    let v: u32 = if n == 1 {
        hex_digit_value(p[0])
    } else if n == 2 {
        16 * hex_digit_value(p[0]) + hex_digit_value(p[1])
    } else if n == 3 {
        256 * hex_digit_value(p[0]) + 16 * hex_digit_value(p[1]) + hex_digit_value(p[2])
    } else {
        4096 * hex_digit_value(p[0]) + 256 * hex_digit_value(p[1]) + 16 * hex_digit_value(p[2])
            + hex_digit_value(p[3])
    };
    Some(v as u16)
}

/// Parses the pieces `lo..hi` as a run of groups; with `v4_tail` the last
/// piece may be an embedded dotted quad worth two groups. Exact against
/// `spec_tail_groups` (with `v4_tail`) or `spec_head_groups` (without).
fn parse_groups(parts: &Vec<Vec<char>>, lo: usize, hi: usize, v4_tail: bool) -> (r: Option<
    Vec<u16>,
>)
    requires
        lo <= hi <= parts@.len(),
    ensures
        ({
            let ps = parts.deep_view().subrange(lo as int, hi as int);
            let sg = if v4_tail {
                spec_tail_groups(ps)
            } else {
                spec_head_groups(ps)
            };
            match r {
                Some(g) => sg == Some(g@.map_values(|x: u16| x as int)),
                None => sg is None,
            }
        }),
{
    let ghost ps = parts.deep_view().subrange(lo as int, hi as int);
    proof {
        assert(parts.deep_view().len() == parts@.len());
    }
    let mut g: Vec<u16> = Vec::new();
    let mut i: usize = lo;
    while i < hi
        invariant
            lo <= i <= hi <= parts@.len(),
            parts.deep_view().len() == parts@.len(),
            ps == parts.deep_view().subrange(lo as int, hi as int),
            g@.len() == i - lo,
            forall|j: int| 0 <= j < i - lo ==> spec_parse_h16(ps[j]) == Some(g@[j] as int),
        decreases hi - i,
    {
        proof {
            assert(ps[i - lo] =~= parts@[i as int]@);
        }
        match parse_h16(&parts[i]) {
            Some(v) => {
                g.push(v);
            },
            None => {
                if v4_tail && i == hi - 1 {
                    match parse_ipv4(&parts[i]) {
                        Some(v4) => {
                            g.push((v4 / 0x10000) as u16);
                            g.push((v4 % 0x10000) as u16);
                            proof {
                                assert(!all_h16(ps)) by {
                                    assert(spec_parse_h16(ps[i - lo]) is None);
                                }
                                assert(ps.drop_last() =~= ps.subrange(0, i - lo));
                                assert(all_h16(ps.drop_last()));
                                assert(ps.last() == ps[i - lo]);
                                assert(h16_vals(ps.drop_last()).push((v4 as int) / 0x10000).push(
                                    (v4 as int) % 0x10000) =~= g@.map_values(|x: u16| x as int));
                            }
                            return Some(g);
                        },
                        None => {
                            proof {
                                assert(!all_h16(ps)) by {
                                    assert(spec_parse_h16(ps[i - lo]) is None);
                                }
                                if ps.len() >= 1 && all_h16(ps.drop_last()) {
                                    assert(ps.last() == ps[i - lo]);
                                }
                            }
                            return None;
                        },
                    }
                } else {
                    proof {
                        assert(!all_h16(ps)) by {
                            assert(spec_parse_h16(ps[i - lo]) is None);
                        }
                        if v4_tail && ps.len() >= 1 && all_h16(ps.drop_last()) {
                            // the failing piece is not the last, so it is in the
                            // dropped prefix and cannot be a group either
                            assert(ps.drop_last()[i - lo] == ps[i - lo]);
                            assert(false);
                        }
                    }
                    return None;
                }
            },
        }
        i = i + 1;
    }
    proof {
        assert(all_h16(ps));
        assert(h16_vals(ps) =~= g@.map_values(|x: u16| x as int));
    }
    Some(g)
}

/// The 128-bit value of eight group values.
fn value_of_groups(g: &Vec<u16>) -> (v: u128)
    requires
        g@.len() == 8,
    ensures
        v as int == spec_ipv6_value(g@.map_values(|x: u16| x as int)),
{
    (g[0] as u128) * 0x10000000000000000000000000000 + (g[1] as u128)
        * 0x1000000000000000000000000 + (g[2] as u128) * 0x100000000000000000000 + (g[3] as u128)
        * 0x10000000000000000 + (g[4] as u128) * 0x1000000000000 + (g[5] as u128) * 0x100000000 + (
    g[6] as u128) * 0x10000 + (g[7] as u128)
}

/// Eight groups from an explicit head run and tail run with the `::` zeros
/// between them.
fn pad_groups(head: Vec<u16>, tail: Vec<u16>) -> (g: Vec<u16>)
    requires
        head@.len() + tail@.len() <= 7,
    ensures
        g@.len() == 8,
        g@.map_values(|x: u16| x as int) == head@.map_values(|x: u16| x as int).add(
            zero_groups(8 - head@.len() - tail@.len()),
        ).add(tail@.map_values(|x: u16| x as int)),
{
    let ghost hv = head@;
    let ghost tv = tail@;
    let mut g = head;
    let mut z: usize = 8 - g.len() - tail.len();
    while z > 0
        invariant
            g@.len() + z + tv.len() == 8,
            g@ =~= hv.add(Seq::new((g@.len() - hv.len()) as nat, |i: int| 0u16)),
        decreases z,
    {
        g.push(0u16);
        z = z - 1;
    }
    let mut j: usize = 0;
    while j < tail.len()
        invariant
            j <= tv.len(),
            tail@ == tv,
            hv.len() + tv.len() <= 7,
            g@.len() == 8 - tv.len() + j,
            g@ =~= hv.add(Seq::new((8 - hv.len() - tv.len()) as nat, |i: int| 0u16)).add(
                tv.take(j as int)),
        decreases tv.len() - j,
    {
        let x = tail[j];
        g.push(x);
        proof {
            assert(tv.take(j + 1 as int) =~= tv.take(j as int).push(tv[j as int]));
        }
        j = j + 1;
    }
    proof {
        assert(tv.take(tv.len() as int) =~= tv);
        assert(g@.map_values(|x: u16| x as int) =~= hv.map_values(|x: u16| x as int).add(
            zero_groups(8 - hv.len() - tv.len())).add(tv.map_values(|x: u16| x as int)));
    }
    g
}

/// Executable IPv6 parser, exact against `spec_parse_ipv6`.
fn parse_ipv6(cs: &Vec<char>) -> (r: Option<u128>)
    ensures
        match r {
            Some(v) => spec_parse_ipv6(cs@) == Some(v as int),
            None => spec_parse_ipv6(cs@) is None,
        },
{
    proof {
        reveal(spec_ipv6_groups);
    }
    let parts = split_char(cs, ':');
    let ghost p = parts.deep_view();
    let n = parts.len();
    proof {
        assert(p.len() == parts@.len());
    }
    let mut e1: usize = n;
    let mut e2: usize = n;
    let mut e3: usize = n;
    let mut i: usize = 0;
    while i < n
        invariant
            n == parts@.len(),
            p == parts.deep_view(),
            p.len() == n,
            i <= n,
            e1 <= n,
            e2 <= n,
            e3 <= n,
            e1 == n ==> e2 == n && no_empty_piece(p, 0, i as int),
            e2 == n ==> e3 == n,
            e1 < n ==> (e1 as int) < (i as int) && p[e1 as int].len() == 0 && no_empty_piece(
                p,
                0,
                e1 as int,
            ),
            e1 < n && e2 == n ==> no_empty_piece(p, e1 as int + 1, i as int),
            e2 < n ==> e1 < e2 && (e2 as int) < (i as int) && p[e2 as int].len() == 0
                && no_empty_piece(p, e1 as int + 1, e2 as int),
            e2 < n && e3 == n ==> no_empty_piece(p, e2 as int + 1, i as int),
            e3 < n ==> e2 < e3 && (e3 as int) < (i as int) && p[e3 as int].len() == 0
                && no_empty_piece(p, e2 as int + 1, e3 as int),
        decreases n - i,
    {
        proof {
            assert(p[i as int] =~= parts@[i as int]@);
        }
        if parts[i].len() == 0 {
            if e1 == n {
                e1 = i;
            } else if e2 == n {
                e2 = i;
            } else if e3 == n {
                e3 = i;
            }
        }
        i = i + 1;
    }
    if e1 == n {
        // no empty piece: eight explicit groups
        proof {
            assert(p.subrange(0, n as int) =~= p);
        }
        match parse_groups(&parts, 0, n, true) {
            Some(g) => {
                if g.len() == 8 {
                    let v = value_of_groups(&g);
                    Some(v)
                } else {
                    None
                }
            },
            None => None,
        }
    } else if e3 < n {
        if n == 3 {
            // the literal "::"
            proof {
                assert(e1 == 0 && e2 == 1 && e3 == 2);
                assert(!no_empty_piece(p, 0, 3)) by {
                    assert(p[0].len() == 0);
                }
                assert(spec_ipv6_value(zero_groups(8)) == 0) by {
                    assert(zero_groups(8)[0] == 0);
                    assert(zero_groups(8)[1] == 0);
                    assert(zero_groups(8)[2] == 0);
                    assert(zero_groups(8)[3] == 0);
                    assert(zero_groups(8)[4] == 0);
                    assert(zero_groups(8)[5] == 0);
                    assert(zero_groups(8)[6] == 0);
                    assert(zero_groups(8)[7] == 0);
                }
            }
            Some(0u128)
        } else {
            // three or more empty pieces in any other shape
            proof {
                assert(!no_empty_piece(p, 0, n as int)) by {
                    assert(p[e1 as int].len() == 0);
                }
                assert(!no_empty_piece(p, 2, n as int)) by {
                    assert(p[e3 as int].len() == 0);
                }
                assert(!no_empty_piece(p, 0, n as int - 2)) by {
                    assert(p[e1 as int].len() == 0);
                }
                assert(!(exists|e: int| is_gap_at(p, e))) by {
                    assert forall|e: int| !is_gap_at(p, e) by {
                        if is_gap_at(p, e) {
                            if e < e1 as int {
                                assert(p[e].len() > 0);
                            } else if e > e1 as int {
                                assert(p[e1 as int].len() > 0);
                            } else {
                                assert(p[e2 as int].len() > 0);
                            }
                        }
                    }
                }
            }
            None
        }
    } else if e2 < n {
        // exactly two empty pieces, at e1 < e2
        if e1 == 0 && e2 == 1 && n >= 3 {
            // leading "::"
            proof {
                assert(p.subrange(2, n as int) =~= p.skip(2));
                assert(!no_empty_piece(p, 0, n as int)) by {
                    assert(p[0].len() == 0);
                }
                if n == 3 {
                    assert(p[2].len() > 0);
                }
            }
            match parse_groups(&parts, 2, n, true) {
                Some(t) => {
                    if t.len() <= 7 {
                        let g = pad_groups(Vec::new(), t);
                        proof {
                            assert(Seq::<u16>::empty().map_values(|x: u16| x as int)
                                =~= Seq::<int>::empty());
                            assert(g@.map_values(|x: u16| x as int) =~= zero_groups(
                                8 - g@.map_values(|x: u16| x as int).len() + zero_groups(0).len(),
                            ).add(g@.map_values(|x: u16| x as int).skip(0)));
                        }
                        let v = value_of_groups(&g);
                        Some(v)
                    } else {
                        None
                    }
                },
                None => None,
            }
        } else if n >= 3 && e1 == n - 2 && e2 == n - 1 {
            // trailing "::"
            proof {
                assert(p.subrange(0, n as int - 2) =~= p.take(n as int - 2));
                assert(!no_empty_piece(p, 0, n as int)) by {
                    assert(p[e1 as int].len() == 0);
                }
                assert(p[0].len() > 0);
            }
            match parse_groups(&parts, 0, n - 2, false) {
                Some(h) => {
                    if h.len() <= 7 {
                        let g = pad_groups(h, Vec::new());
                        proof {
                            assert(Seq::<u16>::empty().map_values(|x: u16| x as int)
                                =~= Seq::<int>::empty());
                        }
                        let v = value_of_groups(&g);
                        Some(v)
                    } else {
                        None
                    }
                },
                None => None,
            }
        } else {
            // two empty pieces in an impossible position
            proof {
                assert(!no_empty_piece(p, 0, n as int)) by {
                    assert(p[e1 as int].len() == 0);
                }
                if n == 3 && p[0].len() == 0 && p[1].len() == 0 && p[2].len() == 0 {
                    if e1 as int > 0 {
                        assert(p[0].len() > 0);
                    }
                    if e2 as int > 1 {
                        assert(p[1].len() > 0);
                    }
                    assert(p[2].len() > 0);
                    assert(false);
                }
                if n >= 3 && p[0].len() == 0 && p[1].len() == 0 && no_empty_piece(
                    p,
                    2,
                    n as int,
                ) {
                    if e1 as int > 0 {
                        assert(p[0].len() > 0);
                    }
                    if e2 as int > 1 {
                        assert(p[1].len() > 0);
                    }
                    assert(false);
                }
                if n >= 3 && p[n as int - 1].len() == 0 && p[n as int - 2].len() == 0
                    && no_empty_piece(p, 0, n as int - 2) {
                    if (e1 as int) < n as int - 2 {
                        assert(p[e1 as int].len() > 0);
                    }
                    assert(false);
                }
                assert(!(exists|e: int| is_gap_at(p, e))) by {
                    assert forall|e: int| !is_gap_at(p, e) by {
                        if is_gap_at(p, e) {
                            if e < e1 as int {
                                assert(p[e].len() > 0);
                            } else if e > e1 as int {
                                assert(p[e1 as int].len() > 0);
                            } else {
                                assert(p[e2 as int].len() > 0);
                            }
                        }
                    }
                }
            }
            None
        }
    } else {
        // exactly one empty piece, at e1
        if 0 < e1 && e1 < n - 1 {
            // inner "::"
            proof {
                assert(p.subrange(0, e1 as int) =~= p.take(e1 as int));
                assert(p.subrange(e1 as int + 1, n as int) =~= p.skip(e1 as int + 1));
                assert(!no_empty_piece(p, 0, n as int)) by {
                    assert(p[e1 as int].len() == 0);
                }
                assert(p[0].len() > 0);
                assert(p[n as int - 1].len() > 0);
                assert(is_gap_at(p, e1 as int));
                let ce = choose|e: int| is_gap_at(p, e);
                assert(p[ce].len() == 0);
                if ce < e1 as int {
                    assert(p[ce].len() > 0);
                } else if ce > e1 as int {
                    assert(p[ce].len() > 0);
                }
                assert(ce == e1 as int);
            }
            let h_opt = parse_groups(&parts, 0, e1, false);
            let t_opt = parse_groups(&parts, e1 + 1, n, true);
            match (h_opt, t_opt) {
                (Some(h), Some(t)) => {
                    if h.len() + t.len() <= 7 {
                        let g = pad_groups(h, t);
                        let v = value_of_groups(&g);
                        Some(v)
                    } else {
                        None
                    }
                },
                _ => None,
            }
        } else {
            // one empty piece at the boundary: a single stray colon
            proof {
                assert(!no_empty_piece(p, 0, n as int)) by {
                    assert(p[e1 as int].len() == 0);
                }
                if n == 3 && p[0].len() == 0 && p[1].len() == 0 && p[2].len() == 0 {
                    if e1 as int != 0 {
                        assert(p[0].len() > 0);
                    } else {
                        assert(p[1].len() > 0);
                    }
                    assert(false);
                }
                if n >= 2 && p[0].len() == 0 && p[1].len() == 0 {
                    if e1 as int != 0 {
                        assert(p[0].len() > 0);
                    } else {
                        assert(p[1].len() > 0);
                    }
                    assert(false);
                }
                if n >= 2 && p[n as int - 1].len() == 0 && p[n as int - 2].len() == 0 {
                    if e1 as int != n as int - 1 {
                        assert(p[n as int - 1].len() > 0);
                    } else {
                        assert(p[n as int - 2].len() > 0);
                    }
                    assert(false);
                }
                assert(!(exists|e: int| is_gap_at(p, e))) by {
                    assert forall|e: int| !is_gap_at(p, e) by {
                        if is_gap_at(p, e) {
                            if e < e1 as int {
                                assert(p[e].len() > 0);
                            } else if e > e1 as int {
                                assert(p[e].len() > 0);
                            }
                        }
                    }
                }
            }
            None
        }
    }
}

// ---------------------------------------------------------------------------
// Address literals
// ---------------------------------------------------------------------------

/// An address literal and its value: the IPv4 form, else the IPv6 form.
pub open spec fn spec_parse_ip(s: Seq<char>) -> Option<IpAddress> {
    if spec_parse_ipv4(s) is Some {
        Some(IpAddress::V4(spec_parse_ipv4(s).unwrap() as u32))
    } else if spec_parse_ipv6(s) is Some {
        Some(IpAddress::V6(spec_parse_ipv6(s).unwrap() as u128))
    } else {
        None
    }
}

/// Parses an address literal, exact against `spec_parse_ip`.
pub fn parse_ip(s: &str) -> (r: Option<IpAddress>)
    ensures
        r == spec_parse_ip(s@),
{
    let cs = chars_of(s);
    match parse_ipv4(&cs) {
        Some(v) => Some(IpAddress::V4(v)),
        None => {
            match parse_ipv6(&cs) {
                Some(v) => Some(IpAddress::V6(v)),
                None => None,
            }
        },
    }
}

} // verus!
