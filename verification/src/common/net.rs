use crate::parse::digit_value;
use crate::text::{chars_of, is_ascii_digit, split, split_chars, views};
use vstd::prelude::*;

verus! {

/// An IP address: the 32 bits of a version 4 address or the 128 bits of a
/// version 6 address.
#[derive(Clone, Copy, Debug, PartialEq, Eq, Structural)]
pub enum IpAddress {
    V4(u32),
    V6(u128),
}

/// The value of a decimal octet of a dotted-quad address: one to three
/// digits, no leading zero unless the octet is `0`, at most 255.
pub open spec fn octet_value(p: Seq<char>) -> Option<int> {
    if p.len() == 0 || p.len() > 3 || !(forall|i: int| 0 <= i < p.len() ==> is_ascii_digit(#[trigger] p[i])) {
        None
    } else if p.len() > 1 && p[0] == '0' {
        None
    } else {
        let v = if p.len() == 1 {
            digit_value(p[0])
        } else if p.len() == 2 {
            digit_value(p[0]) * 10 + digit_value(p[1])
        } else {
            digit_value(p[0]) * 100 + digit_value(p[1]) * 10 + digit_value(p[2])
        };
        if v <= 255 {
            Some(v)
        } else {
            None
        }
    }
}

/// The address that a dotted-quad text denotes, as `Ipv4Addr::from_str` reads it.
#[verifier::opaque]
pub open spec fn ipv4_from_text(s: Seq<char>) -> Option<u32> {
    let parts = split(s, '.');
    if parts.len() == 4 && octet_value(parts[0]) is Some && octet_value(parts[1]) is Some
        && octet_value(parts[2]) is Some && octet_value(parts[3]) is Some {
        Some(
            (octet_value(parts[0])->0 * 16777216 + octet_value(parts[1])->0 * 65536 + octet_value(
                parts[2],
            )->0 * 256 + octet_value(parts[3])->0) as u32,
        )
    } else {
        None
    }
}

/// The address that a text denotes, as `IpAddr::from_str` reads it: a
/// dotted-quad version 4 address, else a version 6 address.
pub open spec fn ip_from_text(s: Seq<char>) -> Option<IpAddress> {
    match ipv4_from_text(s) {
        Some(v) => Some(IpAddress::V4(v)),
        None => match ipv6_from_text(s) {
            Some(v) => Some(IpAddress::V6(v)),
            None => None,
        },
    }
}

pub open spec fn is_hex(c: char) -> bool {
    ('0' <= c && c <= '9') || ('a' <= c && c <= 'f') || ('A' <= c && c <= 'F')
}

pub open spec fn hex_value(c: char) -> int {
    if '0' <= c && c <= '9' {
        (c as int) - ('0' as int)
    } else if 'a' <= c && c <= 'f' {
        (c as int) - ('a' as int) + 10
    } else {
        (c as int) - ('A' as int) + 10
    }
}

/// The value of hexadecimal digits.
pub open spec fn hex_digits_value(p: Seq<char>) -> int
    decreases p.len(),
{
    if p.len() == 0 {
        0
    } else {
        hex_digits_value(p.drop_last()) * 16 + hex_value(p.last())
    }
}

/// The value of a group of a version 6 address: one to four hexadecimal digits.
pub open spec fn group_value(p: Seq<char>) -> Option<int> {
    if 1 <= p.len() <= 4 && forall|i: int| 0 <= i < p.len() ==> is_hex(#[trigger] p[i]) {
        Some(hex_digits_value(p))
    } else {
        None
    }
}

/// The 16-bit groups that colon-separated pieces denote; the last piece may
/// be a dotted-quad address, which stands for two groups when `v4_last`.
pub open spec fn pieces_groups(pieces: Seq<Seq<char>>, v4_last: bool) -> Option<Seq<int>>
    decreases pieces.len(),
{
    if pieces.len() == 0 {
        Some(seq![])
    } else {
        let last = pieces.last();
        let rest = pieces_groups(pieces.drop_last(), false);
        match rest {
            None => None,
            Some(g) => if v4_last && ipv4_from_text(last) is Some {
                let v = ipv4_from_text(last)->0;
                Some(g + seq![(v / 65536) as int, (v % 65536) as int])
            } else {
                match group_value(last) {
                    Some(x) => Some(g.push(x)),
                    None => None,
                }
            },
        }
    }
}

/// The groups of a side of `::`: none for an empty text.
#[verifier::opaque]
pub open spec fn side_groups(s: Seq<char>, v4_last: bool) -> Option<Seq<int>> {
    if s.len() == 0 {
        Some(seq![])
    } else {
        pieces_groups(split(s, ':'), v4_last)
    }
}

pub open spec fn colon_pair_at(s: Seq<char>, i: int) -> bool {
    0 <= i < s.len() - 1 && s[i] == ':' && s[i + 1] == ':'
}

/// The position of the first `::` in a text.
#[verifier::opaque]
pub open spec fn double_colon(s: Seq<char>) -> Option<int> {
    if exists|i: int| #[trigger] colon_pair_at(s, i) {
        Some(choose|i: int| #[trigger] colon_pair_at(s, i) && forall|j: int| 0 <= j < i ==> !colon_pair_at(s, j))
    } else {
        None
    }
}

/// The value of eight 16-bit groups, the first most significant.
pub open spec fn groups_value(g: Seq<int>) -> int
    decreases g.len(),
{
    if g.len() == 0 {
        0
    } else {
        groups_value(g.drop_last()) * 65536 + g.last()
    }
}

/// The version 6 address that a text denotes: eight groups, or groups around
/// one `::` that stands for at least one zero group; a dotted-quad address
/// may stand for the last two groups.
#[verifier::opaque]
pub open spec fn ipv6_from_text(s: Seq<char>) -> Option<u128> {
    match double_colon(s) {
        None => match side_groups(s, true) {
            Some(g) => if g.len() == 8 {
                Some(groups_value(g) as u128)
            } else {
                None
            },
            None => None,
        },
        Some(p) => compressed_value(side_groups(s.take(p), false), side_groups(s.skip(p + 2), true)),
    }
}

/// The value of the groups on both sides of `::`, which stands for the zero
/// groups between them.
pub open spec fn compressed_value(head: Option<Seq<int>>, tail: Option<Seq<int>>) -> Option<u128> {
    match (head, tail) {
        (Some(h), Some(t)) => if h.len() + t.len() <= 7 {
            Some(groups_value(h + Seq::new((8 - h.len() - t.len()) as nat, |i: int| 0int) + t) as u128)
        } else {
            None
        },
        _ => None,
    }
}

fn octet(p: &Vec<char>) -> (r: Option<u32>)
    ensures
        match octet_value(p@) {
            Some(v) => r == Some(v as u32),
            None => r is None,
        },
{
    if p.len() == 0 || p.len() > 3 {
        return None;
    }
    let mut i: usize = 0;
    while i < p.len()
        invariant
            i <= p.len(),
            forall|j: int| 0 <= j < i ==> is_ascii_digit(#[trigger] p@[j]),
        decreases p.len() - i,
    {
        if !crate::text::ascii_digit(p[i]) {
            return None;
        }
        i = i + 1;
    }
    if p.len() > 1 && p[0] == '0' {
        return None;
    }
    let d0 = (p[0] as u32 - '0' as u32);
    let v = if p.len() == 1 {
        d0
    } else if p.len() == 2 {
        d0 * 10 + (p[1] as u32 - '0' as u32)
    } else {
        d0 * 100 + (p[1] as u32 - '0' as u32) * 10 + (p[2] as u32 - '0' as u32)
    };
    if v <= 255 {
        Some(v)
    } else {
        None
    }
}

/// Reads a dotted-quad address.
pub fn parse_ipv4(cs: &Vec<char>) -> (r: Option<u32>)
    ensures
        r == ipv4_from_text(cs@),
{
    reveal(ipv4_from_text);
    let parts = split_chars(cs, '.');
    if parts.len() != 4 {
        assert(views(parts@).len() == parts.len());
        return None;
    }
    assert(views(parts@)[0] == parts@[0]@ && views(parts@)[1] == parts@[1]@);
    assert(views(parts@)[2] == parts@[2]@ && views(parts@)[3] == parts@[3]@);
    let a = octet(&parts[0]);
    let b = octet(&parts[1]);
    let c = octet(&parts[2]);
    let d = octet(&parts[3]);
    match (a, b, c, d) {
        (Some(a), Some(b), Some(c), Some(d)) => Some(a * 16777216 + b * 65536 + c * 256 + d),
        _ => None,
    }
}

pub open spec fn ints(v: Seq<u32>) -> Seq<int> {
    v.map_values(|x: u32| x as int)
}

proof fn lemma_ints_push(v: Seq<u32>, x: u32)
    ensures
        ints(v.push(x)) == ints(v).push(x as int),
{
    assert(ints(v.push(x)) =~= ints(v).push(x as int));
}

proof fn lemma_hex_digits_bound(p: Seq<char>)
    requires
        forall|i: int| 0 <= i < p.len() ==> is_hex(#[trigger] p[i]),
    ensures
        0 <= hex_digits_value(p) < cap16(p.len()),
    decreases p.len(),
{
    if p.len() > 0 {
        lemma_hex_digits_bound(p.drop_last());
        let v = hex_digits_value(p.drop_last());
        let c = cap16((p.len() - 1) as nat);
        assert(is_hex(p[p.len() - 1]));
        let h = hex_value(p.last());
        assert(0 <= h < 16);
        assert(v * 16 + h < c * 16) by (nonlinear_arith)
            requires
                0 <= v < c,
                0 <= h < 16,
        ;
    }
}

/// Sixteen to the power `n`.
pub open spec fn cap16(n: nat) -> int
    decreases n,
{
    if n == 0 {
        1
    } else {
        16 * cap16((n - 1) as nat)
    }
}

/// 65536 to the power `n`.
pub open spec fn cap(n: nat) -> int
    decreases n,
{
    if n == 0 {
        1
    } else {
        65536 * cap((n - 1) as nat)
    }
}

proof fn lemma_cap_mono(a: nat, b: nat)
    requires
        a <= b,
    ensures
        1 <= cap(a) <= cap(b),
    decreases b - a,
{
    if a < b {
        lemma_cap_mono(a, (b - 1) as nat);
    } else {
        lemma_cap_pos(a);
    }
}

proof fn lemma_cap_pos(a: nat)
    ensures
        1 <= cap(a),
    decreases a,
{
    if a > 0 {
        lemma_cap_pos((a - 1) as nat);
    }
}

/// The value of a group of one to four hexadecimal digits.
fn group(p: &Vec<char>) -> (r: Option<u32>)
    ensures
        match group_value(p@) {
            Some(v) => r == Some(v as u32) && 0 <= v < 65536,
            None => r is None,
        },
{
    if p.len() == 0 || p.len() > 4 {
        return None;
    }
    let mut v: u32 = 0;
    let mut i: usize = 0;
    while i < p.len()
        invariant
            i <= p.len() <= 4,
            forall|j: int| 0 <= j < i ==> is_hex(#[trigger] p@[j]),
            v == hex_digits_value(p@.take(i as int)),
            v < cap16(i as nat),
        decreases p.len() - i,
    {
        let c = p[i];
        let d: u32 = if '0' <= c && c <= '9' {
            c as u32 - '0' as u32
        } else if 'a' <= c && c <= 'f' {
            c as u32 - 'a' as u32 + 10
        } else if 'A' <= c && c <= 'F' {
            c as u32 - 'A' as u32 + 10
        } else {
            return None;
        };
        assert(p@.take(i + 1).drop_last() =~= p@.take(i as int));
        reveal_with_fuel(cap16, 5);
        assert(v * 16 + d < cap16((i + 1) as nat)) by (nonlinear_arith)
            requires
                v < cap16(i as nat),
                d < 16,
                cap16((i + 1) as nat) == 16 * cap16(i as nat),
        ;
        v = v * 16 + d;
        i = i + 1;
    }
    assert(p@.take(p.len() as int) =~= p@);
    reveal_with_fuel(cap16, 5);
    Some(v)
}

proof fn lemma_pieces_step(pieces: Seq<Seq<char>>, i: int, v4: bool)
    requires
        0 <= i < pieces.len(),
    ensures
        pieces_groups(pieces.take(i + 1), v4) == (match pieces_groups(pieces.take(i), false) {
            None => None,
            Some(g) => if v4 && ipv4_from_text(pieces[i]) is Some {
                let v = ipv4_from_text(pieces[i])->0;
                Some(g + seq![(v / 65536) as int, (v % 65536) as int])
            } else {
                match group_value(pieces[i]) {
                    Some(x) => Some(g.push(x)),
                    None => None,
                }
            },
        }),
{
    assert(pieces.take(i + 1).drop_last() =~= pieces.take(i));
    assert(pieces.take(i + 1).last() == pieces[i]);
}

/// The groups of one side of `::`.
fn side(cs: &Vec<char>, v4_last: bool) -> (r: Option<Vec<u32>>)
    ensures
        match side_groups(cs@, v4_last) {
            Some(g) => r is Some && ints(r->0@) == g && forall|j: int| 0 <= j < r->0@.len() ==> #[trigger] r->0@[j] < 65536,
            None => r is None,
        },
{
    reveal(side_groups);
    if cs.len() == 0 {
        let g: Vec<u32> = Vec::new();
        assert(ints(g@) =~= Seq::<int>::empty());
        return Some(g);
    }
    let pieces = split_chars(cs, ':');
    let ghost ps = views(pieces@);
    let n = pieces.len();
    assert(ps.len() == n);
    let mut g: Vec<u32> = Vec::new();
    let mut i: usize = 0;
    assert(ps.take(0) =~= Seq::<Seq<char>>::empty());
    assert(ints(g@) =~= Seq::<int>::empty());
    while i < n
        invariant
            i <= n,
            cs@.len() > 0,
            n == pieces.len(),
            ps == views(pieces@),
            ps == split(cs@, ':'),
            pieces_groups(ps.take(i as int), v4_last && i == n) == Some(ints(g@)),
            forall|j: int| 0 <= j < g@.len() ==> #[trigger] g@[j] < 65536,
        decreases n - i,
    {
        assert(ps[i as int] == pieces@[i as int]@);
        let last = v4_last && i + 1 == n;
        proof {
            reveal(side_groups);
            lemma_pieces_step(ps, i as int, last);
        }
        if last {
            if let Some(v) = parse_ipv4(&pieces[i]) {
                let ghost old_g = g@;
                g.push(v / 65536);
                proof {
                    lemma_ints_push(old_g, v / 65536);
                }
                let ghost mid_g = g@;
                g.push(v % 65536);
                proof {
                    lemma_ints_push(mid_g, v % 65536);
                }
                assert(ints(g@) =~= ints(old_g) + seq![(v / 65536) as int, (v % 65536) as int]);
                assert(ps.take(n as int) =~= ps);
                return Some(g);
            }
        }
        match group(&pieces[i]) {
            Some(x) => {
                let ghost old_g = g@;
                assert(group_value(ps[i as int]) == Some(x as int));
                g.push(x);
                proof {
                    lemma_ints_push(old_g, x);
                }
            },
            None => {
                assert(pieces_groups(ps.take(i + 1), false) is None);
                proof {
                    if last {
                        assert(ps.take(n as int) =~= ps);
                    } else {
                        lemma_pieces_none_grows(ps, i + 1, v4_last);
                    }
                }
                return None;
            },
        }
        i = i + 1;
    }
    assert(ps.take(n as int) =~= ps);
    Some(g)
}

proof fn lemma_pieces_none_grows(ps: Seq<Seq<char>>, k: int, v4: bool)
    requires
        0 < k <= ps.len(),
        pieces_groups(ps.take(k), false) is None,
        k == ps.len() ==> pieces_groups(ps.take(k), v4) is None,
    ensures
        pieces_groups(ps, v4) is None,
    decreases ps.len() - k,
{
    if k == ps.len() {
        assert(ps.take(k) =~= ps);
    } else {
        assert(ps.take(k + 1).drop_last() =~= ps.take(k));
        if k + 1 == ps.len() {
            assert(ps.take(k + 1) =~= ps);
        }
        lemma_pieces_none_grows(ps, k + 1, v4);
    }
}

/// The position of the first `::`.
fn find_double_colon(cs: &Vec<char>) -> (r: Option<usize>)
    ensures
        match double_colon(cs@) {
            Some(p) => r is Some && r->0 == p && p + 2 <= cs.len(),
            None => r is None,
        },
{
    reveal(double_colon);
    if cs.len() < 2 {
        assert forall|k: int| !#[trigger] colon_pair_at(cs@, k) by {}
        return None;
    }
    let mut i: usize = 0;
    while i < cs.len() - 1
        invariant
            cs.len() >= 2,
            i <= cs.len() - 1,
            forall|j: int| 0 <= j < i ==> !colon_pair_at(cs@, j),
        decreases cs.len() - i,
    {
        if cs[i] == ':' && cs[i + 1] == ':' {
            reveal(double_colon);
            assert(colon_pair_at(cs@, i as int));
            let ghost k = choose|k: int| #[trigger] colon_pair_at(cs@, k) && forall|j: int| 0 <= j < k ==> !colon_pair_at(cs@, j);
            assert(k == i) by {
                if k < i {
                    assert(!colon_pair_at(cs@, k));
                } else if k > i {
                    assert(!colon_pair_at(cs@, i as int));
                }
            }
            return Some(i);
        }
        i = i + 1;
    }
    assert forall|k: int| !#[trigger] colon_pair_at(cs@, k) by {
        if colon_pair_at(cs@, k) && k >= i {
            assert(false);
        }
    }
    None
}

/// The value of groups, each below 65536, the first most significant.
fn value_of_groups(g: &Vec<u32>) -> (r: u128)
    requires
        g.len() == 8,
        forall|j: int| 0 <= j < 8 ==> #[trigger] g@[j] < 65536,
    ensures
        r as int == groups_value(ints(g@)),
{
    let mut acc: u128 = 0;
    let mut i: usize = 0;
    assert(ints(g@).take(0) =~= Seq::<int>::empty());
    reveal_with_fuel(cap, 9);
    assert(cap(8) == 0x1_0000_0000_0000_0000_0000_0000_0000_0000);
    while i < 8
        invariant
            i <= 8,
            g.len() == 8,
            forall|j: int| 0 <= j < 8 ==> #[trigger] g@[j] < 65536,
            acc as int == groups_value(ints(g@).take(i as int)),
            acc < cap(i as nat),
            cap(8) == 0x1_0000_0000_0000_0000_0000_0000_0000_0000,
        decreases 8 - i,
    {
        let x = g[i] as u128;
        proof {
            lemma_cap_mono((i + 1) as nat, 8);
        }
        assert(acc * 65536 + x < cap((i + 1) as nat)) by (nonlinear_arith)
            requires
                acc < cap(i as nat),
                x < 65536,
                cap((i + 1) as nat) == 65536 * cap(i as nat),
        ;
        assert(ints(g@).take(i + 1).drop_last() =~= ints(g@).take(i as int));
        acc = acc * 65536 + x;
        i = i + 1;
    }
    assert(ints(g@).take(8) =~= ints(g@));
    acc
}

/// The value of the groups on both sides of `::`, with zero groups between.
fn join_sides(h: Vec<u32>, t: &Vec<u32>) -> (r: u128)
    requires
        h.len() + t.len() <= 7,
        forall|j: int| 0 <= j < h@.len() ==> #[trigger] h@[j] < 65536,
        forall|j: int| 0 <= j < t@.len() ==> #[trigger] t@[j] < 65536,
    ensures
        r as int == groups_value(ints(h@) + Seq::new((8 - h.len() - t.len()) as nat, |i: int| 0int) + ints(t@)),
{
    let mut g = h;
    let zeros = 8 - g.len() - t.len();
    let ghost hg = ints(g@);
    let mut k: usize = 0;
    assert(hg + Seq::new(0, |i: int| 0int) =~= hg);
    while k < zeros
        invariant
            k <= zeros,
            ints(g@) == hg + Seq::new(k as nat, |i: int| 0int),
            forall|j: int| 0 <= j < g@.len() ==> #[trigger] g@[j] < 65536,
            g@.len() == hg.len() + k,
        decreases zeros - k,
    {
        let ghost old_g = g@;
        g.push(0);
        proof {
            lemma_ints_push(old_g, 0);
        }
        k = k + 1;
        assert(ints(g@) =~= hg + Seq::new(k as nat, |i: int| 0int));
    }
    let ghost mid = ints(g@);
    let mut j: usize = 0;
    assert(mid + ints(t@).take(0) =~= mid);
    while j < t.len()
        invariant
            j <= t.len(),
            ints(g@) == mid + ints(t@).take(j as int),
            g@.len() == mid.len() + j,
            forall|i: int| 0 <= i < g@.len() ==> #[trigger] g@[i] < 65536,
            forall|i: int| 0 <= i < t@.len() ==> #[trigger] t@[i] < 65536,
        decreases t.len() - j,
    {
        let ghost old_g = g@;
        g.push(t[j]);
        proof {
            lemma_ints_push(old_g, t@[j as int]);
        }
        j = j + 1;
        assert(ints(g@) =~= mid + ints(t@).take(j as int));
    }
    assert(ints(t@).take(t.len() as int) =~= ints(t@));
    value_of_groups(&g)
}

/// Reads a version 6 address that holds a `::` at `p`.
fn parse_ipv6_compressed(cs: &Vec<char>, p: usize) -> (r: Option<u128>)
    requires
        double_colon(cs@) == Some(p as int),
        p + 2 <= cs.len(),
    ensures
        r == ipv6_from_text(cs@),
{
    reveal(ipv6_from_text);
    let head = crate::text::slice_chars(cs, 0, p);
    let tail = crate::text::slice_chars(cs, p + 2, cs.len());
    assert(cs@.subrange(0, p as int) =~= cs@.take(p as int));
    assert(cs@.subrange(p + 2, cs@.len() as int) =~= cs@.skip(p + 2));
    let hs = side(&head, false);
    let ts = side(&tail, true);
    let ghost hg = side_groups(cs@.take(p as int), false);
    let ghost tg = side_groups(cs@.skip(p + 2), true);
    assert(ipv6_from_text(cs@) == compressed_value(hg, tg));
    match hs {
        None => {
            return None;
        },
        Some(h) => match ts {
            None => {
                return None;
            },
            Some(t) => {
                if h.len() <= 7 && t.len() <= 7 - h.len() {
                    let v = join_sides(h, &t);
                    return Some(v);
                } else {
                    return None;
                }
            },
        },
    }
}

/// Reads a version 6 address.
pub fn parse_ipv6(cs: &Vec<char>) -> (r: Option<u128>)
    ensures
        r == ipv6_from_text(cs@),
{
    reveal(ipv6_from_text);
    match find_double_colon(cs) {
        None => match side(cs, true) {
            Some(g) => {
                if g.len() == 8 {
                    Some(value_of_groups(&g))
                } else {
                    None
                }
            },
            None => None,
        },
        Some(p) => parse_ipv6_compressed(cs, p),
    }
}

/// Reads an IP address as `IpAddr::from_str` does.
pub fn parse_ip_address(s: &str) -> (r: Option<IpAddress>)
    ensures
        r == ip_from_text(s@),
{
    let cs = chars_of(s);
    match parse_ipv4(&cs) {
        Some(v) => Some(IpAddress::V4(v)),
        None => match parse_ipv6(&cs) {
            Some(v) => Some(IpAddress::V6(v)),
            None => None,
        },
    }
}

/// The decimal digits of a natural number, without leading zeros.
pub open spec fn decimal(v: nat) -> Seq<char>
    decreases v,
{
    if v < 10 {
        seq![(v + '0' as nat) as char]
    } else {
        decimal(v / 10).push(((v % 10) + '0' as nat) as char)
    }
}

/// The decimal digits of a number.
pub fn decimal_string(v: u32) -> (r: String)
    ensures
        r@ == decimal(v as nat),
    decreases v,
{
    let d = ((v % 10) as u8 + '0' as u8) as char;
    assert(d == ((v % 10) + '0' as nat) as char);
    if v < 10 {
        let mut s = String::new();
        s.push(d);
        assert(s@ =~= decimal(v as nat));
        s
    } else {
        let mut s = decimal_string(v / 10);
        s.push(d);
        s
    }
}

/// The four octets of a version 4 address, most significant first.
pub open spec fn octets(v: u32) -> (int, int, int, int) {
    ((v / 16777216) as int, ((v / 65536) % 256) as int, ((v / 256) % 256) as int, (v % 256) as int)
}

/// The dotted-quad text of a version 4 address.
pub open spec fn ipv4_text(v: u32) -> Seq<char> {
    let (a, b, c, d) = octets(v);
    decimal(a as nat) + "."@ + decimal(b as nat) + "."@ + decimal(c as nat) + "."@ + decimal(d as nat)
}

/// The text of an address, as `IpAddr`'s `Display` writes a version 4 address.
pub open spec fn ip_to_text(a: IpAddress) -> Seq<char> {
    match a {
        IpAddress::V4(v) => ipv4_text(v),
        IpAddress::V6(v) => ipv6_text(v),
    }
}

/// The lowercase hexadecimal digits of a natural number, without leading zeros.
pub open spec fn hex_text(v: nat) -> Seq<char>
    decreases v,
{
    if v < 16 {
        seq![hex_char(v)]
    } else {
        hex_text(v / 16).push(hex_char(v % 16))
    }
}

pub open spec fn hex_char(d: nat) -> char {
    if d < 10 {
        (d + '0' as nat) as char
    } else {
        (d - 10 + 'a' as nat) as char
    }
}

/// The `i`-th 16-bit group of a version 6 address, the first most significant.
pub open spec fn segment(v: u128, i: int) -> u128 {
    (v >> ((7 - i) * 16) as u128) & 0xffff
}

/// The groups joined by `:`, each in lowercase hexadecimal.
pub open spec fn join_hex(g: Seq<u128>) -> Seq<char>
    decreases g.len(),
{
    if g.len() == 0 {
        seq![]
    } else if g.len() == 1 {
        hex_text(g[0] as nat)
    } else {
        join_hex(g.drop_last()) + ":"@ + hex_text(g.last() as nat)
    }
}

/// The first longest run of zero groups from position `i` on, given the run
/// in progress (`cs`, `cl`) and the longest so far (`bs`, `bl`), scanning as
/// `Ipv6Addr`'s `Display` does.
pub open spec fn zero_run(g: Seq<u128>, i: int, cs: int, cl: int, bs: int, bl: int) -> (int, int)
    decreases g.len() - i,
{
    if i >= g.len() || i < 0 {
        (bs, bl)
    } else if g[i] == 0 {
        let ncs = if cl == 0 { i } else { cs };
        let ncl = cl + 1;
        if ncl > bl {
            zero_run(g, i + 1, ncs, ncl, ncs, ncl)
        } else {
            zero_run(g, i + 1, ncs, ncl, bs, bl)
        }
    } else {
        zero_run(g, i + 1, 0, 0, bs, bl)
    }
}

pub open spec fn segments(v: u128) -> Seq<u128> {
    seq![segment(v, 0), segment(v, 1), segment(v, 2), segment(v, 3), segment(v, 4), segment(v, 5), segment(v, 6), segment(v, 7)]
}

/// The text of a version 6 address, as `Ipv6Addr`'s `Display` writes it: an
/// IPv4-mapped address as `::ffff:` and a dotted quad, else the groups in
/// lowercase hexadecimal with the first longest run of two or more zero
/// groups written as `::`.
pub open spec fn ipv6_text(v: u128) -> Seq<char> {
    let g = segments(v);
    if (v >> 32u128) == 0xffffu128 {
        "::ffff:"@ + ipv4_text((v & 0xffff_ffffu128) as u32)
    } else {
        let (st, len) = zero_run(g, 0, 0, 0, 0, 0);
        if len > 1 {
            join_hex(g.take(st)) + "::"@ + join_hex(g.skip(st + len))
        } else {
            join_hex(g)
        }
    }
}

/// The text of an IP address.
pub fn ip_address_text(a: &IpAddress) -> (r: String)
    ensures
        r@ == ip_to_text(*a),
{
    match a {
        IpAddress::V4(v) => ipv4_address_text(*v),
        IpAddress::V6(v) => ipv6_address_text(*v),
    }
}

/// The dotted-quad text of a version 4 address.
pub fn ipv4_address_text(v: u32) -> (r: String)
    ensures
        r@ == ipv4_text(v),
{
    {
        {
            let mut s = decimal_string(v / 16777216);
            crate::text::push_str(&mut s, ".");
            let t = decimal_string((v / 65536) % 256);
            crate::text::push_str(&mut s, t.as_str());
            crate::text::push_str(&mut s, ".");
            let t = decimal_string((v / 256) % 256);
            crate::text::push_str(&mut s, t.as_str());
            crate::text::push_str(&mut s, ".");
            let t = decimal_string(v % 256);
            crate::text::push_str(&mut s, t.as_str());
            s
        }
    }
}

/// The lowercase hexadecimal digits of a number.
pub fn hex_string(v: u32) -> (r: String)
    ensures
        r@ == hex_text(v as nat),
    decreases v,
{
    let d = v % 16;
    let c = if d < 10 {
        ((d as u8) + ('0' as u8)) as char
    } else {
        ((d as u8) - 10 + ('a' as u8)) as char
    };
    assert(c == hex_char(d as nat));
    if v < 16 {
        let mut s = String::new();
        s.push(c);
        assert(s@ =~= hex_text(v as nat));
        s
    } else {
        let mut s = hex_string(v / 16);
        s.push(c);
        s
    }
}

fn join_hex_string(g: &Vec<u128>, start: usize, end: usize) -> (r: String)
    requires
        start <= end <= g.len(),
        forall|i: int| 0 <= i < g.len() ==> g@[i] <= 0xffff,
    ensures
        r@ == join_hex(g@.subrange(start as int, end as int)),
{
    let mut s = String::new();
    let mut i = start;
    assert(g@.subrange(start as int, start as int) =~= Seq::<u128>::empty());
    while i < end
        invariant
            start <= i <= end <= g.len(),
            forall|i: int| 0 <= i < g.len() ==> g@[i] <= 0xffff,
            s@ == join_hex(g@.subrange(start as int, i as int)),
        decreases end - i,
    {
        let h = hex_string(g[i] as u32);
        if i > start {
            crate::text::push_str(&mut s, ":");
        }
        crate::text::push_str(&mut s, h.as_str());
        let ghost sub = g@.subrange(start as int, i + 1);
        assert(sub.drop_last() =~= g@.subrange(start as int, i as int));
        if i == start {
            assert(sub.len() == 1);
            assert(s@ =~= join_hex(sub));
        } else {
            assert(s@ =~= join_hex(sub));
        }
        i = i + 1;
    }
    s
}

/// The text of a version 6 address.
pub fn ipv6_address_text(v: u128) -> (r: String)
    ensures
        r@ == ipv6_text(v),
{
    if (v >> 32u128) == 0xffffu128 {
        let low = (v & 0xffff_ffffu128) as u32;
        let mut s = "::ffff:".to_owned();
        let t = ipv4_address_text(low);
        crate::text::push_str(&mut s, t.as_str());
        return s;
    }
    let mut g: Vec<u128> = Vec::new();
    let mut i: usize = 0;
    while i < 8
        invariant
            i <= 8,
            g@.len() == i,
            forall|j: int| 0 <= j < i ==> g@[j] == segment(v, j),
        decreases 8 - i,
    {
        let sh = ((7 - i) * 16) as u128;
        g.push((v >> sh) & 0xffff);
        i = i + 1;
    }
    assert(g@ =~= segments(v));
    assert forall|j: int| 0 <= j < g.len() implies g@[j] <= 0xffff by {
        let x = g@[j];
        assert(x == segment(v, j));
        let sh = ((7 - j) * 16) as u128;
        assert((v >> sh) & 0xffff <= 0xffff) by (bit_vector);
    }
    let mut cs: usize = 0;
    let mut cl: usize = 0;
    let mut bs: usize = 0;
    let mut bl: usize = 0;
    let mut k: usize = 0;
    while k < 8
        invariant
            k <= 8,
            g@ == segments(v),
            cs + cl <= k,
            bs + bl <= k,
            zero_run(g@, 0, 0, 0, 0, 0) == zero_run(g@, k as int, cs as int, cl as int, bs as int, bl as int),
        decreases 8 - k,
    {
        if g[k] == 0 {
            if cl == 0 {
                cs = k;
            }
            cl = cl + 1;
            if cl > bl {
                bs = cs;
                bl = cl;
            }
        } else {
            cs = 0;
            cl = 0;
        }
        k = k + 1;
    }
    if bl > 1 {
        let mut s = join_hex_string(&g, 0, bs);
        crate::text::push_str(&mut s, "::");
        let t = join_hex_string(&g, bs + bl, 8);
        crate::text::push_str(&mut s, t.as_str());
        assert(g@.subrange(0, bs as int) =~= g@.take(bs as int));
        assert(g@.subrange((bs + bl) as int, 8) =~= g@.skip((bs + bl) as int));
        s
    } else {
        let s = join_hex_string(&g, 0, 8);
        assert(g@.subrange(0, 8) =~= g@);
        s
    }
}

} // verus!
