//! Dotted-quad IPv4 addresses: the textual form, its parser and its
//! renderer, and the proof that rendering then parsing restores the
//! address.

use vstd::prelude::*;
use crate::text::is_space;

verus! {

/// An IPv4 address as four octets.
#[derive(Clone, Copy, PartialEq, Eq, Structural, Debug)]
pub struct Ipv4Address {
    pub o1: u8,
    pub o2: u8,
    pub o3: u8,
    pub o4: u8,
}

pub open spec fn is_digit(c: char) -> bool {
    48 <= c as u32 && c as u32 <= 57
}

pub open spec fn digit_val(c: char) -> int {
    c as u32 - 48
}

/// The decimal digit character for a value below ten.
pub open spec fn digit_char(d: int) -> char {
    if d == 0 {
        '0'
    } else if d == 1 {
        '1'
    } else if d == 2 {
        '2'
    } else if d == 3 {
        '3'
    } else if d == 4 {
        '4'
    } else if d == 5 {
        '5'
    } else if d == 6 {
        '6'
    } else if d == 7 {
        '7'
    } else if d == 8 {
        '8'
    } else {
        '9'
    }
}

pub proof fn lemma_digit_char_props(d: int)
    requires
        0 <= d <= 9,
    ensures
        is_digit(digit_char(d)),
        digit_val(digit_char(d)) == d,
        digit_char(d) != '.',
        !is_space(digit_char(d)),
        digit_char(d) != '\n',
        d > 0 ==> digit_char(d) != '0',
{
}

/// The numeric value of a digit string, most significant digit first.
pub open spec fn octet_val(s: Seq<char>) -> int
    decreases s.len(),
{
    if s.len() == 0 {
        0
    } else {
        octet_val(s.drop_last()) * 10 + digit_val(s.last())
    }
}

/// Whether the text is a valid decimal octet: one to three digits, no
/// leading zero, value at most 255.
pub open spec fn is_octet_text(s: Seq<char>) -> bool {
    &&& 1 <= s.len() <= 3
    &&& forall|i: int| 0 <= i < s.len() ==> is_digit(s[i])
    &&& s.len() > 1 ==> s[0] != '0'
    &&& octet_val(s) <= 255
}

/// The position of the first dot, or the length if there is none.
pub open spec fn first_dot(s: Seq<char>) -> int
    decreases s.len(),
{
    if s.len() == 0 {
        0
    } else if s[0] == '.' {
        0
    } else {
        1 + first_dot(s.drop_first())
    }
}

pub proof fn lemma_first_dot_bounds(s: Seq<char>)
    ensures
        0 <= first_dot(s) <= s.len(),
    decreases s.len(),
{
    if s.len() == 0 || s[0] == '.' {
    } else {
        lemma_first_dot_bounds(s.drop_first());
    }
}

pub proof fn lemma_first_dot_at(s: Seq<char>, k: int)
    requires
        0 <= k <= s.len(),
        forall|i: int| 0 <= i < k ==> s[i] != '.',
        k == s.len() || s[k] == '.',
    ensures
        first_dot(s) == k,
    decreases k,
{
    if k == 0 {
    } else {
        let t = s.drop_first();
        assert(forall|i: int| 0 <= i < k - 1 ==> #[trigger] t[i] != '.');
        lemma_first_dot_at(t, k - 1);
    }
}

/// The text split at its dots, empty parts kept.
pub open spec fn split_dots(s: Seq<char>) -> Seq<Seq<char>>
    decreases s.len(),
    via split_dots_dec
{
    let k = first_dot(s);
    if k >= s.len() {
        seq![s]
    } else {
        seq![s.take(k)] + split_dots(s.skip(k + 1))
    }
}

#[via_fn]
proof fn split_dots_dec(s: Seq<char>) {
    lemma_first_dot_bounds(s);
}

/// Splitting a dot-free part, a dot, and a remainder yields the part
/// followed by the remainder's split.
pub proof fn lemma_split_dots_prepend(a: Seq<char>, rest: Seq<char>)
    requires
        forall|i: int| 0 <= i < a.len() ==> a[i] != '.',
    ensures
        split_dots(a + seq!['.'] + rest) == seq![a] + split_dots(rest),
{
    let s = a + seq!['.'] + rest;
    assert forall|i: int| 0 <= i < a.len() implies s[i] != '.' by {
        assert(s[i] == a[i]);
    }
    assert(s[a.len() as int] == '.');
    lemma_first_dot_at(s, a.len() as int);
    assert(s.take(a.len() as int) =~= a);
    assert(s.skip(a.len() as int + 1) =~= rest);
}

/// A dot-free text is a single part.
pub proof fn lemma_split_dots_whole(s: Seq<char>)
    requires
        forall|i: int| 0 <= i < s.len() ==> s[i] != '.',
    ensures
        split_dots(s) == seq![s],
{
    lemma_first_dot_at(s, s.len() as int);
}

pub proof fn lemma_split_dots_len(s: Seq<char>)
    ensures
        split_dots(s).len() >= 1,
    decreases s.len(),
{
    lemma_first_dot_bounds(s);
}

/// The address a dotted-quad text denotes: exactly four parts, each a
/// valid decimal octet.
pub open spec fn spec_parse_ipv4(s: Seq<char>) -> Option<Ipv4Address> {
    let ps = split_dots(s);
    if ps.len() == 4 && is_octet_text(ps[0]) && is_octet_text(ps[1]) && is_octet_text(ps[2])
        && is_octet_text(ps[3]) {
        Some(
            Ipv4Address {
                o1: octet_val(ps[0]) as u8,
                o2: octet_val(ps[1]) as u8,
                o3: octet_val(ps[2]) as u8,
                o4: octet_val(ps[3]) as u8,
            },
        )
    } else {
        None
    }
}

/// The decimal text of an octet, without leading zeros.
pub open spec fn dec_u8(n: int) -> Seq<char> {
    if n < 10 {
        seq![digit_char(n)]
    } else if n < 100 {
        seq![digit_char(n / 10), digit_char(n % 10)]
    } else {
        seq![digit_char(n / 100), digit_char((n / 10) % 10), digit_char(n % 10)]
    }
}

/// The dotted-quad text of an address.
pub open spec fn spec_render_ipv4(ip: Ipv4Address) -> Seq<char> {
    dec_u8(ip.o1 as int) + seq!['.'] + dec_u8(ip.o2 as int) + seq!['.'] + dec_u8(ip.o3 as int)
        + seq!['.'] + dec_u8(ip.o4 as int)
}

/// The decimal text of an octet is a valid octet text made of plain
/// digits, and its value is the octet.
pub proof fn lemma_dec_u8_props(n: int)
    requires
        0 <= n <= 255,
    ensures
        is_octet_text(dec_u8(n)),
        octet_val(dec_u8(n)) == n,
        forall|i: int| 0 <= i < dec_u8(n).len() ==> is_digit(#[trigger] dec_u8(n)[i]),
        forall|i: int|
            0 <= i < dec_u8(n).len() ==> dec_u8(n)[i] != '.' && !is_space(dec_u8(n)[i]),
{
    let s = dec_u8(n);
    if n < 10 {
        lemma_digit_char_props(n);
        assert(s.drop_last() =~= Seq::<char>::empty());
        assert(octet_val(s.drop_last()) == 0);
        assert(s.last() == digit_char(n));
        assert(octet_val(s) == n);
    } else if n < 100 {
        lemma_digit_char_props(n / 10);
        lemma_digit_char_props(n % 10);
        let t = s.drop_last();
        assert(t =~= seq![digit_char(n / 10)]);
        assert(t.drop_last() =~= Seq::<char>::empty());
        assert(octet_val(t.drop_last()) == 0);
        assert(t.last() == digit_char(n / 10));
        assert(octet_val(t) == n / 10);
        assert(s.last() == digit_char(n % 10));
        assert(octet_val(s) == (n / 10) * 10 + n % 10);
        assert((n / 10) * 10 + n % 10 == n);
    } else {
        lemma_digit_char_props(n / 100);
        lemma_digit_char_props((n / 10) % 10);
        lemma_digit_char_props(n % 10);
        let t = s.drop_last();
        assert(t =~= seq![digit_char(n / 100), digit_char((n / 10) % 10)]);
        let u = t.drop_last();
        assert(u =~= seq![digit_char(n / 100)]);
        assert(u.drop_last() =~= Seq::<char>::empty());
        assert(octet_val(u.drop_last()) == 0);
        assert(u.last() == digit_char(n / 100));
        assert(octet_val(u) == n / 100);
        assert(t.last() == digit_char((n / 10) % 10));
        assert(octet_val(t) == (n / 100) * 10 + (n / 10) % 10);
        assert((n / 100) * 10 + (n / 10) % 10 == n / 10);
        assert(s.last() == digit_char(n % 10));
        assert(octet_val(s) == (n / 10) * 10 + n % 10);
        assert((n / 10) * 10 + n % 10 == n);
    }
}

/// Rendering an address and parsing the text restores the address; the
/// text holds no whitespace and is not empty.
#[verifier::rlimit(50)]
pub proof fn lemma_ipv4_roundtrip(ip: Ipv4Address)
    ensures
        spec_parse_ipv4(spec_render_ipv4(ip)) == Some(ip),
        spec_render_ipv4(ip).len() > 0,
        forall|i: int|
            0 <= i < spec_render_ipv4(ip).len() ==> !is_space(#[trigger] spec_render_ipv4(ip)[i]),
{
    let d1 = dec_u8(ip.o1 as int);
    let d2 = dec_u8(ip.o2 as int);
    let d3 = dec_u8(ip.o3 as int);
    let d4 = dec_u8(ip.o4 as int);
    lemma_dec_u8_props(ip.o1 as int);
    lemma_dec_u8_props(ip.o2 as int);
    lemma_dec_u8_props(ip.o3 as int);
    lemma_dec_u8_props(ip.o4 as int);
    let s = spec_render_ipv4(ip);
    assert(s =~= d1 + seq!['.'] + (d2 + seq!['.'] + (d3 + seq!['.'] + d4)));
    lemma_split_dots_prepend(d1, d2 + seq!['.'] + (d3 + seq!['.'] + d4));
    lemma_split_dots_prepend(d2, d3 + seq!['.'] + d4);
    lemma_split_dots_prepend(d3, d4);
    lemma_split_dots_whole(d4);
    assert(d2 + seq!['.'] + (d3 + seq!['.'] + d4) =~= d2 + seq!['.'] + (d3 + seq!['.'] + d4));
    let ps = split_dots(s);
    assert(ps == seq![d1] + (seq![d2] + (seq![d3] + seq![d4])));
    assert(ps =~= seq![d1, d2, d3, d4]);
    assert(ps[0] == d1 && ps[1] == d2 && ps[2] == d3 && ps[3] == d4);
    assert(spec_parse_ipv4(s) == Some(ip));
    let dot = seq!['.'];
    assert(forall|i: int| 0 <= i < dot.len() ==> !is_space(#[trigger] dot[i]));
    crate::text::lemma_append_non_space(d1, dot);
    crate::text::lemma_append_non_space(d1 + dot, d2);
    crate::text::lemma_append_non_space(d1 + dot + d2, dot);
    crate::text::lemma_append_non_space(d1 + dot + d2 + dot, d3);
    crate::text::lemma_append_non_space(d1 + dot + d2 + dot + d3, dot);
    crate::text::lemma_append_non_space(d1 + dot + d2 + dot + d3 + dot, d4);
}

/// The digit character for a value below ten.
pub fn digit_char_exec(d: u8) -> (c: char)
    requires
        d < 10,
    ensures
        c == digit_char(d as int),
{
    if d == 0 {
        '0'
    } else if d == 1 {
        '1'
    } else if d == 2 {
        '2'
    } else if d == 3 {
        '3'
    } else if d == 4 {
        '4'
    } else if d == 5 {
        '5'
    } else if d == 6 {
        '6'
    } else if d == 7 {
        '7'
    } else if d == 8 {
        '8'
    } else {
        '9'
    }
}

/// Appends the decimal text of one octet.
fn push_octet(dst: &mut Vec<char>, n: u8)
    ensures
        final(dst)@ == old(dst)@ + dec_u8(n as int),
{
    if n < 10 {
        dst.push(digit_char_exec(n));
        proof {
            assert(old(dst)@.push(digit_char(n as int)) =~= old(dst)@ + dec_u8(n as int));
        }
    } else if n < 100 {
        dst.push(digit_char_exec(n / 10));
        dst.push(digit_char_exec(n % 10));
        proof {
            assert(old(dst)@.push(digit_char(n as int / 10)).push(digit_char(n as int % 10))
                =~= old(dst)@ + dec_u8(n as int));
        }
    } else {
        dst.push(digit_char_exec(n / 100));
        dst.push(digit_char_exec((n / 10) % 10));
        dst.push(digit_char_exec(n % 10));
        proof {
            assert(old(dst)@.push(digit_char(n as int / 100)).push(
                digit_char((n as int / 10) % 10),
            ).push(digit_char(n as int % 10)) =~= old(dst)@ + dec_u8(n as int));
        }
    }
}

/// Appends the dotted-quad text of the address.
pub fn push_ipv4(dst: &mut Vec<char>, ip: Ipv4Address)
    ensures
        final(dst)@ == old(dst)@ + spec_render_ipv4(ip),
{
    push_octet(dst, ip.o1);
    dst.push('.');
    push_octet(dst, ip.o2);
    dst.push('.');
    push_octet(dst, ip.o3);
    dst.push('.');
    push_octet(dst, ip.o4);
    proof {
        assert(final(dst)@ =~= old(dst)@ + spec_render_ipv4(ip));
    }
}

/// The position of the first dot in the range, or `to` if there is none.
fn find_dot(v: &Vec<char>, from: usize, to: usize) -> (r: usize)
    requires
        from <= to <= v@.len(),
    ensures
        from <= r <= to,
        forall|k: int| from <= k < r ==> v@[k] != '.',
        r < to ==> v@[r as int] == '.',
{
    let mut i = from;
    while i < to && v[i] != '.'
        invariant
            from <= i <= to <= v@.len(),
            forall|k: int| from <= k < i ==> v@[k] != '.',
        decreases to - i,
    {
        i += 1;
    }
    i
}

/// Parses one decimal octet from the range.
fn parse_octet(v: &Vec<char>, from: usize, to: usize) -> (r: Option<u8>)
    requires
        from <= to <= v@.len(),
    ensures
        r is Some <==> is_octet_text(v@.subrange(from as int, to as int)),
        r is Some ==> r->0 as int == octet_val(v@.subrange(from as int, to as int)),
{
    let ghost s = v@.subrange(from as int, to as int);
    let len = to - from;
    if len == 0 || len > 3 {
        return None;
    }
    let mut i = from;
    while i < to
        invariant
            from <= i <= to <= v@.len(),
            s == v@.subrange(from as int, to as int),
            forall|k: int| from <= k < i ==> is_digit(v@[k]),
        decreases to - i,
    {
        let u = v[i] as u32;
        if !(48 <= u && u <= 57) {
            proof {
                assert(s[i - from] == v@[i as int]);
                assert(!is_digit(s[i - from]));
            }
            return None;
        }
        proof {
            assert(is_digit(v@[i as int]));
        }
        i += 1;
    }
    proof {
        assert forall|k: int| 0 <= k < s.len() implies is_digit(#[trigger] s[k]) by {
            assert(s[k] == v@[from + k]);
        }
    }
    if len > 1 && v[from] == '0' {
        proof {
            assert(s[0] == '0');
        }
        return None;
    }
    proof {
        assert(s[0] == v@[from as int]);
        if len >= 2 {
            assert(s[1] == v@[from + 1]);
        }
        if len >= 3 {
            assert(s[2] == v@[from + 2]);
        }
    }
    let val: u32 = if len == 1 {
        (v[from] as u32) - 48
    } else if len == 2 {
        ((v[from] as u32) - 48) * 10 + ((v[from + 1] as u32) - 48)
    } else {
        ((v[from] as u32) - 48) * 100 + ((v[from + 1] as u32) - 48) * 10 + ((v[from + 2] as u32)
            - 48)
    };
    proof {
        if len == 1 {
            assert(s.drop_last() =~= Seq::<char>::empty());
            assert(octet_val(s.drop_last()) == 0);
            assert(s.last() == s[0]);
            assert(octet_val(s) == digit_val(s[0]));
        } else if len == 2 {
            let t = s.drop_last();
            assert(t.drop_last() =~= Seq::<char>::empty());
            assert(octet_val(t.drop_last()) == 0);
            assert(t.last() == s[0]);
            assert(octet_val(t) == digit_val(s[0]));
            assert(s.last() == s[1]);
            assert(octet_val(s) == digit_val(s[0]) * 10 + digit_val(s[1]));
        } else {
            let t = s.drop_last();
            let u = t.drop_last();
            assert(u.drop_last() =~= Seq::<char>::empty());
            assert(octet_val(u.drop_last()) == 0);
            assert(t.last() == s[1] && u.last() == s[0]);
            assert(octet_val(u) == digit_val(s[0]));
            assert(octet_val(t) == digit_val(s[0]) * 10 + digit_val(s[1]));
            assert(s.last() == s[2]);
            assert(octet_val(s) == (digit_val(s[0]) * 10 + digit_val(s[1])) * 10 + digit_val(
                s[2],
            ));
        }
        assert(val as int == octet_val(s));
    }
    if val <= 255 {
        Some(val as u8)
    } else {
        None
    }
}

/// Parses the range as a dotted-quad IPv4 address.
pub fn parse_ipv4_range(v: &Vec<char>, from: usize, to: usize) -> (r: Option<Ipv4Address>)
    requires
        from <= to <= v@.len(),
    ensures
        r == spec_parse_ipv4(v@.subrange(from as int, to as int)),
{
    let ghost s = v@.subrange(from as int, to as int);
    let d1 = find_dot(v, from, to);
    proof {
        assert forall|i: int| 0 <= i < d1 - from implies s[i] != '.' by {
            assert(s[i] == v@[from + i]);
        }
    }
    if d1 == to {
        proof {
            lemma_first_dot_at(s, s.len() as int);
            assert(split_dots(s) == seq![s]);
        }
        return None;
    }
    proof {
        assert(s[d1 - from] == '.');
        lemma_first_dot_at(s, d1 - from);
        assert(s.take(d1 - from) =~= v@.subrange(from as int, d1 as int));
        assert(s.skip(d1 - from + 1) =~= v@.subrange(d1 as int + 1, to as int));
        assert(split_dots(s) == seq![v@.subrange(from as int, d1 as int)] + split_dots(
            v@.subrange(d1 as int + 1, to as int),
        ));
    }
    let ghost s2 = v@.subrange(d1 as int + 1, to as int);
    let d2 = find_dot(v, d1 + 1, to);
    proof {
        assert forall|i: int| 0 <= i < d2 - d1 - 1 implies s2[i] != '.' by {
            assert(s2[i] == v@[d1 + 1 + i]);
        }
    }
    if d2 == to {
        proof {
            lemma_first_dot_at(s2, s2.len() as int);
            assert(split_dots(s2) == seq![s2]);
            assert(split_dots(s).len() == 2);
        }
        return None;
    }
    proof {
        assert(s2[d2 - d1 - 1] == '.');
        lemma_first_dot_at(s2, d2 - d1 - 1);
        assert(s2.take(d2 - d1 - 1) =~= v@.subrange(d1 as int + 1, d2 as int));
        assert(s2.skip(d2 - d1 - 1 + 1) =~= v@.subrange(d2 as int + 1, to as int));
        assert(split_dots(s2) == seq![v@.subrange(d1 as int + 1, d2 as int)] + split_dots(
            v@.subrange(d2 as int + 1, to as int),
        ));
    }
    let ghost s3 = v@.subrange(d2 as int + 1, to as int);
    let d3 = find_dot(v, d2 + 1, to);
    proof {
        assert forall|i: int| 0 <= i < d3 - d2 - 1 implies s3[i] != '.' by {
            assert(s3[i] == v@[d2 + 1 + i]);
        }
    }
    if d3 == to {
        proof {
            lemma_first_dot_at(s3, s3.len() as int);
            assert(split_dots(s3) == seq![s3]);
            assert(split_dots(s).len() == 3);
        }
        return None;
    }
    proof {
        assert(s3[d3 - d2 - 1] == '.');
        lemma_first_dot_at(s3, d3 - d2 - 1);
        assert(s3.take(d3 - d2 - 1) =~= v@.subrange(d2 as int + 1, d3 as int));
        assert(s3.skip(d3 - d2 - 1 + 1) =~= v@.subrange(d3 as int + 1, to as int));
        assert(split_dots(s3) == seq![v@.subrange(d2 as int + 1, d3 as int)] + split_dots(
            v@.subrange(d3 as int + 1, to as int),
        ));
    }
    let ghost s4 = v@.subrange(d3 as int + 1, to as int);
    let d4 = find_dot(v, d3 + 1, to);
    proof {
        assert forall|i: int| 0 <= i < d4 - d3 - 1 implies s4[i] != '.' by {
            assert(s4[i] == v@[d3 + 1 + i]);
        }
    }
    if d4 != to {
        proof {
            assert(s4[d4 - d3 - 1] == '.');
            lemma_first_dot_at(s4, d4 - d3 - 1);
            lemma_split_dots_len(s4.skip(d4 - d3 - 1 + 1));
            assert(split_dots(s4) == seq![s4.take(d4 - d3 - 1)] + split_dots(
                s4.skip(d4 - d3 - 1 + 1),
            ));
            assert(split_dots(s).len() >= 5);
        }
        return None;
    }
    proof {
        lemma_first_dot_at(s4, s4.len() as int);
        assert(split_dots(s4) == seq![s4]);
        assert(split_dots(s) =~= seq![
            v@.subrange(from as int, d1 as int),
            v@.subrange(d1 as int + 1, d2 as int),
            v@.subrange(d2 as int + 1, d3 as int),
            v@.subrange(d3 as int + 1, to as int),
        ]);
    }
    let p1 = parse_octet(v, from, d1);
    let p2 = parse_octet(v, d1 + 1, d2);
    let p3 = parse_octet(v, d2 + 1, d3);
    let p4 = parse_octet(v, d3 + 1, to);
    match (p1, p2, p3, p4) {
        (Some(a), Some(b), Some(c), Some(d)) => Some(Ipv4Address { o1: a, o2: b, o3: c, o4: d }),
        _ => None,
    }
}

} // verus!
