//! IPv4 and MAC addresses as the classroom writes them.

use vstd::prelude::*;
use crate::text::{append_hex, append_hex2, chars_of, char_views, hex, hex2, hex_char, lemma_split_len, split, split_chars, str_eq};
use vstd::string::StringExecFns;

verus! {

/// The only subnet mask a classroom port may have.
pub const MASK_C: &'static str = "255.255.255.0";

pub open spec fn is_digit(c: char) -> bool {
    '0' <= c && c <= '9'
}

pub open spec fn digit_value(c: char) -> nat {
    (c as nat - '0' as nat) as nat
}

/// The value of a string of decimal digits.
pub open spec fn dec_value(s: Seq<char>) -> nat
    decreases s.len(),
{
    if s.len() == 0 {
        0
    } else {
        dec_value(s.drop_last()) * 10 + digit_value(s.last())
    }
}

/// The digits of a number, after an optional `+`.
pub open spec fn u8_digits(s: Seq<char>) -> Seq<char> {
    if s.len() > 0 && s[0] == '+' {
        s.drop_first()
    } else {
        s
    }
}

/// `str::parse::<u8>`: an optional `+`, then one or more decimal digits
/// whose value is at most 255.
pub open spec fn parse_u8_spec(s: Seq<char>) -> Option<u8> {
    let d = u8_digits(s);
    if d.len() > 0 && (forall|i: int| 0 <= i < d.len() ==> is_digit(#[trigger] d[i])) && dec_value(d)
        < 256 {
        Some(dec_value(d) as u8)
    } else {
        None
    }
}

/// One dotted part of an IPv4 address: one to three characters, no
/// leading zero, a byte.  (Measuring in bytes, as the code does, refuses
/// the same parts: a non-ASCII character is never a digit.)
pub open spec fn ipv4_part(p: Seq<char>) -> Option<u8> {
    if p.len() == 0 || p.len() > 3 {
        None
    } else if p.len() > 1 && p[0] == '0' {
        None
    } else {
        parse_u8_spec(p)
    }
}

/// The four bytes of a dotted IPv4 address, or `None`.
pub open spec fn ipv4_of(s: Seq<char>) -> Option<Seq<u8>> {
    let parts = split(s, '.');
    if parts.len() == 4 && ipv4_part(parts[0]) is Some && ipv4_part(parts[1]) is Some && ipv4_part(
        parts[2],
    ) is Some && ipv4_part(parts[3]) is Some {
        Some(
            seq![
                ipv4_part(parts[0]).unwrap(),
                ipv4_part(parts[1]).unwrap(),
                ipv4_part(parts[2]).unwrap(),
                ipv4_part(parts[3]).unwrap(),
            ],
        )
    } else {
        None
    }
}

fn parse_u8_dec(p: &Vec<char>) -> (r: Option<u8>)
    requires
        p@.len() <= 3,
    ensures
        r == parse_u8_spec(p@),
{
    let n = p.len();
    let mut j: usize = 0;
    let ghost d = u8_digits(p@);
    if n > 0 && p[0] == '+' {
        j = 1;
    }
    if j == n {
        return None;
    }
    let start = j;
    let mut val: u32 = 0;
    assert(d =~= p@.subrange(start as int, n as int));
    while j < n
        invariant
            start <= j <= n,
            n == p@.len(),
            n <= 3,
            start <= 1,
            d == p@.subrange(start as int, n as int),
            d == u8_digits(p@),
            forall|k: int| start <= k < j ==> is_digit(#[trigger] p@[k]),
            val == dec_value(p@.subrange(start as int, j as int)),
            val < 1000,
            j - start == 0 ==> val == 0,
            j - start == 1 ==> val < 10,
            j - start == 2 ==> val < 100,
        decreases n - j,
    {
        let c = p[j];
        if !('0' <= c && c <= '9') {
            assert(!is_digit(d[j - start]));

            return None;
        }
        let ghost before = p@.subrange(start as int, j as int);
        val = val * 10 + ((c as u32) - ('0' as u32));
        j += 1;
        assert(p@.subrange(start as int, j as int).drop_last() =~= before);
    }
    assert(p@.subrange(start as int, n as int) =~= d);
    assert forall|i: int| 0 <= i < d.len() implies is_digit(#[trigger] d[i]) by {
        assert(d[i] == p@[start + i]);
    }
    if val < 256 {
        Some(val as u8)
    } else {
        None
    }
}

fn parse_ipv4_part(p: &Vec<char>) -> (r: Option<u8>)
    ensures
        r == ipv4_part(p@),
{
    if p.len() == 0 || p.len() > 3 {
        return None;
    }
    if p.len() > 1 && p[0] == '0' {
        return None;
    }
    parse_u8_dec(p)
}

/// Reads a dotted IPv4 address: four parts, each one to three digits
/// without a leading zero, each at most 255.
pub fn parse_ipv4(s: &str) -> (r: Option<[u8; 4]>)
    ensures
        r is Some <==> ipv4_of(s@) is Some,
        r matches Some(a) ==> ipv4_of(s@) == Some(a@),
{
    let cs = chars_of(s);
    let parts = split_chars(&cs, '.');
    assert(char_views(parts@).len() == parts@.len());
    if parts.len() != 4 {
        return None;
    }
    assert(char_views(parts@)[0] == parts@[0]@);
    assert(char_views(parts@)[1] == parts@[1]@);
    assert(char_views(parts@)[2] == parts@[2]@);
    assert(char_views(parts@)[3] == parts@[3]@);
    let a = match parse_ipv4_part(&parts[0]) {
        Some(v) => v,
        None => return None,
    };
    let b = match parse_ipv4_part(&parts[1]) {
        Some(v) => v,
        None => return None,
    };
    let c = match parse_ipv4_part(&parts[2]) {
        Some(v) => v,
        None => return None,
    };
    let d = match parse_ipv4_part(&parts[3]) {
        Some(v) => v,
        None => return None,
    };
    let out: [u8; 4] = [a, b, c, d];
    assert(out@ =~= seq![a, b, c, d]);
    Some(out)
}

/// Two addresses share the first three bytes (the class C network).
pub open spec fn same_c_spec(a: Seq<char>, b: Seq<char>) -> bool {
    match (ipv4_of(a), ipv4_of(b)) {
        (Some(x), Some(y)) => x[0] == y[0] && x[1] == y[1] && x[2] == y[2],
        _ => false,
    }
}

pub fn same_c_class(a: &str, b: &str) -> (r: bool)
    ensures
        r == same_c_spec(a@, b@),
{
    match (parse_ipv4(a), parse_ipv4(b)) {
        (Some(x), Some(y)) => x[0] == y[0] && x[1] == y[1] && x[2] == y[2],
        _ => false,
    }
}

/// Only the class C mask, or no mask at all, may be written to a port.
pub fn mask_is_fixed(mask: Option<&str>) -> (r: bool)
    ensures
        r == match mask {
            None => true,
            Some(m) => m@ == MASK_C@,
        },
{
    match mask {
        None => true,
        Some(m) => str_eq(m, MASK_C),
    }
}

pub open spec fn hex_value(c: char) -> Option<nat> {
    if '0' <= c && c <= '9' {
        Some((c as nat - '0' as nat) as nat)
    } else if 'a' <= c && c <= 'f' {
        Some((c as nat - 'a' as nat + 10) as nat)
    } else if 'A' <= c && c <= 'F' {
        Some((c as nat - 'A' as nat + 10) as nat)
    } else {
        None
    }
}

/// One part of a MAC address, `u8::from_str_radix(p, 16)` on exactly two
/// characters: two hex digits, or `+` and one hex digit.
pub open spec fn mac_part(p: Seq<char>) -> Option<u8> {
    if p.len() != 2 {
        None
    } else if p[0] == '+' {
        match hex_value(p[1]) {
            Some(v) => Some(v as u8),
            None => None,
        }
    } else {
        match (hex_value(p[0]), hex_value(p[1])) {
            (Some(h), Some(l)) => Some((h * 16 + l) as u8),
            _ => None,
        }
    }
}

/// The six bytes of a colon-separated MAC address, or `None`.
pub open spec fn mac_of(s: Seq<char>) -> Option<Seq<u8>> {
    let parts = split(s, ':');
    if parts.len() == 6 && (forall|i: int| 0 <= i < 6 ==> #[trigger] mac_part(parts[i]) is Some) {
        Some(Seq::new(6, |i: int| mac_part(parts[i]).unwrap()))
    } else {
        None
    }
}

fn hex_digit(c: char) -> (r: Option<u8>)
    ensures
        match hex_value(c) {
            Some(v) => r == Some(v as u8) && v < 16,
            None => r is None,
        },
{
    if '0' <= c && c <= '9' {
        Some(((c as u32) - ('0' as u32)) as u8)
    } else if 'a' <= c && c <= 'f' {
        Some(((c as u32) - ('a' as u32) + 10) as u8)
    } else if 'A' <= c && c <= 'F' {
        Some(((c as u32) - ('A' as u32) + 10) as u8)
    } else {
        None
    }
}

fn parse_mac_part(p: &Vec<char>) -> (r: Option<u8>)
    ensures
        r == mac_part(p@),
{
    if p.len() != 2 {
        return None;
    }
    if p[0] == '+' {
        return hex_digit(p[1]);
    }
    match (hex_digit(p[0]), hex_digit(p[1])) {
        (Some(h), Some(l)) => Some(h * 16 + l),
        _ => None,
    }
}

/// Reads a MAC address: six colon-separated parts of two hex digits each.
pub fn parse_mac(s: &str) -> (r: Option<[u8; 6]>)
    ensures
        r is Some <==> mac_of(s@) is Some,
        r matches Some(a) ==> mac_of(s@) == Some(a@),
{
    let cs = chars_of(s);
    let parts = split_chars(&cs, ':');
    assert(char_views(parts@).len() == parts@.len());
    if parts.len() != 6 {
        return None;
    }
    let mut out: [u8; 6] = [0u8; 6];
    let mut i: usize = 0;
    while i < 6
        invariant
            i <= 6,
            parts@.len() == 6,
            char_views(parts@) == split(s@, ':'),
            forall|k: int| 0 <= k < i ==> #[trigger] mac_part(split(s@, ':')[k]) == Some(out@[k]),
        decreases 6 - i,
    {
        assert(char_views(parts@)[i as int] == parts@[i as int]@);
        match parse_mac_part(&parts[i]) {
            Some(v) => {
                out[i] = v;
            },
            None => {
                return None;
            },
        }
        i += 1;
    }
    assert(out@ =~= Seq::new(6, |k: int| mac_part(split(s@, ':')[k]).unwrap()));
    Some(out)
}

/// A unicast address has the lowest bit of its first byte clear.
pub open spec fn unicast_spec(s: Seq<char>) -> bool {
    mac_of(s) is Some && mac_of(s).unwrap()[0] % 2 == 0
}

pub fn is_unicast_mac(s: &str) -> (r: bool)
    ensures
        r == unicast_spec(s@),
{
    match parse_mac(s) {
        Some(b) => b[0] % 2 == 0,
        None => false,
    }
}

} // verus!
