//! What holds of addresses written and read back.

use vstd::prelude::*;
use crate::addr::{
    digit_value, hex_value, ipv4_of, ipv4_part, is_digit, mac_of, mac_part, parse_u8_spec, u8_digits, dec_value,
};
use crate::text::{dec, dec_char, hex2, hex_char, lemma_split_concat, lemma_split_single, split};

verus! {

/// An upper-case hex digit, as `{:X}` writes it.
pub open spec fn hex_char_upper(d: nat) -> char {
    if d < 10 {
        hex_char(d)
    } else if d == 10 {
        'A'
    } else if d == 11 {
        'B'
    } else if d == 12 {
        'C'
    } else if d == 13 {
        'D'
    } else if d == 14 {
        'E'
    } else {
        'F'
    }
}

/// A byte as two hex digits, `{:02x}` or, with `upper`, `{:02X}`.
pub open spec fn hex2_case(b: nat, upper: bool) -> Seq<char> {
    if upper {
        seq![hex_char_upper(b / 16), hex_char_upper(b % 16)]
    } else {
        hex2(b)
    }
}

/// Six bytes written as a MAC address, colon-separated two-digit hex.
pub open spec fn mac_format(b: Seq<u8>, upper: bool) -> Seq<char> {
    hex2_case(b[0] as nat, upper) + seq![':'] + hex2_case(b[1] as nat, upper) + seq![':'] + hex2_case(
        b[2] as nat,
        upper,
    ) + seq![':'] + hex2_case(b[3] as nat, upper) + seq![':'] + hex2_case(b[4] as nat, upper) + seq![':']
        + hex2_case(b[5] as nat, upper)
}

proof fn lemma_hex2_case_part(b: nat, upper: bool)
    requires
        b < 256,
    ensures
        mac_part(hex2_case(b, upper)) == Some(b as u8),
        forall|i: int| 0 <= i < hex2_case(b, upper).len() ==> #[trigger] hex2_case(b, upper)[i] != ':',
{
    let h = b / 16;
    let l = b % 16;
    let t = hex2_case(b, upper);
    if upper {
        assert(hex_value(hex_char_upper(h)) == Some(h));
        assert(hex_value(hex_char_upper(l)) == Some(l));
    } else {
        assert(hex_value(hex_char(h)) == Some(h));
        assert(hex_value(hex_char(l)) == Some(l));
    }
    assert(t.len() == 2);
    assert(t[0] != '+');
}

proof fn lemma_split_cons(h: Seq<char>, t: Seq<char>, sep: char)
    requires
        forall|i: int| 0 <= i < h.len() ==> #[trigger] h[i] != sep,
    ensures
        split(h + seq![sep] + t, sep) == seq![h] + split(t, sep),
{
    lemma_split_concat(h, t, sep);
    lemma_split_single(h, sep);
}

#[verifier::rlimit(40)]
#[verifier::spinoff_prover]
proof fn lemma_mac_format_parts(b: Seq<u8>, upper: bool)
    requires
        b.len() == 6,
    ensures
        split(mac_format(b, upper), ':') == Seq::new(6, |i: int| hex2_case(b[i] as nat, upper)),
{
    let h0 = hex2_case(b[0] as nat, upper);
    let h1 = hex2_case(b[1] as nat, upper);
    let h2 = hex2_case(b[2] as nat, upper);
    let h3 = hex2_case(b[3] as nat, upper);
    let h4 = hex2_case(b[4] as nat, upper);
    let h5 = hex2_case(b[5] as nat, upper);
    lemma_hex2_case_part(b[0] as nat, upper);
    lemma_hex2_case_part(b[1] as nat, upper);
    lemma_hex2_case_part(b[2] as nat, upper);
    lemma_hex2_case_part(b[3] as nat, upper);
    lemma_hex2_case_part(b[4] as nat, upper);
    lemma_hex2_case_part(b[5] as nat, upper);
    let t4 = h4 + seq![':'] + h5;
    let t3 = h3 + seq![':'] + t4;
    let t2 = h2 + seq![':'] + t3;
    let t1 = h1 + seq![':'] + t2;
    let t0 = h0 + seq![':'] + t1;
    assert(mac_format(b, upper) =~= t0);
    lemma_split_single(h5, ':');
    lemma_split_cons(h4, h5, ':');
    lemma_split_cons(h3, t4, ':');
    lemma_split_cons(h2, t3, ':');
    lemma_split_cons(h1, t2, ':');
    lemma_split_cons(h0, t1, ':');
    assert(split(t4, ':') =~= seq![h4, h5]);
    assert(split(t3, ':') =~= seq![h3, h4, h5]);
    assert(split(t2, ':') =~= seq![h2, h3, h4, h5]);
    assert(split(t1, ':') =~= seq![h1, h2, h3, h4, h5]);
    assert(split(t0, ':') =~= seq![h0, h1, h2, h3, h4, h5]);
    assert(seq![h0, h1, h2, h3, h4, h5] =~= Seq::new(6, |i: int| hex2_case(b[i] as nat, upper)));
}

/// A MAC address written as six two-digit hex bytes, in lower or upper
/// case, reads back as those six bytes; and a text reads as a MAC address
/// only if it has six colon-separated parts of two characters each.
#[verifier::spinoff_prover]
pub proof fn law_mac_round_trip(b: Seq<u8>, upper: bool, s: Seq<char>)
    requires
        b.len() == 6,
    ensures
        mac_of(mac_format(b, upper)) == Some(b),
        mac_of(s) is Some ==> split(s, ':').len() == 6 && forall|i: int|
            0 <= i < 6 ==> (#[trigger] split(s, ':')[i]).len() == 2,
{
    lemma_mac_format_parts(b, upper);
    let parts = split(mac_format(b, upper), ':');
    assert forall|i: int| 0 <= i < 6 implies #[trigger] mac_part(parts[i]) == Some(b[i]) by {
        lemma_hex2_case_part(b[i] as nat, upper);
    }
    assert(mac_of(mac_format(b, upper)).unwrap() =~= b);
    if mac_of(s) is Some {
        assert forall|i: int| 0 <= i < 6 implies (#[trigger] split(s, ':')[i]).len() == 2 by {
            assert(mac_part(split(s, ':')[i]) is Some);
        }
    }
}

proof fn lemma_dec_char(d: nat)
    requires
        d < 10,
    ensures
        is_digit(dec_char(d)),
        digit_value(dec_char(d)) == d,
        dec_char(d) != '.',
        dec_char(d) != '+',
        dec_char(d) == '0' <==> d == 0,
{
}

proof fn lemma_dec_text(n: nat)
    ensures
        forall|i: int| 0 <= i < dec(n).len() ==> is_digit(#[trigger] dec(n)[i]) && dec(n)[i] != '.',
        dec_value(dec(n)) == n,
        n > 0 ==> dec(n)[0] != '0',
        dec(n)[0] != '+',
        n < 10 ==> dec(n).len() == 1,
        n < 100 ==> dec(n).len() <= 2,
        n < 1000 ==> dec(n).len() <= 3,
        dec(n).len() >= 1,
    decreases n,
{
    if n < 10 {
        lemma_dec_char(n);
        assert(dec(n).drop_last() =~= Seq::<char>::empty());
        assert(dec_value(dec(n)) == dec_value(Seq::<char>::empty()) * 10 + digit_value(dec_char(n)));
    } else {
        lemma_dec_text(n / 10);
        lemma_dec_char(n % 10);
        let d = dec(n);
        assert(d.drop_last() =~= dec(n / 10));
        assert(d.last() == dec_char(n % 10));
        assert(dec_value(d) == dec_value(dec(n / 10)) * 10 + digit_value(dec_char(n % 10)));
        assert(d[0] == dec(n / 10)[0]);
        assert forall|i: int| 0 <= i < d.len() implies is_digit(#[trigger] d[i]) && d[i] != '.' by {
            if i < d.len() - 1 {
                assert(d[i] == dec(n / 10)[i]);
            }
        }
    }
}

proof fn lemma_dec_part(n: nat)
    requires
        n < 256,
    ensures
        ipv4_part(dec(n)) == Some(n as u8),
        forall|i: int| 0 <= i < dec(n).len() ==> #[trigger] dec(n)[i] != '.',
{
    lemma_dec_text(n);
    let d = dec(n);
    assert(u8_digits(d) == d);
    if d.len() > 1 {
        assert(n > 0);
    }
    assert(parse_u8_spec(d) == Some(n as u8));
}

/// Four bytes written as a dotted decimal address.
pub open spec fn ipv4_format(a: nat, b: nat, c: nat, d: nat) -> Seq<char> {
    dec(a) + seq!['.'] + dec(b) + seq!['.'] + dec(c) + seq!['.'] + dec(d)
}

#[verifier::spinoff_prover]
#[verifier::rlimit(60)]
proof fn lemma_ipv4_format_parts(a: u8, b: u8, c: u8, d: u8)
    ensures
        split(ipv4_format(a as nat, b as nat, c as nat, d as nat), '.') == seq![
            dec(a as nat),
            dec(b as nat),
            dec(c as nat),
            dec(d as nat),
        ],
{
    let (da, db, dc, dd) = (dec(a as nat), dec(b as nat), dec(c as nat), dec(d as nat));
    lemma_dec_part(a as nat);
    lemma_dec_part(b as nat);
    lemma_dec_part(c as nat);
    lemma_dec_part(d as nat);
    let t2 = dc + seq!['.'] + dd;
    let t1 = db + seq!['.'] + t2;
    let t0 = da + seq!['.'] + t1;
    assert(ipv4_format(a as nat, b as nat, c as nat, d as nat) =~= t0);
    lemma_split_single(dd, '.');
    lemma_split_cons(dc, dd, '.');
    lemma_split_cons(db, t2, '.');
    lemma_split_cons(da, t1, '.');
    assert(split(t2, '.') =~= seq![dc, dd]);
    assert(split(t1, '.') =~= seq![db, dc, dd]);
    assert(split(t0, '.') =~= seq![da, db, dc, dd]);
}

/// Four bytes written as `{a}.{b}.{c}.{d}` read back as those bytes; and
/// a text reads as an address only if it has four dot-separated parts of
/// one to three characters, none with a leading zero but `0` itself.
#[verifier::spinoff_prover]
pub proof fn law_ipv4_round_trip(a: u8, b: u8, c: u8, d: u8, s: Seq<char>)
    ensures
        ipv4_of(ipv4_format(a as nat, b as nat, c as nat, d as nat)) == Some(seq![a, b, c, d]),
        ipv4_of(s) is Some ==> split(s, '.').len() == 4 && forall|i: int|
            0 <= i < 4 ==> {
                let p = #[trigger] split(s, '.')[i];
                &&& 1 <= p.len() <= 3
                &&& (p.len() > 1 ==> p[0] != '0')
            },
{
    lemma_ipv4_format_parts(a, b, c, d);
    lemma_dec_part(a as nat);
    lemma_dec_part(b as nat);
    lemma_dec_part(c as nat);
    lemma_dec_part(d as nat);
    if ipv4_of(s) is Some {
        let parts = split(s, '.');
        assert(ipv4_part(parts[0]) is Some);
        assert(ipv4_part(parts[1]) is Some);
        assert(ipv4_part(parts[2]) is Some);
        assert(ipv4_part(parts[3]) is Some);
    }
}

} // verus!
