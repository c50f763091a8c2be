//! Names the classroom hands out: port names, generated MAC addresses and
//! the ids of classrooms, connections and frames.

use vstd::prelude::*;
use crate::addr::{hex_value, mac_of, mac_part, unicast_spec};
use crate::clock::now_nanos;
use crate::text::{
    append_dec, append_hex, append_hex2, dec, dec_char, dec_pad2, hex, hex2, hex_char,
    lemma_hex_chars, lemma_hex_injective, lemma_hex_len, lemma_split_concat, lemma_split_single,
    split,
};
use vstd::string::StringExecFns;

verus! {

/// The version of this library.
pub fn version() -> (r: &'static str)
    ensures
        r@ == "0.1.0"@,
{
    "0.1.0"
}

/// Port `index` of a device: `"{device_id}/{index:02}"`, as `R1/01`.
pub open spec fn port_name(device_id: Seq<char>, index: nat) -> Seq<char> {
    device_id + "/"@ + dec_pad2(index)
}

pub fn port_id(device_id: &str, index: u32) -> (r: String)
    ensures
        r@ == port_name(device_id@, index as nat),
{
    let mut s = String::from_str(device_id);
    s.append("/");
    let ghost mid = s@;
    if index < 10 {
        s.append("0");
    }
    append_dec(&mut s, index as u64);
    proof {
        reveal_strlit("0");
        reveal_strlit("/");
        if index < 10 {
            assert(dec(index as nat) =~= seq![dec_char(index as nat)]);
            assert(s@ =~= mid + seq!['0', dec_char(index as nat)]);
        }
        assert(s@ =~= port_name(device_id@, index as nat));
    }
    s
}

/// The MAC address generated from sequence number `n`: locally
/// administered, unicast, `02:00:` then the low four bytes of `n` in hex.
pub open spec fn mac_text(n: nat) -> Seq<char> {
    "02:00:"@ + hex2((n / 0x1000000) % 256) + ":"@ + hex2((n / 0x10000) % 256) + ":"@ + hex2(
        (n / 0x100) % 256,
    ) + ":"@ + hex2(n % 256)
}

/// The counter after handing out one value, wrapping around at the top.
pub open spec fn next_seq(n: u64) -> u64 {
    if n == u64::MAX {
        0
    } else {
        (n + 1) as u64
    }
}

/// Hands out the MAC address for the current value of the counter and
/// advances the counter.
pub fn new_unicast_mac(seq: &mut u64) -> (r: String)
    ensures
        r@ == mac_text(*old(seq) as nat),
        *final(seq) == next_seq(*old(seq)),
{
    let n = *seq;
    *seq = n.wrapping_add(1);
    let mut s = String::from_str("02:00:");
    append_hex2(&mut s, ((n / 0x1000000) % 256) as u8);
    s.append(":");
    append_hex2(&mut s, ((n / 0x10000) % 256) as u8);
    s.append(":");
    append_hex2(&mut s, ((n / 0x100) % 256) as u8);
    s.append(":");
    append_hex2(&mut s, (n % 256) as u8);
    s
}

proof fn lemma_hex_value_of(d: nat)
    requires
        d < 16,
    ensures
        hex_value(hex_char(d)) == Some(d),
        hex_char(d) != ':',
{
}

proof fn lemma_hex2_part(b: nat)
    requires
        b < 256,
    ensures
        mac_part(hex2(b)) == Some(b as u8),
        forall|i: int| 0 <= i < hex2(b).len() ==> #[trigger] hex2(b)[i] != ':',
{
    lemma_hex_value_of(b / 16);
    lemma_hex_value_of(b % 16);
    assert(hex2(b)[0] == hex_char(b / 16));
    assert(hex2(b)[1] == hex_char(b % 16));
}

/// A generated address reads back as `02:00` and the four low bytes of the
/// counter: it is unicast (lowest bit of the first byte clear) and locally
/// administered (second-lowest bit set).
pub proof fn lemma_generated_mac(n: nat)
    ensures
        mac_of(mac_text(n)) == Some(
            seq![
                2u8,
                0u8,
                ((n / 0x1000000) % 256) as u8,
                ((n / 0x10000) % 256) as u8,
                ((n / 0x100) % 256) as u8,
                (n % 256) as u8,
            ],
        ),
        unicast_spec(mac_text(n)),
        (mac_of(mac_text(n)).unwrap()[0] / 2) % 2 == 1,
{
    reveal_strlit("02:00:");
    reveal_strlit(":");
    let b3 = (n / 0x1000000) % 256;
    let b2 = (n / 0x10000) % 256;
    let b1 = (n / 0x100) % 256;
    let b0 = n % 256;
    let h3 = hex2(b3);
    let h2 = hex2(b2);
    let h1 = hex2(b1);
    let h0 = hex2(b0);
    let p02 = seq!['0', '2'];
    let p00 = seq!['0', '0'];
    let t4 = h1 + seq![':'] + h0;
    let t3 = h2 + seq![':'] + t4;
    let t2 = h3 + seq![':'] + t3;
    let t1 = p00 + seq![':'] + t2;
    let t0 = p02 + seq![':'] + t1;
    assert(mac_text(n) =~= t0);
    lemma_hex2_part(b3);
    lemma_hex2_part(b2);
    lemma_hex2_part(b1);
    lemma_hex2_part(b0);
    lemma_split_concat(h1, h0, ':');
    lemma_split_concat(h2, t4, ':');
    lemma_split_concat(h3, t3, ':');
    lemma_split_concat(p00, t2, ':');
    lemma_split_concat(p02, t1, ':');
    lemma_split_single(h0, ':');
    lemma_split_single(h1, ':');
    lemma_split_single(h2, ':');
    lemma_split_single(h3, ':');
    lemma_split_single(p00, ':');
    lemma_split_single(p02, ':');
    let parts = split(mac_text(n), ':');
    assert(parts =~= seq![p02, p00, h3, h2, h1, h0]);
    lemma_hex_value_of(0);
    lemma_hex_value_of(2);
    assert(mac_part(p02) == Some(2u8));
    assert(mac_part(p00) == Some(0u8));
    assert(mac_of(mac_text(n)).unwrap() =~= seq![2u8, 0u8, b3 as u8, b2 as u8, b1 as u8, b0 as u8]);
}

/// The text of an id: a prefix, the clock in hex, `-`, the counter in hex.
pub open spec fn id_text(prefix: Seq<char>, t: nat, s: nat) -> Seq<char> {
    prefix + hex(t) + "-"@ + hex(s)
}

/// Ids with the same prefix are equal only when both the clock and the
/// counter agree, so a counter that never repeats gives ids that never
/// repeat.
pub proof fn lemma_id_text_injective(prefix: Seq<char>, t1: nat, s1: nat, t2: nat, s2: nat)
    requires
        id_text(prefix, t1, s1) == id_text(prefix, t2, s2),
    ensures
        t1 == t2,
        s1 == s2,
{
    reveal_strlit("-");
    let x = id_text(prefix, t1, s1);
    let y = id_text(prefix, t2, s2);
    let p = prefix.len() as int;
    let l1 = hex(t1).len() as int;
    let l2 = hex(t2).len() as int;
    lemma_hex_chars(t1);
    lemma_hex_chars(t2);
    lemma_hex_len(t1);
    lemma_hex_len(t2);
    assert(x[p + l1] == '-');
    assert(y[p + l2] == '-');
    if l1 < l2 {
        assert(y[p + l1] == hex(t2)[l1]);
        assert(false);
    } else if l2 < l1 {
        assert(x[p + l2] == hex(t1)[l2]);
        assert(false);
    }
    assert(x.subrange(p, p + l1) =~= hex(t1));
    assert(y.subrange(p, p + l2) =~= hex(t2));
    lemma_hex_injective(t1, t2);
    assert(x.subrange(p + l1 + 1, x.len() as int) =~= hex(s1));
    assert(y.subrange(p + l2 + 1, y.len() as int) =~= hex(s2));
    lemma_hex_injective(s1, s2);
}

fn id_with_prefix(prefix: &str, seq: &mut u64) -> (r: String)
    ensures
        exists|t: nat| r@ == id_text(prefix@, t, *old(seq) as nat),
        *final(seq) == next_seq(*old(seq)),
{
    let t = now_nanos();
    let n = *seq;
    *seq = n.wrapping_add(1);
    let mut s = String::from_str(prefix);
    append_hex(&mut s, t);
    s.append("-");
    append_hex(&mut s, n as u128);
    proof {
        reveal_strlit("-");
        assert(s@ =~= id_text(prefix@, t as nat, n as nat));
    }
    s
}

/// A classroom id, `c-{clock:x}-{counter:x}`; advances the counter.
pub fn new_classroom_id(seq: &mut u64) -> (r: String)
    ensures
        exists|t: nat| r@ == id_text("c-"@, t, *old(seq) as nat),
        *final(seq) == next_seq(*old(seq)),
{
    id_with_prefix("c-", seq)
}

/// A connection id, `n-{clock:x}-{counter:x}`; advances the counter.
pub fn new_connection_id(seq: &mut u64) -> (r: String)
    ensures
        exists|t: nat| r@ == id_text("n-"@, t, *old(seq) as nat),
        *final(seq) == next_seq(*old(seq)),
{
    id_with_prefix("n-", seq)
}

/// A frame id, `f-{clock:x}-{counter:x}`; advances the counter.
pub fn new_frame_id(seq: &mut u64) -> (r: String)
    ensures
        exists|t: nat| r@ == id_text("f-"@, t, *old(seq) as nat),
        *final(seq) == next_seq(*old(seq)),
{
    id_with_prefix("f-", seq)
}

} // verus!
