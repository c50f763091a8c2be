//! The standalone student client's rules: which network card address it
//! offers, and where its WebSocket goes.

use vstd::prelude::*;
use crate::addr::{is_unicast_mac, unicast_spec};
use crate::text::{lemma_lt_irreflexive, lemma_lt_total, lemma_lt_transitive, seq_le, str_eq, str_lt};
use crate::topo::opt_ref;
use vstd::string::{StrSliceExecFns, StringExecFns};

verus! {

/// Where the teacher is, and what the student may already know of itself.
#[derive(Debug, Clone)]
pub struct StudentConfig {
    pub teacher_base: String,
    pub nic_mac: Option<String>,
    pub connection_id: Option<String>,
}

/// The all-zero address a card reports when it has none.
pub const ZERO_MAC: &'static str = "00:00:00:00:00:00";

/// Refusal of an address given by hand.
pub const MSG_NOT_UNICAST: &'static str = "nic_mac 不是单播 MAC";

/// Refusal when no card has a usable address.
pub const MSG_NO_NIC: &'static str = "未找到本机单播网卡 MAC，可用 PAPERNET_NIC_MAC 指定";

/// `s` starts with `p`.
pub fn has_prefix(s: &str, p: &str) -> (r: bool)
    ensures
        r == p@.is_prefix_of(s@),
{
    let ls = s.unicode_len();
    let lp = p.unicode_len();
    if lp > ls {
        return false;
    }
    let head = s.substring_char(0, lp);
    str_eq(head, p)
}

/// Interfaces that are no real network card: loopback, containers, bridges.
pub open spec fn skipped_iface(name: Seq<char>) -> bool {
    ||| name == "lo"@
    ||| "lo:"@.is_prefix_of(name)
    ||| "docker"@.is_prefix_of(name)
    ||| "veth"@.is_prefix_of(name)
    ||| "br-"@.is_prefix_of(name)
    ||| "virbr"@.is_prefix_of(name)
}

pub fn skip_iface(name: &str) -> (r: bool)
    ensures
        r == skipped_iface(name@),
{
    str_eq(name, "lo") || has_prefix(name, "lo:") || has_prefix(name, "docker") || has_prefix(name, "veth")
        || has_prefix(name, "br-") || has_prefix(name, "virbr")
}

/// Unicode white space, as `char::is_whitespace` defines it.
pub open spec fn is_white_space(c: char) -> bool {
    ||| ('\u{9}' <= c && c <= '\u{d}')
    ||| c == ' '
    ||| c == '\u{85}'
    ||| c == '\u{a0}'
    ||| c == '\u{1680}'
    ||| ('\u{2000}' <= c && c <= '\u{200a}')
    ||| c == '\u{2028}'
    ||| c == '\u{2029}'
    ||| c == '\u{202f}'
    ||| c == '\u{205f}'
    ||| c == '\u{3000}'
}

fn white_space(c: char) -> (r: bool)
    ensures
        r == is_white_space(c),
{
    ('\u{9}' <= c && c <= '\u{d}') || c == ' ' || c == '\u{85}' || c == '\u{a0}' || c == '\u{1680}' || ('\u{2000}'
        <= c && c <= '\u{200a}') || c == '\u{2028}' || c == '\u{2029}' || c == '\u{202f}' || c == '\u{205f}' || c
        == '\u{3000}'
}

/// `t` is `s` without leading and trailing white space.
pub open spec fn trims_to(s: Seq<char>, t: Seq<char>) -> bool {
    exists|i: int, j: int|
        0 <= i <= j <= s.len() && t == #[trigger] s.subrange(i, j) && (forall|k: int|
            0 <= k < i ==> is_white_space(#[trigger] s[k])) && (forall|k: int|
            j <= k < s.len() ==> is_white_space(#[trigger] s[k])) && (i < j ==> !is_white_space(s[i])
            && !is_white_space(s[j - 1]))
}

/// `s` without leading and trailing white space.
pub fn trim(s: &str) -> (r: &str)
    ensures
        trims_to(s@, r@),
{
    let n = s.unicode_len();
    let mut i: usize = 0;
    while i < n && white_space(s.get_char(i))
        invariant
            i <= n,
            n == s@.len(),
            forall|k: int| 0 <= k < i ==> is_white_space(#[trigger] s@[k]),
        decreases n - i,
    {
        i += 1;
    }
    let mut j: usize = n;
    while j > i && white_space(s.get_char(j - 1))
        invariant
            i <= j <= n,
            n == s@.len(),
            forall|k: int| j <= k < n ==> is_white_space(#[trigger] s@[k]),
        decreases j - i,
    {
        j -= 1;
    }
    let r = s.substring_char(i, j);
    proof {
        assert(r@ == s@.subrange(i as int, j as int));
    }
    r
}

/// What `str::to_lowercase` gives for a text.
pub uninterp spec fn lowercase_of(s: Seq<char>) -> Seq<char>;

/// `str::to_lowercase`: the text with every character in lower case, by
/// Unicode's rules.  The result is named, not spelled out.
#[verifier::external_body]
fn to_lowercase(s: &str) -> (r: String)
    ensures
        r@ == lowercase_of(s@),
{
    s.to_lowercase()
}

/// The address a card or a person gives, as the classroom reads it:
/// without surrounding white space, in lower case.
pub fn normalize_mac(raw: &str) -> (r: String)
    ensures
        exists|t: Seq<char>| trims_to(raw@, t) && r@ == lowercase_of(t),
{
    to_lowercase(trim(raw))
}

/// An address may be offered when it is unicast and not all zero.
pub open spec fn usable_mac(mac: Seq<char>) -> bool {
    unicast_spec(mac) && mac != ZERO_MAC@
}

/// Accepts an address given by hand once it reads as a usable one.
pub fn accept_nic_mac(mac: String) -> (r: Result<String, String>)
    ensures
        usable_mac(mac@) ==> r == Ok::<String, String>(mac),
        !usable_mac(mac@) ==> (r matches Err(e) && e@ == MSG_NOT_UNICAST@),
{
    if is_unicast_mac(mac.as_str()) && !str_eq(mac.as_str(), ZERO_MAC) {
        Ok(mac)
    } else {
        Err(String::from_str(MSG_NOT_UNICAST))
    }
}

/// The address a person gave, checked: white space around it dropped, in
/// lower case, and usable.
pub fn resolve_given_mac(given: &str) -> (r: Result<String, String>)
    ensures
        exists|t: Seq<char>|
            trims_to(given@, t) && if usable_mac(lowercase_of(t)) {
                r matches Ok(m) && m@ == lowercase_of(t)
            } else {
                r matches Err(e) && e@ == MSG_NOT_UNICAST@
            },
{
    accept_nic_mac(normalize_mac(given))
}

/// A card, by name, with the address it reports.
pub open spec fn card_address(raw: Seq<char>, mac: Seq<char>) -> bool {
    exists|t: Seq<char>| trims_to(raw, t) && mac == lowercase_of(t)
}

/// Card `k` is one to take: a real card reporting a usable address.
pub open spec fn card_usable(cards: Seq<(String, String)>, k: int) -> bool {
    !skipped_iface(cards[k].0@) && exists|m: Seq<char>| #[trigger] card_address(cards[k].1@, m) && usable_mac(m)
}

/// Card `k` comes first in name order among the usable cards: no usable
/// card has a smaller name, and none before it has the same name.
pub open spec fn first_by_name(cards: Seq<(String, String)>, k: int, n: int) -> bool {
    forall|j: int|
        0 <= j < n && #[trigger] card_usable(cards, j) ==> seq_le(cards[k].0@, cards[j].0@) && (j < k
            ==> cards[j].0@ != cards[k].0@)
}

/// Picks the address of the first card in name order (among cards of the
/// same name, the first given) that is a real card reporting a usable
/// address.
pub fn pick_nic_mac(cards: &Vec<(String, String)>) -> (r: Result<String, String>)
    ensures
        match r {
            Ok(m) => exists|k: int|
                0 <= k < cards@.len() && #[trigger] card_usable(cards@, k) && card_address(cards@[k].1@, m@)
                    && usable_mac(m@) && first_by_name(cards@, k, cards@.len() as int),
            Err(e) => e@ == MSG_NO_NIC@ && forall|j: int| 0 <= j < cards@.len() ==> !#[trigger] card_usable(cards@, j),
        },
{
    let mut best: Option<(usize, String)> = None;
    let mut k: usize = 0;
    while k < cards.len()
        invariant
            k <= cards@.len(),
            match best {
                None => forall|j: int| 0 <= j < k ==> !#[trigger] card_usable(cards@, j),
                Some((b, m)) => {
                    &&& b < k
                    &&& card_usable(cards@, b as int)
                    &&& card_address(cards@[b as int].1@, m@)
                    &&& usable_mac(m@)
                    &&& first_by_name(cards@, b as int, k as int)
                },
            },
        decreases cards@.len() - k,
    {
        let name = &cards[k].0;
        let mut usable = false;
        if !skip_iface(name.as_str()) {
            let mac = normalize_mac(cards[k].1.as_str());
            if is_unicast_mac(mac.as_str()) && !str_eq(mac.as_str(), ZERO_MAC) {
                proof {
                    let t = choose|t: Seq<char>| trims_to(cards@[k as int].1@, t) && mac@ == lowercase_of(t);
                    assert(card_address(cards@[k as int].1@, mac@));
                    assert(card_usable(cards@, k as int));
                }
                usable = true;
                let better = match &best {
                    None => true,
                    Some((b, _)) => str_lt(name.as_str(), cards[*b].0.as_str()),
                };
                if better {
                    proof {
                        if let Some((b, _)) = best {
                            let nb = cards@[b as int].0@;
                            let nk = cards@[k as int].0@;
                            assert forall|j: int| 0 <= j < k + 1 && #[trigger] card_usable(cards@, j) implies seq_le(
                                nk,
                                cards@[j].0@,
                            ) && (j < k ==> cards@[j].0@ != nk) by {
                                if j < k {
                                    let nj = cards@[j].0@;
                                    assert(seq_le(nb, nj));
                                    if nb == nj {
                                    } else {
                                        lemma_lt_transitive(nk, nb, nj);
                                    }
                                    lemma_lt_irreflexive(nj);
                                }
                            }
                        }
                    }
                    best = Some((k, mac));
                } else {
                    proof {
                        if let Some((b, _)) = best {
                            let nb = cards@[b as int].0@;
                            let nk = cards@[k as int].0@;
                            lemma_lt_total(nb, nk);
                            assert(first_by_name(cards@, b as int, k + 1));
                        }
                    }
                }
            } else {
                proof {
                    assert forall|m: Seq<char>| #[trigger] card_address(cards@[k as int].1@, m) implies !usable_mac(
                        m,
                    ) by {
                        let t1 = choose|t: Seq<char>| trims_to(cards@[k as int].1@, t) && mac@ == lowercase_of(t);
                        let t2 = choose|t: Seq<char>| trims_to(cards@[k as int].1@, t) && m == lowercase_of(t);
                        lemma_trim_unique(cards@[k as int].1@, t1, t2);
                    }
                }
            }
        }
        proof {
            if !usable {
                assert(!card_usable(cards@, k as int));
                if let Some((b, _)) = best {
                    assert(first_by_name(cards@, b as int, k + 1));
                }
            }
        }
        k += 1;
    }
    match best {
        Some((_, m)) => Ok(m),
        None => Err(String::from_str(MSG_NO_NIC)),
    }
}

/// What the teacher answered a join, as the student reads it.
#[derive(Debug, Clone)]
pub struct JoinReply {
    pub ok: bool,
    pub status: String,
    pub connection_id: Option<String>,
    pub message: Option<String>,
}

/// Reads the fields of a join answer: a refused join is taken as `full`
/// unless it says otherwise and carries no connection id, its message
/// being the error's; an accepted one has an empty status unless it says
/// one, and the message of its data.
pub fn read_join_reply(
    ok: bool,
    status: Option<String>,
    connection_id: Option<String>,
    data_message: Option<String>,
    error_message: Option<String>,
) -> (r: JoinReply)
    ensures
        r.ok == ok,
        r.status@ == match status {
            Some(s) => s@,
            None => if ok {
                Seq::<char>::empty()
            } else {
                "full"@
            },
        },
        r.connection_id == if ok {
            connection_id
        } else {
            None
        },
        r.message == if ok {
            data_message
        } else {
            error_message
        },
{
    let status = match status {
        Some(s) => s,
        None => if ok {
            String::new()
        } else {
            String::from_str("full")
        },
    };
    if ok {
        JoinReply { ok, status, connection_id, message: data_message }
    } else {
        JoinReply { ok, status, connection_id: None, message: error_message }
    }
}

/// A text trims to one text only.
pub proof fn lemma_trim_unique(s: Seq<char>, t1: Seq<char>, t2: Seq<char>)
    requires
        trims_to(s, t1),
        trims_to(s, t2),
    ensures
        t1 == t2,
{
    let (i1, j1) = choose|i: int, j: int|
        0 <= i <= j <= s.len() && t1 == #[trigger] s.subrange(i, j) && (forall|k: int|
            0 <= k < i ==> is_white_space(#[trigger] s[k])) && (forall|k: int|
            j <= k < s.len() ==> is_white_space(#[trigger] s[k])) && (i < j ==> !is_white_space(s[i])
            && !is_white_space(s[j - 1]));
    let (i2, j2) = choose|i: int, j: int|
        0 <= i <= j <= s.len() && t2 == #[trigger] s.subrange(i, j) && (forall|k: int|
            0 <= k < i ==> is_white_space(#[trigger] s[k])) && (forall|k: int|
            j <= k < s.len() ==> is_white_space(#[trigger] s[k])) && (i < j ==> !is_white_space(s[i])
            && !is_white_space(s[j - 1]));
    if i1 < j1 && i2 < j2 {
        if i1 < i2 {
            assert(is_white_space(s[i1]));
        } else if i2 < i1 {
            assert(is_white_space(s[i2]));
        }
        if j1 < j2 {
            assert(is_white_space(s[j1]));
            assert(is_white_space(s[j2 - 1]));
        } else if j2 < j1 {
            assert(is_white_space(s[j2]));
            assert(is_white_space(s[j1 - 1]));
        }
    } else if i1 < j1 {
        // the second is empty: every character is white space
        if i2 <= i1 {
            assert(is_white_space(s[i1])) by {
                assert(j2 <= i1 || i1 < i2);
            }
        } else {
            assert(is_white_space(s[i1]));
        }
    } else if i2 < j2 {
        if i1 <= i2 {
            assert(is_white_space(s[i2])) by {
                assert(j1 <= i2 || i2 < i1);
            }
        } else {
            assert(is_white_space(s[i2]));
        }
    }
    assert(t1 =~= t2);
}

/// `s` without its trailing slashes.
pub open spec fn trim_slashes(s: Seq<char>) -> Seq<char>
    decreases s.len(),
{
    if s.len() > 0 && s.last() == '/' {
        trim_slashes(s.drop_last())
    } else {
        s
    }
}

/// The WebSocket base for an HTTP base: `https://` becomes `wss://`,
/// `http://` becomes `ws://`, and a bare host gets `ws://`.
pub open spec fn ws_base(base: Seq<char>) -> Seq<char> {
    if "https://"@.is_prefix_of(base) {
        "wss://"@ + base.skip(8)
    } else if "http://"@.is_prefix_of(base) {
        "ws://"@ + base.skip(7)
    } else {
        "ws://"@ + base
    }
}

/// The classroom WebSocket address for a connection.
pub open spec fn ws_url_spec(http_base: Seq<char>, classroom_id: Option<Seq<char>>, connection_id: Seq<char>) -> Seq<
    char,
> {
    let ws = ws_base(trim_slashes(http_base));
    if classroom_id is Some && classroom_id.unwrap().len() > 0 {
        ws + "/ws?classroom_id="@ + classroom_id.unwrap() + "&connection_id="@ + connection_id
    } else {
        ws + "/ws?connection_id="@ + connection_id
    }
}

pub fn ws_url(http_base: &str, classroom_id: Option<&str>, connection_id: &str) -> (r: String)
    ensures
        r@ == ws_url_spec(http_base@, opt_ref(classroom_id), connection_id@),
{
    let n = http_base.unicode_len();
    let mut k: usize = n;
    assert(http_base@.take(n as int) =~= http_base@);
    while k > 0 && http_base.get_char(k - 1) == '/'
        invariant
            k <= n,
            n == http_base@.len(),
            trim_slashes(http_base@) == trim_slashes(http_base@.take(k as int)),
        decreases k,
    {
        assert(http_base@.take(k as int).drop_last() =~= http_base@.take(k - 1));
        k -= 1;
    }
    let base = http_base.substring_char(0, k);
    proof {
        assert(base@ =~= http_base@.take(k as int));
        assert(trim_slashes(base@) == base@);
        reveal_strlit("https://");
        reveal_strlit("http://");
    }
    let bl = base.unicode_len();
    let mut out = if has_prefix(base, "https://") {
        let mut w = String::from_str("wss://");
        w.append(base.substring_char(8, bl));
        assert(base@.skip(8) =~= base@.subrange(8, bl as int));
        w
    } else if has_prefix(base, "http://") {
        let mut w = String::from_str("ws://");
        w.append(base.substring_char(7, bl));
        assert(base@.skip(7) =~= base@.subrange(7, bl as int));
        w
    } else {
        let mut w = String::from_str("ws://");
        w.append(base);
        w
    };
    let with_class = match classroom_id {
        Some(c) => c.unicode_len() > 0,
        None => false,
    };
    if with_class {
        out.append("/ws?classroom_id=");
        match classroom_id {
            Some(c) => out.append(c),
            None => {},
        }
        out.append("&connection_id=");
        out.append(connection_id);
    } else {
        out.append("/ws?connection_id=");
        out.append(connection_id);
    }
    out
}

} // verus!
