//! The small closed vocabularies of a classroom: claim state, mode, device
//! kind and client kind, with their wire names.

use vstd::prelude::*;
use crate::text::str_eq;
use vstd::string::StringExecFns;

verus! {

/// Whether students may claim devices yet.
#[derive(Debug, Clone, Copy, PartialEq, Eq, Structural)]
pub enum ClaimState {
    Draft,
    Open,
    Full,
}

/// Normal chat/ping mode, or hop-by-hop frame simulation.
#[derive(Debug, Clone, Copy, PartialEq, Eq, Structural)]
pub enum Mode {
    Normal,
    Simulation,
}

#[derive(Debug, Clone, Copy, PartialEq, Eq, Structural)]
pub enum DeviceKind {
    Router,
    Switch,
    Pc,
    Tap,
}

#[derive(Debug, Clone, Copy, PartialEq, Eq, Structural)]
pub enum ClientKind {
    Teacher,
    StudentStandalone,
    StudentHosted,
}

pub open spec fn claim_state_name(c: ClaimState) -> Seq<char> {
    match c {
        ClaimState::Draft => "draft"@,
        ClaimState::Open => "open"@,
        ClaimState::Full => "full"@,
    }
}

pub open spec fn mode_name(m: Mode) -> Seq<char> {
    match m {
        Mode::Normal => "normal"@,
        Mode::Simulation => "simulation"@,
    }
}

pub open spec fn device_kind_name(k: DeviceKind) -> Seq<char> {
    match k {
        DeviceKind::Router => "router"@,
        DeviceKind::Switch => "switch"@,
        DeviceKind::Pc => "pc"@,
        DeviceKind::Tap => "tap"@,
    }
}

pub open spec fn client_kind_name(k: ClientKind) -> Seq<char> {
    match k {
        ClientKind::Teacher => "teacher"@,
        ClientKind::StudentStandalone => "student-standalone"@,
        ClientKind::StudentHosted => "student-hosted"@,
    }
}

impl ClaimState {
    pub fn as_str(self) -> (r: &'static str)
        ensures
            r@ == claim_state_name(self),
    {
        match self {
            ClaimState::Draft => "draft",
            ClaimState::Open => "open",
            ClaimState::Full => "full",
        }
    }
}

impl Mode {
    pub fn as_str(self) -> (r: &'static str)
        ensures
            r@ == mode_name(self),
    {
        match self {
            Mode::Normal => "normal",
            Mode::Simulation => "simulation",
        }
    }
}

impl DeviceKind {
    pub fn as_str(self) -> (r: &'static str)
        ensures
            r@ == device_kind_name(self),
    {
        match self {
            DeviceKind::Router => "router",
            DeviceKind::Switch => "switch",
            DeviceKind::Pc => "pc",
            DeviceKind::Tap => "tap",
        }
    }
}

impl ClientKind {
    pub fn as_str(self) -> (r: &'static str)
        ensures
            r@ == client_kind_name(self),
    {
        match self {
            ClientKind::Teacher => "teacher",
            ClientKind::StudentStandalone => "student-standalone",
            ClientKind::StudentHosted => "student-hosted",
        }
    }

    pub fn is_student(self) -> (r: bool)
        ensures
            r == (self is StudentStandalone || self is StudentHosted),
    {
        match self {
            ClientKind::Teacher => false,
            _ => true,
        }
    }
}

/// Reads a stored claim state back; anything but the three names is refused.
pub fn parse_claim(s: &str) -> (r: Result<ClaimState, String>)
    ensures
        r is Ok <==> (s@ == "draft"@ || s@ == "open"@ || s@ == "full"@),
        r matches Ok(c) ==> claim_state_name(c) == s@,
        r matches Err(e) ==> e@ == "unknown claim_state "@ + s@,
{
    if str_eq(s, "draft") {
        Ok(ClaimState::Draft)
    } else if str_eq(s, "open") {
        Ok(ClaimState::Open)
    } else if str_eq(s, "full") {
        Ok(ClaimState::Full)
    } else {
        let mut e = String::from_str("unknown claim_state ");
        e.append(s);
        Err(e)
    }
}

/// Reads a stored mode back; anything but the two names is refused.
pub fn parse_mode(s: &str) -> (r: Result<Mode, String>)
    ensures
        r is Ok <==> (s@ == "normal"@ || s@ == "simulation"@),
        r matches Ok(m) ==> mode_name(m) == s@,
        r matches Err(e) ==> e@ == "unknown mode "@ + s@,
{
    if str_eq(s, "normal") {
        Ok(Mode::Normal)
    } else if str_eq(s, "simulation") {
        Ok(Mode::Simulation)
    } else {
        let mut e = String::from_str("unknown mode ");
        e.append(s);
        Err(e)
    }
}

/// Reads a stored device kind back; anything but the four names is refused.
pub fn parse_kind(s: &str) -> (r: Result<DeviceKind, String>)
    ensures
        r is Ok <==> (s@ == "router"@ || s@ == "switch"@ || s@ == "pc"@ || s@ == "tap"@),
        r matches Ok(k) ==> device_kind_name(k) == s@,
        r matches Err(e) ==> e@ == "unknown device kind "@ + s@,
{
    if str_eq(s, "router") {
        Ok(DeviceKind::Router)
    } else if str_eq(s, "switch") {
        Ok(DeviceKind::Switch)
    } else if str_eq(s, "pc") {
        Ok(DeviceKind::Pc)
    } else if str_eq(s, "tap") {
        Ok(DeviceKind::Tap)
    } else {
        let mut e = String::from_str("unknown device kind ");
        e.append(s);
        Err(e)
    }
}

/// Distinct device kinds have distinct wire names, so a stored kind reads
/// back as itself.
pub proof fn lemma_device_kind_names_distinct(a: DeviceKind, b: DeviceKind)
    requires
        device_kind_name(a) == device_kind_name(b),
    ensures
        a == b,
{
    reveal_strlit("router");
    reveal_strlit("switch");
    reveal_strlit("pc");
    reveal_strlit("tap");
    let na = device_kind_name(a);
    let nb = device_kind_name(b);
    assert(na.len() == nb.len());
    assert(na[0] == nb[0]);
    match a {
        DeviceKind::Router => {
            assert(na[0] == 'r');
        },
        DeviceKind::Switch => {
            assert(na[0] == 's');
        },
        DeviceKind::Pc => {
            assert(na[0] == 'p');
        },
        DeviceKind::Tap => {
            assert(na[0] == 't');
        },
    }
}

/// Distinct claim states have distinct wire names.
pub proof fn lemma_claim_state_names_distinct(a: ClaimState, b: ClaimState)
    requires
        claim_state_name(a) == claim_state_name(b),
    ensures
        a == b,
{
    reveal_strlit("draft");
    reveal_strlit("open");
    reveal_strlit("full");
    let na = claim_state_name(a);
    let nb = claim_state_name(b);
    assert(na[0] == nb[0]);
    match a {
        ClaimState::Draft => {
            assert(na[0] == 'd');
        },
        ClaimState::Open => {
            assert(na[0] == 'o');
        },
        ClaimState::Full => {
            assert(na[0] == 'f');
        },
    }
}

/// Distinct modes have distinct wire names.
pub proof fn lemma_mode_names_distinct(a: Mode, b: Mode)
    requires
        mode_name(a) == mode_name(b),
    ensures
        a == b,
{
    reveal_strlit("normal");
    reveal_strlit("simulation");
    let na = mode_name(a);
    let nb = mode_name(b);
    assert(na[0] == nb[0]);
    match a {
        Mode::Normal => {
            assert(na[0] == 'n');
        },
        Mode::Simulation => {
            assert(na[0] == 's');
        },
    }
}

} // verus!
