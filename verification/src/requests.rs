//! What clients send the teacher's server, as plain values.

use vstd::prelude::*;
use crate::inventory::Inventory;
use crate::kinds::{ClientKind, Mode};

verus! {

/// The teacher creates a classroom.
#[derive(Debug)]
pub struct CreateClassroomRequest {
    pub title: String,
    pub inventory: Inventory,
}

/// A student joins, possibly reconnecting under an earlier connection id.
#[derive(Debug)]
pub struct JoinRequest {
    pub client_kind: ClientKind,
    pub connection_id: Option<String>,
    pub nic_mac: Option<String>,
}

/// The teacher places a tap on a link.
#[derive(Debug)]
pub struct TapAttachRequest {
    pub link: TapAttachLink,
}

/// The two ends of the link a tap goes on.
#[derive(Debug)]
pub struct TapAttachLink {
    pub port_a: String,
    pub port_b: String,
}

/// A chat message to an address.
#[derive(Debug)]
pub struct ChatRequest {
    pub to_ip: String,
    pub text: String,
}

/// A ping to an address.
#[derive(Debug)]
pub struct PingRequest {
    pub to_ip: String,
}

/// The teacher switches mode.
#[derive(Debug)]
pub struct ModeRequest {
    pub mode: Mode,
}

/// A frame to build and send.
#[derive(Debug)]
pub struct SimSendRequest {
    pub to_ip: String,
    pub text: String,
}

/// The port to forward a frame out of.
#[derive(Debug)]
pub struct ForwardRequest {
    pub out_port_id: String,
}

} // verus!
