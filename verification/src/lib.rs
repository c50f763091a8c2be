//! PaperNet: the rules of a tabletop network-simulation classroom.
//!
//! Devices (routers, switches, PCs and taps) are handed out to students,
//! cabled together port by port, and frames are walked hop by hop.  This
//! crate holds the addressing rules, the topology tables, reachability and
//! forwarding, and the classroom state machine that the servers drive.

pub mod text;
pub mod kinds;
pub mod topo;
pub mod sorting;
pub mod addr;
pub mod clock;
pub mod ids;
pub mod inventory;
pub mod reach;
pub mod arp;
pub mod frame;
pub mod classroom;
mod random;
pub mod claims;
pub mod wiring;
pub mod talk;
pub mod sim;
pub mod student;
pub mod requests;
pub mod snapshot;
pub mod server;
pub mod store;
pub mod laws;
pub mod address_laws;
