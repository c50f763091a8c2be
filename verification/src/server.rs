//! The teacher server's rules around the classrooms: which classroom a
//! request is for, how a refusal is answered, and what its sockets do.

use vstd::prelude::*;
use crate::claims::UnbindError;
use crate::classroom::Classroom;
use crate::kinds::Mode;
use crate::sim::SimError;
use crate::talk::CommError;
use crate::text::str_eq;
use crate::topo::{opt_ref, opt_str};
use crate::wiring::{AttachError, PortError};

verus! {

/// How a refused request is answered: the HTTP status, a code and a message.
#[derive(Debug, Clone, Copy)]
pub struct ErrorReply {
    pub status: u16,
    pub code: &'static str,
    pub message: &'static str,
}

pub const BAD_REQUEST: u16 = 400;

pub const NOT_FOUND: u16 = 404;

pub const CONFLICT: u16 = 409;

/// A reply reads `(status, code, message)`.
pub open spec fn reply_is(r: ErrorReply, status: u16, code: Seq<char>, message: Seq<char>) -> bool {
    r.status == status && r.code@ == code && r.message@ == message
}

impl PortError {
    /// The answer to a refused port change.
    pub fn reply(self) -> (r: ErrorReply)
        ensures
            match self {
                PortError::NotOwner => reply_is(r, CONFLICT, "NOT_OWNER"@, "只能配置本角色端口"@),
                PortError::MaskFixed => reply_is(r, BAD_REQUEST, "MASK_FIXED"@, "子网掩码为 255.255.255.0"@),
                PortError::BadIp => reply_is(r, BAD_REQUEST, "BAD_IP"@, "IP 地址不正确"@),
                PortError::UnknownDevice => reply_is(r, NOT_FOUND, "NOT_FOUND"@, "设备不存在"@),
                PortError::UnknownPort => reply_is(r, NOT_FOUND, "NOT_FOUND"@, "端口不存在"@),
                PortError::UnknownPeer => reply_is(r, BAD_REQUEST, "BAD_REQUEST"@, "对端端口不存在"@),
                PortError::PortBusy => reply_is(r, CONFLICT, "PORT_BUSY"@, "端口已被占用"@),
            },
    {
        match self {
            PortError::NotOwner => ErrorReply { status: CONFLICT, code: "NOT_OWNER", message: "只能配置本角色端口" },
            PortError::MaskFixed => ErrorReply {
                status: BAD_REQUEST,
                code: "MASK_FIXED",
                message: "子网掩码为 255.255.255.0",
            },
            PortError::BadIp => ErrorReply { status: BAD_REQUEST, code: "BAD_IP", message: "IP 地址不正确" },
            PortError::UnknownDevice => ErrorReply { status: NOT_FOUND, code: "NOT_FOUND", message: "设备不存在" },
            PortError::UnknownPort => ErrorReply { status: NOT_FOUND, code: "NOT_FOUND", message: "端口不存在" },
            PortError::UnknownPeer => ErrorReply {
                status: BAD_REQUEST,
                code: "BAD_REQUEST",
                message: "对端端口不存在",
            },
            PortError::PortBusy => ErrorReply { status: CONFLICT, code: "PORT_BUSY", message: "端口已被占用" },
        }
    }
}

impl AttachError {
    /// The answer to a refused tap placement.
    pub fn reply(self) -> (r: ErrorReply)
        ensures
            match self {
                AttachError::UnknownTap => reply_is(r, NOT_FOUND, "NOT_FOUND"@, "特殊双口不存在"@),
                AttachError::NotTap => reply_is(r, BAD_REQUEST, "BAD_REQUEST"@, "该设备不是特殊双口"@),
                AttachError::UnknownPort => reply_is(r, BAD_REQUEST, "BAD_REQUEST"@, "端口不存在"@),
                AttachError::LinkNotUp => reply_is(r, CONFLICT, "LINK_NOT_UP"@, "目标链路未物理连通"@),
            },
    {
        match self {
            AttachError::UnknownTap => ErrorReply { status: NOT_FOUND, code: "NOT_FOUND", message: "特殊双口不存在" },
            AttachError::NotTap => ErrorReply {
                status: BAD_REQUEST,
                code: "BAD_REQUEST",
                message: "该设备不是特殊双口",
            },
            AttachError::UnknownPort => ErrorReply { status: BAD_REQUEST, code: "BAD_REQUEST", message: "端口不存在" },
            AttachError::LinkNotUp => ErrorReply {
                status: CONFLICT,
                code: "LINK_NOT_UP",
                message: "目标链路未物理连通",
            },
        }
    }
}

impl UnbindError {
    /// The answer to a refused release.
    pub fn reply(self) -> (r: ErrorReply)
        ensures
            match self {
                UnbindError::UnknownDevice => reply_is(r, NOT_FOUND, "NOT_FOUND"@, "设备不存在"@),
                UnbindError::NotClaimed => reply_is(r, CONFLICT, "NOT_CLAIMED"@, "该设备尚未绑定"@),
            },
    {
        match self {
            UnbindError::UnknownDevice => ErrorReply { status: NOT_FOUND, code: "NOT_FOUND", message: "设备不存在" },
            UnbindError::NotClaimed => ErrorReply { status: CONFLICT, code: "NOT_CLAIMED", message: "该设备尚未绑定" },
        }
    }
}

impl CommError {
    /// The answer to a refused chat message or ping.
    pub fn reply(self) -> (r: ErrorReply)
        ensures
            match self {
                CommError::NeedNormal => reply_is(r, CONFLICT, "NEED_NORMAL"@, "当前是模拟模式"@),
                CommError::NotPc => reply_is(r, CONFLICT, "NOT_OWNER"@, "仅 PC 可发送文字"@),
                CommError::NotPcOrRouter => reply_is(r, CONFLICT, "NOT_OWNER"@, "仅 PC 与路由器可 ping"@),
                CommError::Unreachable => reply_is(r, CONFLICT, "UNREACHABLE"@, "目标不可达"@),
                CommError::BadIp => reply_is(r, BAD_REQUEST, "BAD_IP"@, "IP 地址不正确"@),
                CommError::UnknownConn => reply_is(r, NOT_FOUND, "NOT_FOUND"@, "连接不存在"@),
            },
    {
        match self {
            CommError::NeedNormal => ErrorReply { status: CONFLICT, code: "NEED_NORMAL", message: "当前是模拟模式" },
            CommError::NotPc => ErrorReply { status: CONFLICT, code: "NOT_OWNER", message: "仅 PC 可发送文字" },
            CommError::NotPcOrRouter => ErrorReply {
                status: CONFLICT,
                code: "NOT_OWNER",
                message: "仅 PC 与路由器可 ping",
            },
            CommError::Unreachable => ErrorReply { status: CONFLICT, code: "UNREACHABLE", message: "目标不可达" },
            CommError::BadIp => ErrorReply { status: BAD_REQUEST, code: "BAD_IP", message: "IP 地址不正确" },
            CommError::UnknownConn => ErrorReply { status: NOT_FOUND, code: "NOT_FOUND", message: "连接不存在" },
        }
    }
}

impl SimError {
    /// The answer to a refused frame.
    pub fn reply(self) -> (r: ErrorReply)
        ensures
            match self {
                SimError::NeedSim => reply_is(r, CONFLICT, "NEED_SIM"@, "请先进入模拟模式"@),
                SimError::NotPc => reply_is(r, CONFLICT, "NOT_OWNER"@, "仅 PC 可组帧发送"@),
                SimError::Unreachable => reply_is(r, CONFLICT, "UNREACHABLE"@, "目标不可达"@),
                SimError::BadIp => reply_is(r, BAD_REQUEST, "BAD_IP"@, "IP 地址不正确"@),
                SimError::UnknownConn | SimError::UnknownFrame => reply_is(r, NOT_FOUND, "NOT_FOUND"@, "对象不存在"@),
                SimError::WrongPort => reply_is(r, CONFLICT, "WRONG_PORT"@, "端口不正确"@),
                SimError::NotHolder | SimError::NotForwarder => reply_is(
                    r,
                    CONFLICT,
                    "NOT_OWNER"@,
                    "只能转发本机上的帧"@,
                ),
                SimError::FrameLimit => reply_is(r, CONFLICT, "FRAME_LIMIT"@, "同时在途帧已达上限"@),
            },
    {
        match self {
            SimError::NeedSim => ErrorReply { status: CONFLICT, code: "NEED_SIM", message: "请先进入模拟模式" },
            SimError::NotPc => ErrorReply { status: CONFLICT, code: "NOT_OWNER", message: "仅 PC 可组帧发送" },
            SimError::Unreachable => ErrorReply { status: CONFLICT, code: "UNREACHABLE", message: "目标不可达" },
            SimError::BadIp => ErrorReply { status: BAD_REQUEST, code: "BAD_IP", message: "IP 地址不正确" },
            SimError::UnknownConn | SimError::UnknownFrame => ErrorReply {
                status: NOT_FOUND,
                code: "NOT_FOUND",
                message: "对象不存在",
            },
            SimError::WrongPort => ErrorReply { status: CONFLICT, code: "WRONG_PORT", message: "端口不正确" },
            SimError::NotHolder | SimError::NotForwarder => ErrorReply {
                status: CONFLICT,
                code: "NOT_OWNER",
                message: "只能转发本机上的帧",
            },
            SimError::FrameLimit => ErrorReply { status: CONFLICT, code: "FRAME_LIMIT", message: "同时在途帧已达上限" },
        }
    }
}

/// Classroom `i` is the current one: created last, and the last of those
/// created at that time.
pub open spec fn is_current(classes: Seq<Classroom>, i: int) -> bool {
    &&& 0 <= i < classes.len()
    &&& forall|j: int| 0 <= j < classes.len() ==> #[trigger] classes[j].created_at <= classes[i].created_at
    &&& forall|j: int| i < j < classes.len() ==> #[trigger] classes[j].created_at < classes[i].created_at
}

/// The classroom requests go to when they name none.
pub fn current_classroom(classes: &Vec<Classroom>) -> (r: Option<usize>)
    ensures
        match r {
            Some(i) => is_current(classes@, i as int),
            None => classes@.len() == 0,
        },
{
    if classes.len() == 0 {
        return None;
    }
    let mut best: usize = 0;
    let mut i: usize = 1;
    while i < classes.len()
        invariant
            1 <= i <= classes@.len(),
            best < i,
            forall|j: int| 0 <= j < i ==> #[trigger] classes@[j].created_at <= classes@[best as int].created_at,
            forall|j: int| best < j < i ==> #[trigger] classes@[j].created_at < classes@[best as int].created_at,
        decreases classes@.len() - i,
    {
        if classes[i].created_at >= classes[best].created_at {
            best = i;
        }
        i += 1;
    }
    Some(best)
}

/// Classroom `i` is named `id`.
pub open spec fn is_named(classes: Seq<Classroom>, id: Seq<char>, i: int) -> bool {
    0 <= i < classes.len() && classes[i].classroom_id@ == id
}

/// The classroom named `id`.
pub fn find_classroom(classes: &Vec<Classroom>, id: &str) -> (r: Option<usize>)
    ensures
        match r {
            Some(i) => is_named(classes@, id@, i as int),
            None => forall|i: int| 0 <= i < classes@.len() ==> !#[trigger] is_named(classes@, id@, i),
        },
{
    let mut i: usize = 0;
    while i < classes.len()
        invariant
            i <= classes@.len(),
            forall|j: int| 0 <= j < i ==> !#[trigger] is_named(classes@, id@, j),
        decreases classes@.len() - i,
    {
        if str_eq(classes[i].classroom_id.as_str(), id) {
            return Some(i);
        }
        i += 1;
    }
    None
}

/// The classroom a request is for: the one its header names, if that
/// exists, otherwise the current one.
pub fn classroom_for(classes: &Vec<Classroom>, named: Option<&str>) -> (r: Option<usize>)
    ensures
        match r {
            Some(i) => (opt_ref(named) is Some && is_named(classes@, opt_ref(named).unwrap(), i as int)) || (
            is_current(classes@, i as int) && (opt_ref(named) is Some ==> forall|j: int|
                0 <= j < classes@.len() ==> !#[trigger] is_named(classes@, opt_ref(named).unwrap(), j))),
            None => classes@.len() == 0,
        },
{
    if let Some(id) = named {
        if let Some(i) = find_classroom(classes, id) {
            return Some(i);
        }
    }
    current_classroom(classes)
}

/// The mode a new socket is greeted with: that of the classroom it names,
/// or normal where it names none that exists.
pub fn hello_mode(classes: &Vec<Classroom>, named: Option<&str>) -> (m: Mode)
    ensures
        match opt_ref(named) {
            Some(id) => (exists|i: int| #![trigger classes@[i]] is_named(classes@, id, i) && m == classes@[i].mode) || (
            m == Mode::Normal && forall|i: int| 0 <= i < classes@.len() ==> !#[trigger] is_named(classes@, id, i)),
            None => m == Mode::Normal,
        },
{
    if let Some(id) = named {
        if let Some(i) = find_classroom(classes, id) {
            let m = classes[i].mode;
            assert(is_named(classes@, id@, i as int) && m == classes@[i as int].mode);
            return m;
        }
    }
    Mode::Normal
}

/// What `serde_json` reads from a text: whether it is JSON at all, and the
/// string under `"event"`, if it has one.
pub uninterp spec fn json_event_of(text: Seq<char>) -> (bool, Option<Seq<char>>);

/// `serde_json::from_str` into a `Value`, then the string under `"event"`.
/// Nothing is claimed of JSON's grammar: the result is only named.
#[verifier::external_body]
fn read_json_event(text: &str) -> (r: (bool, Option<String>))
    ensures
        (r.0, opt_str(r.1)) == json_event_of(text@),
        r.1 is Some ==> r.0,
{
    match serde_json::from_str::<serde_json::Value>(text) {
        Ok(v) => (true, v.get("event").and_then(|e| e.as_str()).map(|s| s.to_string())),
        Err(_) => (false, None),
    }
}

/// A text message read off a socket: whether it is JSON, and its event.
#[derive(Debug)]
pub struct SocketText {
    pub is_json: bool,
    pub event: Option<String>,
}

/// Reads what a socket's text message says.
pub fn socket_text(text: &str) -> (r: SocketText)
    ensures
        (r.is_json, opt_str(r.event)) == json_event_of(text@),
{
    let (is_json, event) = read_json_event(text);
    SocketText { is_json, event }
}

/// What the teacher's socket loop saw.
#[derive(Debug)]
pub enum SocketEvent {
    /// A text message, read.
    Text(SocketText),
    /// Another kind of message.
    Other,
    /// The peer closed, the stream ended, or reading failed.
    Closed,
    /// Something to send to the peer.
    Outgoing,
    /// The server let go of this socket.
    Dropped,
}

/// What the teacher's socket loop does next.
#[derive(Debug, Clone, Copy, PartialEq, Eq, Structural)]
pub enum SocketAction {
    /// Mark the connection as heard from.
    Touch,
    /// Nothing.
    Ignore,
    /// Send the outgoing message.
    Send,
    /// Close the loop.
    Stop,
}

/// The teacher's socket: a heartbeat from a known connection marks it as
/// heard from; a close or failure ends the loop; outgoing messages go out.
pub fn socket_step(ev: &SocketEvent, has_connection: bool) -> (r: SocketAction)
    ensures
        r == match ev {
            SocketEvent::Text(t) => if opt_str(t.event) == Some("heartbeat"@) && has_connection {
                SocketAction::Touch
            } else {
                SocketAction::Ignore
            },
            SocketEvent::Other => SocketAction::Ignore,
            SocketEvent::Closed => SocketAction::Stop,
            SocketEvent::Outgoing => SocketAction::Send,
            SocketEvent::Dropped => SocketAction::Stop,
        },
{
    match ev {
        SocketEvent::Text(t) => {
            let beat = match &t.event {
                Some(e) => str_eq(e.as_str(), "heartbeat"),
                None => false,
            };
            if beat && has_connection {
                SocketAction::Touch
            } else {
                SocketAction::Ignore
            }
        },
        SocketEvent::Other => SocketAction::Ignore,
        SocketEvent::Closed => SocketAction::Stop,
        SocketEvent::Outgoing => SocketAction::Send,
        SocketEvent::Dropped => SocketAction::Stop,
    }
}

/// What the student's socket loop saw.
#[derive(Debug)]
pub enum ClientEvent {
    /// The time to listen is over.
    Deadline,
    /// A text message, read.
    Text(SocketText),
    /// Another kind of message.
    Other,
    /// The teacher closed, or the stream ended.
    Closed,
    /// Reading failed.
    Failed,
    /// Time for a heartbeat.
    Tick,
}

/// What the student's socket loop does next.
#[derive(Debug, Clone, Copy, PartialEq, Eq, Structural)]
pub enum ClientAction {
    /// Close the socket and finish with what was heard.
    CloseAndFinish,
    /// Keep the message and go on.
    Keep,
    /// Keep the message and finish: the classroom is full.
    KeepAndFinish,
    /// Nothing.
    Ignore,
    /// Finish with what was heard.
    Finish,
    /// Finish with an error.
    Fail,
    /// Send a heartbeat.
    Heartbeat,
}

/// The student's socket: JSON messages are kept, and a `claim.full` one
/// ends the session; a close ends it, a failure is an error.
pub fn client_step(ev: &ClientEvent) -> (r: ClientAction)
    ensures
        r == match ev {
            ClientEvent::Deadline => ClientAction::CloseAndFinish,
            ClientEvent::Text(t) => if !t.is_json {
                ClientAction::Ignore
            } else if opt_str(t.event) == Some("claim.full"@) {
                ClientAction::KeepAndFinish
            } else {
                ClientAction::Keep
            },
            ClientEvent::Other => ClientAction::Ignore,
            ClientEvent::Closed => ClientAction::Finish,
            ClientEvent::Failed => ClientAction::Fail,
            ClientEvent::Tick => ClientAction::Heartbeat,
        },
{
    match ev {
        ClientEvent::Deadline => ClientAction::CloseAndFinish,
        ClientEvent::Text(t) => {
            if !t.is_json {
                ClientAction::Ignore
            } else {
                let full = match &t.event {
                    Some(e) => str_eq(e.as_str(), "claim.full"),
                    None => false,
                };
                if full {
                    ClientAction::KeepAndFinish
                } else {
                    ClientAction::Keep
                }
            }
        },
        ClientEvent::Other => ClientAction::Ignore,
        ClientEvent::Closed => ClientAction::Finish,
        ClientEvent::Failed => ClientAction::Fail,
        ClientEvent::Tick => ClientAction::Heartbeat,
    }
}

/// Some classroom knows connection `cid`, last heard from at `at`; the
/// first such classroom is the one asked.
pub open spec fn seen_at(classes: Seq<Classroom>, cid: Seq<char>, k: int, at: i64) -> bool {
    &&& 0 <= k < classes.len()
    &&& crate::classroom::conn_index(classes[k].connections@, cid) >= 0
    &&& classes[k].connections@[crate::classroom::conn_index(classes[k].connections@, cid)].last_seen == at
    &&& forall|k2: int| 0 <= k2 < k ==> crate::classroom::conn_index(#[trigger] classes[k2].connections@, cid) < 0
}

/// When connection `cid` was last heard from, in the first classroom that
/// knows it.
pub fn last_seen(classes: &Vec<Classroom>, cid: &str) -> (r: Option<i64>)
    requires
        forall|k: int| 0 <= k < classes@.len() ==> (#[trigger] classes@[k]).wf(),
    ensures
        match r {
            Some(at) => exists|k: int| #![trigger classes@[k]] seen_at(classes@, cid@, k, at),
            None => forall|k: int|
                0 <= k < classes@.len() ==> crate::classroom::conn_index(#[trigger] classes@[k].connections@, cid@) < 0,
        },
{
    let mut k: usize = 0;
    while k < classes.len()
        invariant
            k <= classes@.len(),
            forall|k2: int| 0 <= k2 < classes@.len() ==> (#[trigger] classes@[k2]).wf(),
            forall|k2: int| 0 <= k2 < k ==> crate::classroom::conn_index(#[trigger] classes@[k2].connections@, cid@) < 0,
        decreases classes@.len() - k,
    {
        assert(classes@[k as int].wf());
        match crate::classroom::find_conn(&classes[k].connections, cid) {
            Some(c) => {
                let at = classes[k].connections[c].last_seen;
                assert(seen_at(classes@, cid@, k as int, at));
                return Some(at);
            },
            None => {},
        }
        k += 1;
    }
    None
}

} // verus!
