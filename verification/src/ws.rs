use vstd::prelude::*;
use crate::codec;

verus! {

/// Seconds of silence after which a connection counts as dead.
pub const PING_TTL_SECONDS: u64 = 30;

/// How often the liveness check runs.
pub const RUN_INTERVAL_SEC: u64 = 15;

/// A command a client sends over its socket.
#[derive(Debug, Clone, PartialEq, Eq)]
pub enum WsCommand {
    Subscribe { topic: String, request_id: String },
    Unsubscribe { topic: String, request_id: String },
    Ping,
}

/// The mathematical shape of a client command.
pub enum SpecWsCommand {
    Subscribe { topic: Seq<char>, request_id: Seq<char> },
    Unsubscribe { topic: Seq<char>, request_id: Seq<char> },
    Ping,
}

impl View for WsCommand {
    type V = SpecWsCommand;

    open spec fn view(&self) -> SpecWsCommand {
        match self {
            WsCommand::Subscribe { topic, request_id } => SpecWsCommand::Subscribe {
                topic: topic@,
                request_id: request_id@,
            },
            WsCommand::Unsubscribe { topic, request_id } => SpecWsCommand::Unsubscribe {
                topic: topic@,
                request_id: request_id@,
            },
            WsCommand::Ping => SpecWsCommand::Ping,
        }
    }
}

/// A frame the dispatcher asks a socket to carry to its client.
#[derive(Debug, Clone, PartialEq, Eq)]
pub enum WsMessage {
    Text(String),
    Subscription { topic: String, request_id: String, subscribed: bool },
}

/// What arrived on the socket, reduced to plain values.
#[derive(Debug, Clone, PartialEq, Eq)]
pub enum InboundFrame {
    Ping(Vec<u8>),
    Text(String),
    Close,
    Other,
}

/// What the connection handler decides to do with one inbound frame.
#[derive(Debug, Clone, PartialEq, Eq)]
pub enum FrameAction {
    /// Answer a protocol ping (or a Ping command) with a pong.
    Pong(Vec<u8>),
    /// Hand the command to the dispatcher under this socket's id.
    Dispatch(WsCommand),
    /// The text was no known command: release the socket's subscriptions
    /// and close the transport with an invalid-data code.
    CloseInvalid,
    /// The peer closed: release the socket's subscriptions and close.
    ClosePeer,
    /// Nothing to do.
    Ignore,
}

/// A connection is expired when more than the TTL passed since its last
/// activity.
pub open spec fn spec_expired(last: u64, now: u64) -> bool {
    last + PING_TTL_SECONDS < now
}

/// Law: a connection that showed activity within the TTL window is never
/// judged expired, and one silent for longer than the TTL is judged expired
/// at whichever periodic check runs next.
pub proof fn lemma_idle_timeout(last: u64, now: u64)
    ensures
        now <= last + PING_TTL_SECONDS ==> !spec_expired(last, now),
        now > last + PING_TTL_SECONDS ==> spec_expired(last, now),
{
}

/// Law: every inbound frame refreshes liveness. `handle_frame` stamps the
/// frame's arrival time whatever the frame was, so a connection whose last
/// frame arrived at `t` is never judged expired by a check through
/// `t + PING_TTL_SECONDS`, and is judged expired by the first check after
/// that — in particular by the next periodic sweep.
pub proof fn lemma_frame_refreshes_liveness(conn: MyWs, t: u64, check: u64)
    requires
        conn.last_updated_timestamp == t,
    ensures
        check <= t + PING_TTL_SECONDS ==> !spec_expired(conn.last_updated_timestamp, check),
        check > t + PING_TTL_SECONDS ==> spec_expired(conn.last_updated_timestamp, check),
{
}

/// The per-socket connection state: its process-unique id and the time of
/// its last inbound activity.
pub struct MyWs {
    pub socket_id: String,
    pub last_updated_timestamp: u64,
}

impl MyWs {
    pub fn new(socket_id: String, now: u64) -> (r: MyWs)
        ensures
            r.socket_id == socket_id,
            r.last_updated_timestamp == now,
    {
        MyWs { socket_id, last_updated_timestamp: now }
    }

    /// Whether the idle timeout has passed at `now`.
    pub fn is_expired(&self, now: u64) -> (r: bool)
        ensures
            r == spec_expired(self.last_updated_timestamp, now),
    {
        now > PING_TTL_SECONDS && self.last_updated_timestamp < now - PING_TTL_SECONDS
    }

    /// The response envelope for a subscribe or unsubscribe acknowledgement.
    pub fn create_subscription_response(topic: String, request_id: String, subscribed: bool) -> (r:
        String)
        ensures
            r@ == codec::spec_response_json(topic@, request_id@, subscribed),
    {
        codec::render_subscription_response(&topic, &request_id, subscribed)
    }

    /// The text actually written to the socket for one outbound message:
    /// an event frame goes out as it stands, an acknowledgement is rendered
    /// as the response envelope.
    pub fn render_ws_message(msg: WsMessage) -> (r: String)
        ensures
            match msg {
                WsMessage::Text(t) => r == t,
                WsMessage::Subscription { topic, request_id, subscribed } => r@
                    == codec::spec_response_json(topic@, request_id@, subscribed),
            },
    {
        match msg {
            WsMessage::Text(text) => text,
            WsMessage::Subscription { topic, request_id, subscribed } => {
                MyWs::create_subscription_response(topic, request_id, subscribed)
            },
        }
    }

    /// Handles one inbound frame: every frame counts as activity, a protocol
    /// ping is answered in place, a parsed command is forwarded, an
    /// unparseable text closes the connection.
    pub fn handle_frame(&mut self, frame: InboundFrame, now: u64) -> (r: FrameAction)
        ensures
            final(self).socket_id == old(self).socket_id,
            final(self).last_updated_timestamp == now,
            match frame {
                InboundFrame::Ping(p) => r matches FrameAction::Pong(q) && q@ == p@,
                InboundFrame::Text(s) => match codec::spec_parse_command(s@) {
                    Some(SpecWsCommand::Ping) => r matches FrameAction::Pong(q) && q@ == Seq::<
                        u8,
                    >::empty(),
                    Some(c) => r matches FrameAction::Dispatch(cmd) && cmd@ == c,
                    None => r matches FrameAction::CloseInvalid,
                },
                InboundFrame::Close => r matches FrameAction::ClosePeer,
                InboundFrame::Other => r matches FrameAction::Ignore,
            },
    {
        self.last_updated_timestamp = now;
        match frame {
            InboundFrame::Ping(p) => FrameAction::Pong(p),
            InboundFrame::Text(s) => {
                match codec::parse_command(s.as_str()) {
                    Some(WsCommand::Ping) => FrameAction::Pong(Vec::new()),
                    Some(cmd) => FrameAction::Dispatch(cmd),
                    None => FrameAction::CloseInvalid,
                }
            },
            InboundFrame::Close => FrameAction::ClosePeer,
            InboundFrame::Other => FrameAction::Ignore,
        }
    }
}

} // verus!
