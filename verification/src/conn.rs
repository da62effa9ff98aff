//! The per-connection protocol driver, as a state machine: before a join
//! only `Join` and `RoomList` are served; after a join the connection
//! relays messages, member queries and a final leave. The surrounding
//! task owns the transport and the hub channel and performs the returned
//! actions in order; a frame that does not decode closes the connection.
use vstd::prelude::*;

use crate::codec::{decode_request, sp_request};
use crate::hub::HubCmd;
use crate::protocol::{ClientRequest, ClientRequestView, ServerEvent, ServerEventView};

verus! {

/// Where a connection stands.
#[derive(Debug)]
pub enum ConnState {
    /// Connected, not yet in a room.
    PreJoin,
    /// In `room` under the user name `name`.
    Joined { room: String, name: String },
    /// Finished; the transport is to be closed.
    Closed,
}

/// What the surrounding task must do after one inbound frame.
#[derive(Debug)]
pub enum ConnAction {
    /// Forward this command to the hub.
    SendHub(HubCmd),
    /// Signal the push loop to flush a close frame and shut the transport.
    Close,
}

/// Drive the state machine by one inbound text frame. A frame that is not
/// a canonical request closes the connection. Before a join, `Join`
/// enters the room (and asks for the history to replay, oldest first) and
/// `RoomList` is served; everything else is ignored. After a join,
/// `Message` is stamped with `now_ms` and forwarded, `Members` is
/// queried, `Leave` leaves and closes, and `Join` / `RoomList` are
/// ignored.
pub fn conn_on_text(state: ConnState, text: &str, now_ms: u64) -> (r: (ConnState, Vec<ConnAction>))
    ensures
        match sp_request(text@) {
            None => r.0 is Closed && r.1@.len() == 1 && r.1@[0] is Close,
            Some(req) => match state {
                ConnState::PreJoin => match req {
                    ClientRequestView::Join { room, name } => {
                        &&& r.0 matches ConnState::Joined { room: sr, name: sn } && sr@ == room
                            && sn@ == name
                        &&& r.1@.len() == 2
                        &&& r.1@[0] matches ConnAction::SendHub(c) && c matches HubCmd::Join {
                            room: cr,
                            name: cn,
                        } && cr@ == room && cn@ == name
                        &&& r.1@[1] matches ConnAction::SendHub(c) && c matches HubCmd::GetHistory {
                            room: cr,
                        } && cr@ == room
                    },
                    ClientRequestView::RoomList => {
                        &&& r.0 is PreJoin
                        &&& r.1@.len() == 1
                        &&& r.1@[0] matches ConnAction::SendHub(c) && c is GetRoomList
                    },
                    _ => r.0 is PreJoin && r.1@.len() == 0,
                },
                ConnState::Joined { room: myroom, name: myname } => match req {
                    ClientRequestView::Message { room, text: msg } => {
                        &&& r.0 matches ConnState::Joined { room: sr, name: sn } && sr@ == myroom@
                            && sn@ == myname@
                        &&& r.1@.len() == 1
                        &&& r.1@[0] matches ConnAction::SendHub(c) && c matches HubCmd::Send {
                            room: cr,
                            event,
                        } && cr@ == room && event@ == (ServerEventView::NewMessage {
                            room,
                            name: myname@,
                            text: msg,
                            ts: now_ms,
                        })
                    },
                    ClientRequestView::Members { room } => {
                        &&& r.0 matches ConnState::Joined { room: sr, name: sn } && sr@ == myroom@
                            && sn@ == myname@
                        &&& r.1@.len() == 1
                        &&& r.1@[0] matches ConnAction::SendHub(c) && c matches HubCmd::GetMembers {
                            room: cr,
                        } && cr@ == room
                    },
                    ClientRequestView::Leave { room } => {
                        &&& r.0 is Closed
                        &&& r.1@.len() == 2
                        &&& r.1@[0] matches ConnAction::SendHub(c) && c matches HubCmd::Leave {
                            room: cr,
                            name: cn,
                        } && cr@ == room && cn@ == myname@
                        &&& r.1@[1] is Close
                    },
                    _ => {
                        &&& r.0 matches ConnState::Joined { room: sr, name: sn } && sr@ == myroom@
                            && sn@ == myname@
                        &&& r.1@.len() == 0
                    },
                },
                ConnState::Closed => r.0 is Closed && r.1@.len() == 0,
            },
        },
{
    let mut actions: Vec<ConnAction> = Vec::new();
    let req = match decode_request(text) {
        Some(req) => req,
        None => {
            actions.push(ConnAction::Close);
            return (ConnState::Closed, actions);
        },
    };
    match state {
        ConnState::PreJoin => match req {
            ClientRequest::Join { room, name } => {
                actions.push(
                    ConnAction::SendHub(HubCmd::Join { room: room.clone(), name: name.clone() }),
                );
                actions.push(ConnAction::SendHub(HubCmd::GetHistory { room: room.clone() }));
                (ConnState::Joined { room, name }, actions)
            },
            ClientRequest::RoomList => {
                actions.push(ConnAction::SendHub(HubCmd::GetRoomList));
                (ConnState::PreJoin, actions)
            },
            _ => (ConnState::PreJoin, actions),
        },
        ConnState::Joined { room: myroom, name: myname } => match req {
            ClientRequest::Message { room, text: msg } => {
                let event = ServerEvent::NewMessage {
                    room: room.clone(),
                    name: myname.clone(),
                    text: msg,
                    ts: now_ms,
                };
                actions.push(ConnAction::SendHub(HubCmd::Send { room, event }));
                (ConnState::Joined { room: myroom, name: myname }, actions)
            },
            ClientRequest::Members { room } => {
                actions.push(ConnAction::SendHub(HubCmd::GetMembers { room }));
                (ConnState::Joined { room: myroom, name: myname }, actions)
            },
            ClientRequest::Leave { room } => {
                actions.push(ConnAction::SendHub(HubCmd::Leave { room, name: myname }));
                actions.push(ConnAction::Close);
                (ConnState::Closed, actions)
            },
            _ => (ConnState::Joined { room: myroom, name: myname }, actions),
        },
        ConnState::Closed => (ConnState::Closed, actions),
    }
}

/// Drive the state machine by the end of the inbound stream: the
/// connection winds down whatever state it was in.
pub fn conn_on_eof(state: ConnState) -> (r: (ConnState, Vec<ConnAction>))
    ensures
        r.0 is Closed,
        r.1@.len() == 1,
        r.1@[0] is Close,
{
    let mut actions: Vec<ConnAction> = Vec::new();
    actions.push(ConnAction::Close);
    (ConnState::Closed, actions)
}

} // verus!
