//! The request and the response of the second version of the endpoint by which one
//! server sends an invite to another.

use vstd::prelude::*;
use crate::room_version::RoomVersionId;

verus! {

/// Request type for the `create_invite` endpoint.
#[derive(Debug)]
pub struct Request {
    /// The room ID that the user is being invited to.
    pub room_id: String,
    /// The event ID for the invite event, generated by the inviting server.
    pub event_id: String,
    /// The version of the room where the user is being invited to.
    pub room_version: RoomVersionId,
    /// The invite event which needs to be signed, as JSON text.
    pub event: String,
    /// An optional list of simplified events to help the receiver of the invite identify
    /// the room, each as JSON text.
    pub invite_room_state: Vec<String>,
}

/// Response type for the `create_invite` endpoint.
#[derive(Debug)]
pub struct Response {
    /// The signed invite event, as JSON text.
    pub event: String,
}

impl Request {
    /// Creates a new `Request` with the given room ID, event ID, room version, event and
    /// invite room state.
    pub fn new(
        room_id: String,
        event_id: String,
        room_version: RoomVersionId,
        event: String,
        invite_room_state: Vec<String>,
    ) -> (r: Request)
        ensures
            r.room_id == room_id,
            r.event_id == event_id,
            r.room_version == room_version,
            r.event == event,
            r.invite_room_state == invite_room_state,
    {
        Request { room_id, event_id, room_version, event, invite_room_state }
    }
}

impl Response {
    /// Creates a new `Response` with the given invite event.
    pub fn new(event: String) -> (r: Response)
        ensures
            r.event == event,
    {
        Response { event }
    }
}

} // verus!
