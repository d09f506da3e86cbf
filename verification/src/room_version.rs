//! The room versions and the rules that each of them turns on.

use vstd::prelude::*;
use crate::error::{Error, ErrorView};

verus! {

/// The tag of a room version.
#[derive(Clone, Debug)]
pub enum RoomVersionId {
    V1,
    V2,
    V3,
    V4,
    V5,
    V6,
    V7,
    V8,
    V9,
    V10,
    V11,
    /// A version that this library does not know, by its text.
    Other(String),
}

/// Whether a room version is a settled part of the protocol.
#[derive(Clone, Copy, Debug)]
pub enum RoomDisposition {
    Stable,
    Unstable,
}

/// The format of the events of a room.
#[derive(Clone, Copy, Debug)]
pub enum EventFormatVersion {
    V1,
    V2,
    V3,
}

/// The state resolution algorithm of a room.
#[derive(Clone, Copy, Debug)]
pub enum StateResolutionVersion {
    V1,
    V2,
}

/// The rules of one room version, as the authorization rules consult them.
#[derive(Clone, Copy, Debug)]
pub struct RoomVersion {
    pub disposition: RoomDisposition,
    pub event_format: EventFormatVersion,
    pub state_res: StateResolutionVersion,
    pub enforce_key_validity: bool,
    /// Whether `m.room.aliases` events are authorized by a rule of their own.
    pub special_case_aliases_auth: bool,
    pub strict_canonicaljson: bool,
    /// Whether the `notifications` field of power levels is checked.
    pub limit_notifications_power_levels: bool,
    /// Whether the stricter rules for redactions apply.
    pub extra_redaction_checks: bool,
    /// Whether users may knock.
    pub allow_knocking: bool,
    /// Whether the `restricted` join rule is in force.
    pub restricted_join_rules: bool,
    /// Whether the `knock_restricted` join rule is in force.
    pub knock_restricted_join_rule: bool,
    /// Whether power levels must be integers.
    pub integer_power_levels: bool,
    /// Whether the creator of a room is the sender of its create event.
    pub use_room_create_sender: bool,
}

/// The number of a known room version, or zero.
pub open spec fn version_number(id: RoomVersionId) -> int {
    match id {
        RoomVersionId::V1 => 1,
        RoomVersionId::V2 => 2,
        RoomVersionId::V3 => 3,
        RoomVersionId::V4 => 4,
        RoomVersionId::V5 => 5,
        RoomVersionId::V6 => 6,
        RoomVersionId::V7 => 7,
        RoomVersionId::V8 => 8,
        RoomVersionId::V9 => 9,
        RoomVersionId::V10 => 10,
        RoomVersionId::V11 => 11,
        RoomVersionId::Other(_) => 0,
    }
}

/// The rules of the room version with the given number: each rule is in force from the
/// version that brought it in.
pub open spec fn rules_of_version(n: int) -> RoomVersion {
    RoomVersion {
        disposition: RoomDisposition::Stable,
        event_format: if n >= 4 {
            EventFormatVersion::V3
        } else if n >= 3 {
            EventFormatVersion::V2
        } else {
            EventFormatVersion::V1
        },
        state_res: if n >= 2 {
            StateResolutionVersion::V2
        } else {
            StateResolutionVersion::V1
        },
        enforce_key_validity: n >= 5,
        special_case_aliases_auth: n < 6,
        strict_canonicaljson: n >= 6,
        limit_notifications_power_levels: n >= 6,
        extra_redaction_checks: n >= 3,
        allow_knocking: n >= 7,
        restricted_join_rules: n >= 8,
        knock_restricted_join_rule: n >= 10,
        integer_power_levels: n >= 10,
        use_room_create_sender: n >= 11,
    }
}

/// The rules of a room version, or the error for a version that is not known.
pub open spec fn room_version_spec(id: RoomVersionId) -> Result<RoomVersion, ErrorView> {
    match id {
        RoomVersionId::Other(text) => Err(ErrorView::Unsupported(text@)),
        _ => Ok(rules_of_version(version_number(id))),
    }
}

impl RoomVersion {
    fn numbered(n: u8) -> (r: RoomVersion)
        ensures
            r == rules_of_version(n as int),
    {
        RoomVersion {
            disposition: RoomDisposition::Stable,
            event_format: if n >= 4 {
                EventFormatVersion::V3
            } else if n >= 3 {
                EventFormatVersion::V2
            } else {
                EventFormatVersion::V1
            },
            state_res: if n >= 2 {
                StateResolutionVersion::V2
            } else {
                StateResolutionVersion::V1
            },
            enforce_key_validity: n >= 5,
            special_case_aliases_auth: n < 6,
            strict_canonicaljson: n >= 6,
            limit_notifications_power_levels: n >= 6,
            extra_redaction_checks: n >= 3,
            allow_knocking: n >= 7,
            restricted_join_rules: n >= 8,
            knock_restricted_join_rule: n >= 10,
            integer_power_levels: n >= 10,
            use_room_create_sender: n >= 11,
        }
    }

    /// The rules of the given room version.
    pub fn new(version: &RoomVersionId) -> (r: Result<RoomVersion, Error>)
        ensures
            match r {
                Ok(rules) => room_version_spec(*version) == Ok::<RoomVersion, ErrorView>(rules),
                Err(e) => room_version_spec(*version) == Err::<RoomVersion, ErrorView>(e@),
            },
    {
        match version {
            RoomVersionId::V1 => Ok(Self::numbered(1)),
            RoomVersionId::V2 => Ok(Self::numbered(2)),
            RoomVersionId::V3 => Ok(Self::numbered(3)),
            RoomVersionId::V4 => Ok(Self::numbered(4)),
            RoomVersionId::V5 => Ok(Self::numbered(5)),
            RoomVersionId::V6 => Ok(Self::numbered(6)),
            RoomVersionId::V7 => Ok(Self::numbered(7)),
            RoomVersionId::V8 => Ok(Self::numbered(8)),
            RoomVersionId::V9 => Ok(Self::numbered(9)),
            RoomVersionId::V10 => Ok(Self::numbered(10)),
            RoomVersionId::V11 => Ok(Self::numbered(11)),
            RoomVersionId::Other(text) => Err(Error::Unsupported(text.clone())),
        }
    }
}

} // verus!
