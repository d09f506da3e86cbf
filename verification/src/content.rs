//! What state resolution reads of an event's JSON content.
//!
//! The parsing itself is `serde_json`'s and `ruma_events`'; its results are named here
//! and the rules built on them are verified.

use vstd::prelude::*;
use crate::assoc::{entries_map, entry_keys, VecMap};
use crate::error::{Error, ErrorView};

verus! {

/// The membership that the content of an `m.room.member` event states, as text
/// (`join`, `leave`, `ban`, ...), or `None` where the content does not parse as one.
pub uninterp spec fn member_content_membership(content: Seq<char>) -> Option<Seq<char>>;

/// The `users` and `users_default` fields of the content of an `m.room.power_levels`
/// event, or `None` where the content does not parse as one.
pub uninterp spec fn power_levels_content(content: Seq<char>) -> Option<
    (Map<Seq<char>, i64>, i64),
>;

/// The view of an optional string.
pub open spec fn option_view(o: Option<String>) -> Option<Seq<char>> {
    match o {
        Some(s) => Some(s@),
        None => None,
    }
}

/// The views of a list of users and their levels.
pub open spec fn user_levels(users: Vec<(String, i64)>) -> Seq<(Seq<char>, i64)> {
    Seq::new(users@.len(), |i: int| (users@[i].0@, users@[i].1))
}

/// Calls `serde_json::from_str` for a `ruma_events::room::member::RoomMemberEventContent`
/// and hands back the text of its `membership`. Trusted: that the outcome depends on the
/// content alone, which is what `member_content_membership` names.
#[verifier::external_body]
pub(crate) fn parse_membership(content: &str) -> (r: Option<String>)
    ensures
        option_view(r) == member_content_membership(content@),
{
    let parsed =
        serde_json::from_str::<ruma_events::room::member::RoomMemberEventContent>(content).ok()?;
    Some(parsed.membership.as_str().to_owned())
}

/// Calls `serde_json::from_str` for a
/// `ruma_events::room::power_levels::RoomPowerLevelsEventContent` and hands back its `users`,
/// each `js_int::Int` level converted with `i64::from`, and its `users_default`. Trusted:
/// that the outcome depends on the content alone, which is what `power_levels_content`
/// names, and that no user is listed twice, `users` being a `BTreeMap`.
#[verifier::external_body]
fn parse_power_levels_json(content: &str) -> (r: Result<(Vec<(String, i64)>, i64), String>)
    ensures
        match r {
            Ok((users, users_default)) => {
                &&& entry_keys(user_levels(users)).no_duplicates()
                &&& power_levels_content(content@) == Some(
                    (entries_map(user_levels(users)), users_default),
                )
            },
            Err(_) => power_levels_content(content@) is None,
        },
{
    let parsed = serde_json::from_str::<
        ruma_events::room::power_levels::RoomPowerLevelsEventContent,
    >(content).map_err(|e| e.to_string())?;
    let users = parsed.users.iter().map(|(u, l)| (u.as_str().to_owned(), i64::from(*l))).collect();
    Ok((users, i64::from(parsed.users_default)))
}

/// The fields of a power-levels event that decide a sender's power level.
pub struct PowerLevelsContentFields {
    /// The power levels of the users that the event lists.
    pub users: VecMap<String, i64>,
    /// The power level of every other user.
    pub users_default: i64,
}

impl PowerLevelsContentFields {
    /// The power level that these fields give to a user.
    pub open spec fn spec_level_of(users: Map<Seq<char>, i64>, users_default: i64, user: Seq<char>)
        -> i64 {
        if users.contains_key(user) {
            users[user]
        } else {
            users_default
        }
    }

    /// The power level of a user: the listed one, or else the default.
    pub fn level_of(&self, user: &String) -> (level: i64)
        ensures
            level == Self::spec_level_of(self.users@, self.users_default, user@),
    {
        match self.users.get(user) {
            Some(level) => *level,
            None => self.users_default,
        }
    }
}

/// Parses the content of a power-levels event.
pub fn parse_power_levels(content: &str) -> (r: Result<PowerLevelsContentFields, Error>)
    ensures
        match r {
            Ok(fields) => power_levels_content(content@) == Some(
                (fields.users@, fields.users_default),
            ),
            Err(e) => power_levels_content(content@) is None && e@ == ErrorView::SerdeJson,
        },
{
    match parse_power_levels_json(content) {
        Err(message) => Err(Error::SerdeJson(message)),
        Ok((listed, users_default)) => {
            let mut users: VecMap<String, i64> = VecMap::new();
            let mut i: usize = 0;
            while i < listed.len()
                invariant
                    i <= listed@.len(),
                    entry_keys(user_levels(listed)).no_duplicates(),
                    users.entries() == user_levels(listed).take(i as int),
                decreases listed@.len() - i,
            {
                let ghost all = user_levels(listed);
                let ghost before = all.take(i as int);
                proof {
                    assert(all[i as int] == (listed@[i as int].0@, listed@[i as int].1));
                    assert(before.push(all[i as int]) =~= all.take(i + 1));
                    assert(entry_keys(before) =~= entry_keys(all).take(i as int));
                    if entry_keys(before).contains(all[i as int].0) {
                        let j = choose|j: int|
                            0 <= j < entry_keys(before).len() && entry_keys(before)[j]
                                == all[i as int].0;
                        assert(entry_keys(all)[j] == entry_keys(all)[i as int]);
                    }
                }
                users.insert(listed[i].0.clone(), listed[i].1);
                i += 1;
            }
            assert(user_levels(listed).take(i as int) =~= user_levels(listed));
            Ok(PowerLevelsContentFields { users, users_default })
        },
    }
}

} // verus!
