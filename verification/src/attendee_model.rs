//! The attendee record and its projections. One record exists per (user,
//! shard) and carries two keyed maps: the events the user has joined and
//! the events the user holds an invite for. A write-time rule keeps any one
//! event out of both maps of the same record at once.

use vstd::prelude::*;

use crate::keymap::{KeyMap, distinct_keys, has_key, value_of};

verus! {

/// Who asked for an invite: the event side or the user side.
#[derive(Clone, Copy, PartialEq, Eq, Structural, Debug)]
pub enum InviteType {
    NoRequest,
    OwnerRequest,
    UserRequest,
}

impl Default for InviteType {
    fn default() -> (r: Self)
        ensures
            r == InviteType::NoRequest,
    {
        InviteType::NoRequest
    }
}

/// The privacy kind of an event, as the event resource reports it. Only
/// public and private events can be joined through this store; the other
/// kinds are served elsewhere.
#[derive(Clone, Copy, PartialEq, Eq, Structural, Debug)]
pub enum Privacy {
    Public,
    Private,
    InviteOnly,
    Gated,
}

/// Membership of one event: the group it was joined under and when.
#[derive(Clone, Copy, PartialEq, Eq, Structural, Debug)]
pub struct Join {
    pub group_identifier: u64,
    pub updated_at: u64,
    pub created_at: u64,
}

/// A pending invite for one event.
#[derive(Clone, Copy, PartialEq, Eq, Structural, Debug)]
pub struct Invite {
    pub group_identifier: u64,
    pub invite_type: InviteType,
    pub updated_at: u64,
    pub created_at: u64,
}

/// The mathematical value of an attendee record.
#[verifier::ext_equal]
pub struct AttendeeV {
    pub principal: u64,
    pub joined: Seq<(u64, Join)>,
    pub invites: Seq<(u64, Invite)>,
}

/// One user's join/invite relationships, keyed by event identifier.
pub struct Attendee {
    pub principal: u64,
    pub joined: KeyMap<Join>,
    pub invites: KeyMap<Invite>,
}

impl View for Attendee {
    type V = AttendeeV;

    open spec fn view(&self) -> AttendeeV {
        AttendeeV { principal: self.principal, joined: self.joined@, invites: self.invites@ }
    }
}

impl AttendeeV {
    /// Each map holds its event at most once.
    pub open spec fn wf(&self) -> bool {
        distinct_keys(self.joined) && distinct_keys(self.invites)
    }
}

impl Attendee {
    pub open spec fn wf(&self) -> bool {
        self@.wf()
    }

    /// A fresh record for `principal` with no joins and no invites.
    pub fn new(principal: u64) -> (r: Self)
        ensures
            r@ == (AttendeeV {
                principal,
                joined: Seq::<(u64, Join)>::empty(),
                invites: Seq::<(u64, Invite)>::empty(),
            }),
            r.wf(),
    {
        Attendee { principal, joined: KeyMap::new(), invites: KeyMap::new() }
    }

    /// A copy of the record.
    pub fn duplicate(&self) -> (r: Self)
        ensures
            r@ == self@,
    {
        Attendee {
            principal: self.principal,
            joined: self.joined.duplicate(),
            invites: self.invites.duplicate(),
        }
    }

    pub fn joined_contains(&self, event_identifier: u64) -> (r: bool)
        ensures
            r == has_key(self@.joined, event_identifier),
    {
        self.joined.contains_key(event_identifier)
    }

    pub fn invites_contains(&self, event_identifier: u64) -> (r: bool)
        ensures
            r == has_key(self@.invites, event_identifier),
    {
        self.invites.contains_key(event_identifier)
    }

    pub fn get_joined(&self, event_identifier: u64) -> (r: Option<Join>)
        ensures
            match r {
                Some(j) => has_key(self@.joined, event_identifier) && j == value_of(
                    self@.joined,
                    event_identifier,
                ),
                None => !has_key(self@.joined, event_identifier),
            },
    {
        match self.joined.get(event_identifier) {
            Some(j) => Some(*j),
            None => None,
        }
    }

    pub fn get_invite(&self, event_identifier: u64) -> (r: Option<Invite>)
        ensures
            match r {
                Some(i) => has_key(self@.invites, event_identifier) && i == value_of(
                    self@.invites,
                    event_identifier,
                ),
                None => !has_key(self@.invites, event_identifier),
            },
    {
        match self.invites.get(event_identifier) {
            Some(i) => Some(*i),
            None => None,
        }
    }

    pub fn joined_len(&self) -> (n: usize)
        ensures
            n == self@.joined.len(),
    {
        self.joined.len()
    }

    pub fn invites_len(&self) -> (n: usize)
        ensures
            n == self@.invites.len(),
    {
        self.invites.len()
    }
}

impl Default for Attendee {
    /// The record of the anonymous principal, with nothing joined.
    fn default() -> (r: Self)
        ensures
            r@ == (AttendeeV {
                principal: 0,
                joined: Seq::<(u64, Join)>::empty(),
                invites: Seq::<(u64, Invite)>::empty(),
            }),
            r.wf(),
    {
        Attendee::new(0)
    }
}

/// One attendee's membership of one event, as returned by scans.
#[derive(Clone, Copy, PartialEq, Eq, Structural, Debug)]
pub struct JoinedAttendeeResponse {
    pub event_identifier: u64,
    pub group_identifier: u64,
    pub attendee_identifier: u64,
    pub principal: u64,
}

/// One attendee's pending invite for one event, as returned by scans.
#[derive(Clone, Copy, PartialEq, Eq, Structural, Debug)]
pub struct InviteAttendeeResponse {
    pub event_identifier: u64,
    pub group_identifier: u64,
    pub attendee_identifier: u64,
    pub principal: u64,
    pub invite_type: InviteType,
}

} // verus!
