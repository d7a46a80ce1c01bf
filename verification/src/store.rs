//! The per-shard store of attendee records and the join/invite state
//! machine applied on every write. Records are keyed by an identifier drawn
//! from a monotonic per-shard counter; at most one record exists per
//! principal. Every write operation is specified as a transition function
//! on the store's mathematical value.

use vstd::prelude::*;

use crate::api_error::ApiError;
use crate::chunk::{chunk_of, chunk_slice, spec_last_chunk_index};
use crate::codec::{spec_decode_attendee, spec_encode_joined_list, spec_encode_invite_list,
    encode_joined_responses, encode_invite_responses};
use crate::attendee_model::{Attendee, AttendeeV, Invite, InviteType, Join, JoinedAttendeeResponse,
    InviteAttendeeResponse, Privacy};
use crate::keymap::{KeyMap, distinct_keys, has_key, index_of_key, km_insert, km_remove, value_of,
    lemma_index_of_key, lemma_index_of_key_first_match, lemma_km_insert, lemma_km_remove};

verus! {

/// The mathematical value of a shard store.
#[verifier::ext_equal]
pub struct StoreV {
    pub name: Seq<char>,
    pub parent: u64,
    pub next_entry_id: u64,
    pub entries: Seq<(u64, AttendeeV)>,
}

/// The values of a sequence of stored records.
pub open spec fn entry_views(s: Seq<(u64, Attendee)>) -> Seq<(u64, AttendeeV)> {
    s.map_values(|kv: (u64, Attendee)| (kv.0, kv.1@))
}

/// Index of the first record whose principal is `p`, or -1.
pub open spec fn attendee_index(s: Seq<(u64, AttendeeV)>, p: u64) -> int
    decreases s.len(),
{
    if s.len() == 0 {
        -1
    } else if s[0].1.principal == p {
        0
    } else {
        let r = attendee_index(s.drop_first(), p);
        if r == -1 {
            -1
        } else {
            r + 1
        }
    }
}

/// The record of principal `p`, with its identifier, when there is one.
pub open spec fn find_attendee(s: Seq<(u64, AttendeeV)>, p: u64) -> Option<(u64, AttendeeV)> {
    if attendee_index(s, p) == -1 {
        None
    } else {
        Some(s[attendee_index(s, p)])
    }
}

/// `attendee_index` points at the first record of principal `p`.
pub proof fn lemma_attendee_index(s: Seq<(u64, AttendeeV)>, p: u64)
    ensures
        attendee_index(s, p) == -1 ==> forall|j: int|
            0 <= j < s.len() ==> s[j].1.principal != p,
        attendee_index(s, p) != -1 ==> {
            &&& 0 <= attendee_index(s, p) < s.len()
            &&& s[attendee_index(s, p)].1.principal == p
            &&& forall|j: int| 0 <= j < attendee_index(s, p) ==> s[j].1.principal != p
        },
    decreases s.len(),
{
    if s.len() > 0 && s[0].1.principal != p {
        let t = s.drop_first();
        lemma_attendee_index(t, p);
        let r = attendee_index(t, p);
        if r == -1 {
            assert forall|j: int| 0 <= j < s.len() implies s[j].1.principal != p by {
                if j > 0 {
                    assert(t[j - 1] == s[j]);
                }
            }
        } else {
            assert(s[r + 1] == t[r]);
            assert forall|j: int| 0 <= j < r + 1 implies s[j].1.principal != p by {
                if j > 0 {
                    assert(t[j - 1] == s[j]);
                }
            }
        }
    }
}

/// A first match at position `i` fixes `attendee_index` to `i`.
pub proof fn lemma_attendee_index_first_match(s: Seq<(u64, AttendeeV)>, p: u64, i: int)
    requires
        0 <= i < s.len(),
        s[i].1.principal == p,
        forall|j: int| 0 <= j < i ==> s[j].1.principal != p,
    ensures
        attendee_index(s, p) == i,
    decreases s.len(),
{
    if i > 0 {
        assert(forall|j: int| 0 <= j < s.drop_first().len() ==> s.drop_first()[j] == s[j + 1]);
        lemma_attendee_index_first_match(s.drop_first(), p, i - 1);
    }
}

/// When no record has principal `p`, `attendee_index` is -1.
pub proof fn lemma_attendee_index_none(s: Seq<(u64, AttendeeV)>, p: u64)
    requires
        forall|j: int| 0 <= j < s.len() ==> s[j].1.principal != p,
    ensures
        attendee_index(s, p) == -1,
    decreases s.len(),
{
    if s.len() > 0 {
        assert(forall|j: int| 0 <= j < s.drop_first().len() ==> s.drop_first()[j] == s[j + 1]);
        lemma_attendee_index_none(s.drop_first(), p);
    }
}

impl StoreV {
    /// Keys are distinct and below the id counter, principals are distinct,
    /// and every record is well formed.
    pub open spec fn wf(&self) -> bool {
        &&& distinct_keys(self.entries)
        &&& forall|i: int| 0 <= i < self.entries.len() ==> (#[trigger] self.entries[i]).1.wf()
        &&& forall|i: int|
            0 <= i < self.entries.len() ==> (#[trigger] self.entries[i]).0 < self.next_entry_id
        &&& forall|i: int, j: int|
            0 <= i < j < self.entries.len() ==> self.entries[i].1.principal
                != self.entries[j].1.principal
    }
}

/// A join entry created at time `now`.
pub open spec fn spec_new_join(group_identifier: u64, now: u64) -> Join {
    Join { group_identifier, updated_at: now, created_at: now }
}

/// An invite of the given type created at time `now`.
pub open spec fn spec_new_invite(group_identifier: u64, invite_type: InviteType, now: u64) -> Invite {
    Invite { group_identifier, invite_type, updated_at: now, created_at: now }
}

/// The store after appending a fresh record under the next identifier.
pub open spec fn spec_add_entry(s: StoreV, a: AttendeeV) -> (StoreV, u64) {
    (
        StoreV {
            next_entry_id: (s.next_entry_id + 1) as u64,
            entries: s.entries.push((s.next_entry_id, a)),
            ..s
        },
        s.next_entry_id,
    )
}

/// The store after replacing the record stored under `id`.
pub open spec fn spec_set_entry(s: StoreV, id: u64, a: AttendeeV) -> StoreV {
    StoreV { entries: km_insert(s.entries, id, a), ..s }
}

/// What `join_event` does: reject a duplicate join or a pending invite,
/// record a membership directly for a public event, record a user-request
/// invite for a private event, and refuse the other privacy kinds.
pub open spec fn spec_join_event(
    s: StoreV,
    caller: u64,
    event_identifier: u64,
    group_identifier: u64,
    event_privacy: Privacy,
    now: u64,
) -> (StoreV, Result<(u64, AttendeeV), ApiError>) {
    let f = find_attendee(s.entries, caller);
    if f matches Some((id, a)) && has_key(a.joined, event_identifier) {
        (s, Err(ApiError::AlreadyJoined))
    } else if f matches Some((id, a)) && has_key(a.invites, event_identifier) {
        (s, Err(ApiError::PendingInvite))
    } else if event_privacy is Public || event_privacy is Private {
        let base = match f {
            None => AttendeeV {
                principal: caller,
                joined: Seq::<(u64, Join)>::empty(),
                invites: Seq::<(u64, Invite)>::empty(),
            },
            Some((id, a)) => a,
        };
        let updated = if event_privacy is Public {
            AttendeeV {
                joined: km_insert(base.joined, event_identifier, spec_new_join(group_identifier, now)),
                ..base
            }
        } else {
            AttendeeV {
                invites: km_insert(
                    base.invites,
                    event_identifier,
                    spec_new_invite(group_identifier, InviteType::UserRequest, now),
                ),
                ..base
            }
        };
        match f {
            None => {
                let (s2, id) = spec_add_entry(s, updated);
                (s2, Ok((id, updated)))
            },
            Some((id, a)) => (spec_set_entry(s, id, updated), Ok((id, updated))),
        }
    } else {
        (s, Err(ApiError::UnsupportedPrivacy))
    }
}

/// What `invite_to_event` does: overwrite or create an owner-request
/// invite, unless the attendee already joined the event.
pub open spec fn spec_invite_to_event(
    s: StoreV,
    event_identifier: u64,
    attendee_principal: u64,
    group_identifier: u64,
    now: u64,
) -> (StoreV, Result<(u64, AttendeeV), ApiError>) {
    let invite = spec_new_invite(group_identifier, InviteType::OwnerRequest, now);
    match find_attendee(s.entries, attendee_principal) {
        None => {
            let na = AttendeeV {
                principal: attendee_principal,
                joined: Seq::<(u64, Join)>::empty(),
                invites: km_insert(Seq::<(u64, Invite)>::empty(), event_identifier, invite),
            };
            let (s2, id) = spec_add_entry(s, na);
            (s2, Ok((id, na)))
        },
        Some((id, a)) => {
            if has_key(a.joined, event_identifier) {
                (s, Err(ApiError::AlreadyJoined))
            } else {
                let ua = AttendeeV { invites: km_insert(a.invites, event_identifier, invite), ..a };
                (spec_set_entry(s, id, ua), Ok((id, ua)))
            }
        },
    }
}

/// What accepting an invite does: require an invite of the expected request
/// type, clear it, and record the membership under the invite's group.
pub open spec fn spec_accept_invite(
    s: StoreV,
    attendee_principal: u64,
    event_identifier: u64,
    expected: InviteType,
    now: u64,
) -> (StoreV, Result<(u64, AttendeeV), ApiError>) {
    match find_attendee(s.entries, attendee_principal) {
        None => (s, Err(ApiError::AttendeeNotFound)),
        Some((id, a)) => {
            if !has_key(a.invites, event_identifier) {
                (s, Err(ApiError::NoInviteFound))
            } else {
                let inv = value_of(a.invites, event_identifier);
                if inv.invite_type != expected {
                    (s, Err(ApiError::InvalidInviteType))
                } else {
                    let ua = AttendeeV {
                        joined: km_insert(
                            a.joined,
                            event_identifier,
                            spec_new_join(inv.group_identifier, now),
                        ),
                        invites: km_remove(a.invites, event_identifier),
                        ..a
                    };
                    (spec_set_entry(s, id, ua), Ok((id, ua)))
                }
            }
        },
    }
}

/// What `remove_join_from_attendee` does: clear the membership entry, a
/// no-op when the event key is already absent.
pub open spec fn spec_remove_join(s: StoreV, attendee_principal: u64, event_identifier: u64) -> (
    StoreV,
    Result<(), ApiError>,
) {
    match find_attendee(s.entries, attendee_principal) {
        None => (s, Err(ApiError::AttendeeNotFound)),
        Some((id, a)) => {
            let ua = AttendeeV { joined: km_remove(a.joined, event_identifier), ..a };
            (spec_set_entry(s, id, ua), Ok(()))
        },
    }
}

/// What `remove_invite_from_event` does: clear the invite entry, a no-op
/// when the event key is already absent.
pub open spec fn spec_remove_invite(s: StoreV, attendee_principal: u64, event_identifier: u64) -> (
    StoreV,
    Result<(), ApiError>,
) {
    match find_attendee(s.entries, attendee_principal) {
        None => (s, Err(ApiError::AttendeeNotFound)),
        Some((id, a)) => {
            let ua = AttendeeV { invites: km_remove(a.invites, event_identifier), ..a };
            (spec_set_entry(s, id, ua), Ok(()))
        },
    }
}

/// The kind a decoded identifier refers to.
#[derive(Clone, Copy, PartialEq, Eq, Structural, Debug)]
pub enum IdentifierKind {
    Event,
    Group,
    Attendee,
    Unknown,
}

/// What `add_owner_as_attendee` does: record the event owner's membership,
/// provided both identifiers decode to the right kinds and the caller is
/// the event's own unit. `Err(true)` reports an existing membership,
/// `Err(false)` a failed check.
pub open spec fn spec_add_owner_as_attendee(
    s: StoreV,
    caller: u64,
    user_principal: u64,
    event_identifier: u64,
    event_canister: u64,
    event_kind: IdentifierKind,
    group_identifier: u64,
    group_kind: IdentifierKind,
    now: u64,
) -> (StoreV, Result<(), bool>) {
    if event_kind != IdentifierKind::Event {
        (s, Err(false))
    } else if group_kind != IdentifierKind::Group {
        (s, Err(false))
    } else if caller != event_canister {
        (s, Err(false))
    } else {
        let join = spec_new_join(group_identifier, now);
        match find_attendee(s.entries, user_principal) {
            None => {
                let na = AttendeeV {
                    principal: user_principal,
                    joined: km_insert(Seq::<(u64, Join)>::empty(), event_identifier, join),
                    invites: Seq::<(u64, Invite)>::empty(),
                };
                (spec_add_entry(s, na).0, Ok(()))
            },
            Some((id, a)) => {
                if has_key(a.joined, event_identifier) {
                    (s, Err(true))
                } else {
                    let ua = AttendeeV { joined: km_insert(a.joined, event_identifier, join), ..a };
                    (spec_set_entry(s, id, ua), Ok(()))
                }
            },
        }
    }
}

/// The scan projection of one record's membership of one event. The group
/// field repeats the event identifier, as the replies of this store always
/// have.
pub open spec fn spec_joined_response(id: u64, a: AttendeeV, event_identifier: u64) -> JoinedAttendeeResponse {
    JoinedAttendeeResponse {
        event_identifier,
        group_identifier: event_identifier,
        attendee_identifier: id,
        principal: a.principal,
    }
}

/// The scan projection of one record's invite for one event.
pub open spec fn spec_invite_response(id: u64, a: AttendeeV, event_identifier: u64) -> InviteAttendeeResponse {
    InviteAttendeeResponse {
        event_identifier,
        group_identifier: event_identifier,
        attendee_identifier: id,
        principal: a.principal,
        invite_type: if has_key(a.invites, event_identifier) {
            value_of(a.invites, event_identifier).invite_type
        } else {
            InviteType::NoRequest
        },
    }
}

/// The projections of every record that joined the event, in store order.
pub open spec fn spec_joined_responses(s: Seq<(u64, AttendeeV)>, event_identifier: u64) -> Seq<
    JoinedAttendeeResponse,
>
    decreases s.len(),
{
    if s.len() == 0 {
        Seq::empty()
    } else {
        let prefix = spec_joined_responses(s.drop_last(), event_identifier);
        let kv = s.last();
        if has_key(kv.1.joined, event_identifier) {
            prefix.push(spec_joined_response(kv.0, kv.1, event_identifier))
        } else {
            prefix
        }
    }
}

/// The projections of every record invited to the event, in store order.
pub open spec fn spec_invite_responses(s: Seq<(u64, AttendeeV)>, event_identifier: u64) -> Seq<
    InviteAttendeeResponse,
>
    decreases s.len(),
{
    if s.len() == 0 {
        Seq::empty()
    } else {
        let prefix = spec_invite_responses(s.drop_last(), event_identifier);
        let kv = s.last();
        if has_key(kv.1.invites, event_identifier) {
            prefix.push(spec_invite_response(kv.0, kv.1, event_identifier))
        } else {
            prefix
        }
    }
}

/// A scan returns at most one projection per record.
pub proof fn lemma_joined_responses_len(s: Seq<(u64, AttendeeV)>, event_identifier: u64)
    ensures
        spec_joined_responses(s, event_identifier).len() <= s.len(),
    decreases s.len(),
{
    if s.len() > 0 {
        lemma_joined_responses_len(s.drop_last(), event_identifier);
    }
}

/// A scan returns at most one projection per record.
pub proof fn lemma_invite_responses_len(s: Seq<(u64, AttendeeV)>, event_identifier: u64)
    ensures
        spec_invite_responses(s, event_identifier).len() <= s.len(),
    decreases s.len(),
{
    if s.len() > 0 {
        lemma_invite_responses_len(s.drop_last(), event_identifier);
    }
}

/// One record's memberships, one projection per joined event, in map order.
pub open spec fn spec_attending_responses(id: u64, a: AttendeeV) -> Seq<JoinedAttendeeResponse> {
    a.joined.map_values(|kv: (u64, Join)| spec_joined_response(id, a, kv.0))
}

/// Whether an executable write result carries the values the transition
/// function names.
pub open spec fn result_matches(
    r: Result<(u64, Attendee), ApiError>,
    rs: Result<(u64, AttendeeV), ApiError>,
) -> bool {
    match (r, rs) {
        (Ok((id, a)), Ok((id2, a2))) => id == id2 && a@ == a2,
        (Err(e), Err(e2)) => e == e2,
        _ => false,
    }
}

/// One shard's store of attendee records.
pub struct Store {
    name: String,
    parent: u64,
    next_entry_id: u64,
    entries: KeyMap<Attendee>,
}

impl View for Store {
    type V = StoreV;

    closed spec fn view(&self) -> StoreV {
        StoreV {
            name: self.name@,
            parent: self.parent@,
            next_entry_id: self.next_entry_id,
            entries: entry_views(self.entries@),
        }
    }
}

/// Mapping to record values keeps keys and positions.
pub proof fn lemma_entry_views_index(s: Seq<(u64, Attendee)>, k: u64)
    ensures
        entry_views(s).len() == s.len(),
        forall|i: int| 0 <= i < s.len() ==> #[trigger] entry_views(s)[i] == (s[i].0, s[i].1@),
        index_of_key(entry_views(s), k) == index_of_key(s, k),
    decreases s.len(),
{
    if s.len() > 0 {
        lemma_entry_views_index(s.drop_first(), k);
        assert(entry_views(s).drop_first() =~= entry_views(s.drop_first()));
    }
}

impl Store {
    pub open spec fn wf(&self) -> bool {
        self@.wf()
    }

    /// A fresh, empty shard store registered to coordinator `parent`.
    pub fn new(name: String, parent: u64) -> (r: Self)
        ensures
            r@.name == name@,
            r@.parent == parent,
            r@.next_entry_id == 0,
            r@.entries == Seq::<(u64, AttendeeV)>::empty(),
            r.wf(),
    {
        let r = Store { name, parent, next_entry_id: 0, entries: KeyMap::new() };
        proof {
            assert(r@.entries =~= Seq::<(u64, AttendeeV)>::empty());
        }
        r
    }

    /// The shard's name.
    pub fn get_name(&self) -> (r: &String)
        ensures
            r@ == self@.name,
    {
        &self.name
    }

    /// The coordinator this shard belongs to.
    pub fn get_parent(&self) -> (r: u64)
        ensures
            r == self@.parent,
    {
        self.parent
    }

    /// Record count of this shard.
    pub fn entry_count(&self) -> (n: usize)
        ensures
            n == self@.entries.len(),
    {
        proof {
            lemma_entry_views_index(self.entries@, 0);
        }
        self.entries.len()
    }

    /// The identifier the next added record will get.
    pub fn get_next_entry_id(&self) -> (r: u64)
        ensures
            r == self@.next_entry_id,
    {
        self.next_entry_id
    }

    /// Distinctness of keys carries from the store's view to the raw map.
    proof fn lemma_raw_wf(&self)
        requires
            distinct_keys(self@.entries),
        ensures
            self.entries.wf(),
    {
        lemma_entry_views_index(self.entries@, 0);
        let raw = self.entries@;
        let mapped = entry_views(raw);
        assert forall|i: int, j: int| 0 <= i < j < raw.len() implies raw[i].0 != raw[j].0 by {
            assert(mapped[i] == (raw[i].0, raw[i].1@));
            assert(mapped[j] == (raw[j].0, raw[j].1@));
        }
    }

    /// The record of the given principal, with its identifier.
    fn _get_attendee_from_caller(&self, caller: u64) -> (r: Option<(u64, Attendee)>)
        ensures
            match r {
                Some((id, a)) => find_attendee(self@.entries, caller) == Some((id, a@)),
                None => find_attendee(self@.entries, caller) is None,
            },
    {
        proof {
            lemma_entry_views_index(self.entries@, 0);
        }
        let ghost sv = self@.entries;
        let n = self.entries.len();
        let mut i: usize = 0;
        while i < n
            invariant
                i <= n,
                n == self.entries@.len(),
                sv == entry_views(self.entries@),
                sv.len() == n,
                forall|j: int| 0 <= j < n ==> #[trigger] sv[j] == (self.entries@[j].0,
                    self.entries@[j].1@),
                forall|j: int| 0 <= j < i ==> sv[j].1.principal != caller,
            decreases n - i,
        {
            let e = self.entries.entry_at(i);
            if e.1.principal == caller {
                proof {
                    lemma_attendee_index_first_match(sv, caller, i as int);
                }
                return Some((e.0, e.1.duplicate()));
            }
            i = i + 1;
        }
        proof {
            lemma_attendee_index_none(sv, caller);
        }
        None
    }

    /// Allocate the next identifier, insert the record under it, and return
    /// the identifier. Never overwrites.
    pub fn add_entry(&mut self, attendee: Attendee) -> (id: u64)
        requires
            old(self).wf(),
            old(self)@.next_entry_id < u64::MAX,
            attendee.wf(),
            find_attendee(old(self)@.entries, attendee@.principal) is None,
        ensures
            (final(self)@, id) == spec_add_entry(old(self)@, attendee@),
            final(self).wf(),
    {
        proof {
            self.lemma_raw_wf();
            lemma_entry_views_index(self.entries@, self.next_entry_id);
            lemma_index_of_key(self@.entries, self.next_entry_id);
            lemma_index_of_key(self.entries@, self.next_entry_id);
            lemma_km_insert(self.entries@, self.next_entry_id, attendee);
        }
        let id = self.next_entry_id;
        self.entries.insert(id, attendee);
        self.next_entry_id = id + 1;
        proof {
            lemma_entry_views_index(self.entries@, id);
            assert(final(self)@.entries =~= old(self)@.entries.push((id, attendee@)));
            lemma_wf_after_add(old(self)@, attendee@);
        }
        id
    }

    /// Replace the record stored under `id`; fail when `id` is absent.
    pub fn update_entry(&mut self, id: u64, attendee: Attendee) -> (r: Result<
        (u64, Attendee),
        ApiError,
    >)
        requires
            old(self).wf(),
            attendee.wf(),
        ensures
            has_key(old(self)@.entries, id) ==> {
                &&& final(self)@ == spec_set_entry(old(self)@, id, attendee@)
                &&& r matches Ok((rid, ra)) && rid == id && ra@ == attendee@
            },
            !has_key(old(self)@.entries, id) ==> {
                &&& final(self)@ == old(self)@
                &&& r == Err::<(u64, Attendee), ApiError>(ApiError::AttendeeNotFound)
            },
            old(self)@.wf() && attendee@.principal == spec_entry_principal(old(self)@, id)
                ==> final(self).wf(),
    {
        proof {
            self.lemma_raw_wf();
            lemma_entry_views_index(self.entries@, id);
        }
        if self.entries.contains_key(id) {
            let duplicate = attendee.duplicate();
            proof {
                lemma_km_insert(self.entries@, id, attendee);
                lemma_index_of_key(self.entries@, id);
                lemma_index_of_key(self@.entries, id);
            }
            self.entries.insert(id, attendee);
            proof {
                lemma_entry_views_index(self.entries@, id);
                assert(final(self)@.entries =~= km_insert(old(self)@.entries, id, duplicate@));
                if old(self)@.wf() && duplicate@.principal == spec_entry_principal(old(self)@, id)
                    && duplicate@.wf() {
                    lemma_wf_after_set(old(self)@, id, duplicate@);
                }
            }
            Ok((id, duplicate))
        } else {
            Err(ApiError::AttendeeNotFound)
        }
    }

    /// A copy of the record stored under `id`, when there is one.
    pub fn get_entry(&self, id: u64) -> (r: Option<Attendee>)
        ensures
            match r {
                Some(a) => has_key(self@.entries, id) && a@ == value_of(self@.entries, id),
                None => !has_key(self@.entries, id),
            },
    {
        proof {
            lemma_entry_views_index(self.entries@, id);
            lemma_index_of_key(self.entries@, id);
            lemma_index_of_key(self@.entries, id);
        }
        match self.entries.get(id) {
            Some(a) => Some(a.duplicate()),
            None => None,
        }
    }

    /// The caller's own record, with its identifier.
    pub fn get_self(&self, caller: u64) -> (r: Result<(u64, Attendee), ApiError>)
        ensures
            match find_attendee(self@.entries, caller) {
                Some((id, a)) => r matches Ok((rid, ra)) && rid == id && ra@ == a,
                None => r == Err::<(u64, Attendee), ApiError>(ApiError::AttendeeNotFound),
            },
    {
        match self._get_attendee_from_caller(caller) {
            None => Err(ApiError::AttendeeNotFound),
            Some(found) => Ok(found),
        }
    }

    /// Join an event. The event's privacy, fetched beforehand from the
    /// event resource, decides between a direct membership (public) and a
    /// user-request invite (private); a duplicate join or a pending invite
    /// is rejected; the other privacy kinds are not served by this call.
    pub fn join_event(
        &mut self,
        caller: u64,
        event_identifier: u64,
        group_identifier: u64,
        event_privacy: Privacy,
        now: u64,
    ) -> (r: Result<(u64, Attendee), ApiError>)
        requires
            old(self).wf(),
            old(self)@.next_entry_id < u64::MAX,
        ensures
            final(self)@ == spec_join_event(
                old(self)@,
                caller,
                event_identifier,
                group_identifier,
                event_privacy,
                now,
            ).0,
            result_matches(
                r,
                spec_join_event(
                    old(self)@,
                    caller,
                    event_identifier,
                    group_identifier,
                    event_privacy,
                    now,
                ).1,
            ),
            final(self).wf(),
    {
        proof {
            lemma_find_props(self@, caller);
        }
        let existing = self._get_attendee_from_caller(caller);
        match &existing {
            Some((_, a)) => {
                if a.joined_contains(event_identifier) {
                    return Err(ApiError::AlreadyJoined);
                }
                if a.invites_contains(event_identifier) {
                    return Err(ApiError::PendingInvite);
                }
            },
            None => {},
        }
        let (id_opt, mut att): (Option<u64>, Attendee) = match existing {
            None => (None, Attendee::new(caller)),
            Some((id, a)) => (Some(id), a),
        };
        match event_privacy {
            Privacy::Public => {
                att.joined.insert(
                    event_identifier,
                    Join { group_identifier, updated_at: now, created_at: now },
                );
            },
            Privacy::Private => {
                att.invites.insert(
                    event_identifier,
                    Invite {
                        group_identifier,
                        invite_type: InviteType::UserRequest,
                        updated_at: now,
                        created_at: now,
                    },
                );
            },
            _ => {
                return Err(ApiError::UnsupportedPrivacy);
            },
        }
        let result_att = att.duplicate();
        match id_opt {
            None => {
                let id = self.add_entry(att);
                Ok((id, result_att))
            },
            Some(id) => {
                match self.update_entry(id, att) {
                    Ok(_) => Ok((id, result_att)),
                    Err(e) => {
                        proof {
                            assert(false);
                        }
                        Err(e)
                    },
                }
            },
        }
    }

    /// Record an owner-request invite for the attendee, creating the record
    /// when none exists; rejected when the attendee already joined.
    pub fn invite_to_event(
        &mut self,
        event_identifier: u64,
        attendee_principal: u64,
        group_identifier: u64,
        now: u64,
    ) -> (r: Result<(u64, Attendee), ApiError>)
        requires
            old(self).wf(),
            old(self)@.next_entry_id < u64::MAX,
        ensures
            final(self)@ == spec_invite_to_event(
                old(self)@,
                event_identifier,
                attendee_principal,
                group_identifier,
                now,
            ).0,
            result_matches(
                r,
                spec_invite_to_event(
                    old(self)@,
                    event_identifier,
                    attendee_principal,
                    group_identifier,
                    now,
                ).1,
            ),
            final(self).wf(),
    {
        proof {
            lemma_find_props(self@, attendee_principal);
        }
        let invite = Invite {
            group_identifier,
            invite_type: InviteType::OwnerRequest,
            updated_at: now,
            created_at: now,
        };
        match self._get_attendee_from_caller(attendee_principal) {
            None => {
                let mut att = Attendee::new(attendee_principal);
                att.invites.insert(event_identifier, invite);
                let result_att = att.duplicate();
                let id = self.add_entry(att);
                Ok((id, result_att))
            },
            Some((id, mut att)) => {
                if att.joined_contains(event_identifier) {
                    return Err(ApiError::AlreadyJoined);
                }
                att.invites.insert(event_identifier, invite);
                let result_att = att.duplicate();
                match self.update_entry(id, att) {
                    Ok(_) => Ok((id, result_att)),
                    Err(e) => {
                        proof {
                            assert(false);
                        }
                        Err(e)
                    },
                }
            },
        }
    }

    /// Shared body of the two accept calls: require an invite of the
    /// expected request type, clear it, and record the membership.
    fn accept_invite(
        &mut self,
        attendee_principal: u64,
        event_identifier: u64,
        expected: InviteType,
        now: u64,
    ) -> (r: Result<(u64, Attendee), ApiError>)
        requires
            old(self).wf(),
        ensures
            final(self)@ == spec_accept_invite(
                old(self)@,
                attendee_principal,
                event_identifier,
                expected,
                now,
            ).0,
            result_matches(
                r,
                spec_accept_invite(old(self)@, attendee_principal, event_identifier, expected, now).1,
            ),
            final(self).wf(),
    {
        proof {
            lemma_find_props(self@, attendee_principal);
        }
        match self._get_attendee_from_caller(attendee_principal) {
            None => Err(ApiError::AttendeeNotFound),
            Some((id, mut att)) => {
                match att.get_invite(event_identifier) {
                    None => Err(ApiError::NoInviteFound),
                    Some(inv) => {
                        if inv.invite_type != expected {
                            return Err(ApiError::InvalidInviteType);
                        }
                        att.invites.remove(event_identifier);
                        att.joined.insert(
                            event_identifier,
                            Join {
                                group_identifier: inv.group_identifier,
                                updated_at: now,
                                created_at: now,
                            },
                        );
                        let result_att = att.duplicate();
                        match self.update_entry(id, att) {
                            Ok(_) => Ok((id, result_att)),
                            Err(e) => {
                                proof {
                                    assert(false);
                                }
                                Err(e)
                            },
                        }
                    },
                }
            },
        }
    }

    /// Accept an invite that the user requested (the admin-side accept).
    pub fn accept_user_request_event_invite(
        &mut self,
        attendee_principal: u64,
        event_identifier: u64,
        now: u64,
    ) -> (r: Result<(u64, Attendee), ApiError>)
        requires
            old(self).wf(),
        ensures
            final(self)@ == spec_accept_invite(
                old(self)@,
                attendee_principal,
                event_identifier,
                InviteType::UserRequest,
                now,
            ).0,
            result_matches(
                r,
                spec_accept_invite(
                    old(self)@,
                    attendee_principal,
                    event_identifier,
                    InviteType::UserRequest,
                    now,
                ).1,
            ),
            final(self).wf(),
    {
        self.accept_invite(attendee_principal, event_identifier, InviteType::UserRequest, now)
    }

    /// Accept an invite that the event owner sent (the user-side accept).
    pub fn accept_owner_request_event_invite(&mut self, caller: u64, event_identifier: u64, now: u64) -> (r:
        Result<(u64, Attendee), ApiError>)
        requires
            old(self).wf(),
        ensures
            final(self)@ == spec_accept_invite(
                old(self)@,
                caller,
                event_identifier,
                InviteType::OwnerRequest,
                now,
            ).0,
            result_matches(
                r,
                spec_accept_invite(
                    old(self)@,
                    caller,
                    event_identifier,
                    InviteType::OwnerRequest,
                    now,
                ).1,
            ),
            final(self).wf(),
    {
        self.accept_invite(caller, event_identifier, InviteType::OwnerRequest, now)
    }

    /// Clear the attendee's membership entry for the event; a no-op when
    /// the event key is already absent.
    pub fn remove_join_from_attendee(&mut self, attendee_principal: u64, event_identifier: u64) -> (r:
        Result<(), ApiError>)
        requires
            old(self).wf(),
        ensures
            final(self)@ == spec_remove_join(old(self)@, attendee_principal, event_identifier).0,
            r == spec_remove_join(old(self)@, attendee_principal, event_identifier).1,
            final(self).wf(),
    {
        proof {
            lemma_find_props(self@, attendee_principal);
        }
        match self._get_attendee_from_caller(attendee_principal) {
            None => Err(ApiError::AttendeeNotFound),
            Some((id, mut att)) => {
                att.joined.remove(event_identifier);
                match self.update_entry(id, att) {
                    Ok(_) => Ok(()),
                    Err(e) => {
                        proof {
                            assert(false);
                        }
                        Err(e)
                    },
                }
            },
        }
    }

    /// Clear the attendee's invite entry for the event; a no-op when the
    /// event key is already absent.
    pub fn remove_invite_from_event(&mut self, attendee_principal: u64, event_identifier: u64) -> (r:
        Result<(), ApiError>)
        requires
            old(self).wf(),
        ensures
            final(self)@ == spec_remove_invite(old(self)@, attendee_principal, event_identifier).0,
            r == spec_remove_invite(old(self)@, attendee_principal, event_identifier).1,
            final(self).wf(),
    {
        proof {
            lemma_find_props(self@, attendee_principal);
        }
        match self._get_attendee_from_caller(attendee_principal) {
            None => Err(ApiError::AttendeeNotFound),
            Some((id, mut att)) => {
                att.invites.remove(event_identifier);
                match self.update_entry(id, att) {
                    Ok(_) => Ok(()),
                    Err(e) => {
                        proof {
                            assert(false);
                        }
                        Err(e)
                    },
                }
            },
        }
    }

    /// The projection of `attendee`'s membership of the event, stamped with
    /// the record identifier.
    pub fn map_attendee_to_joined_attendee_response(
        identifier: &u64,
        attendee: &Attendee,
        event_identifier: u64,
    ) -> (r: JoinedAttendeeResponse)
        ensures
            r == spec_joined_response(*identifier, attendee@, event_identifier),
    {
        JoinedAttendeeResponse {
            event_identifier,
            group_identifier: event_identifier,
            attendee_identifier: *identifier,
            principal: attendee.principal,
        }
    }

    /// The projection of `attendee`'s invite for the event, stamped with
    /// the record identifier; the invite type reports what is stored, or
    /// that no request exists.
    pub fn map_attendee_to_invite_attendee_response(
        identifier: &u64,
        attendee: &Attendee,
        event_identifier: u64,
    ) -> (r: InviteAttendeeResponse)
        ensures
            r == spec_invite_response(*identifier, attendee@, event_identifier),
    {
        let invite_type = match attendee.get_invite(event_identifier) {
            Some(inv) => inv.invite_type,
            None => InviteType::NoRequest,
        };
        InviteAttendeeResponse {
            event_identifier,
            group_identifier: event_identifier,
            attendee_identifier: *identifier,
            principal: attendee.principal,
            invite_type,
        }
    }

    /// The caller's memberships, one projection per joined event.
    pub fn get_attending_from_principal(&self, principal: u64) -> (r: Result<
        Vec<JoinedAttendeeResponse>,
        ApiError,
    >)
        ensures
            match find_attendee(self@.entries, principal) {
                Some((id, a)) => r matches Ok(v) && v@ == spec_attending_responses(id, a),
                None => r == Err::<Vec<JoinedAttendeeResponse>, ApiError>(
                    ApiError::AttendeeNotFound,
                ),
            },
    {
        match self._get_attendee_from_caller(principal) {
            None => Err(ApiError::AttendeeNotFound),
            Some((id, att)) => {
                let ghost av = att@;
                let n = att.joined.len();
                let mut out: Vec<JoinedAttendeeResponse> = Vec::new();
                let mut i: usize = 0;
                while i < n
                    invariant
                        i <= n,
                        n == av.joined.len(),
                        av == att@,
                        out@.len() == i,
                        forall|j: int| 0 <= j < i ==> #[trigger] out@[j] == spec_joined_response(
                            id,
                            av,
                            av.joined[j].0,
                        ),
                    decreases n - i,
                {
                    let e = att.joined.entry_at(i);
                    out.push(Self::map_attendee_to_joined_attendee_response(&id, &att, e.0));
                    i = i + 1;
                }
                proof {
                    assert(out@ =~= spec_attending_responses(id, av));
                }
                Ok(out)
            },
        }
    }

    /// The projections of every record that joined the event.
    pub fn get_event_attendees(&self, event_identifier: u64) -> (r: Vec<JoinedAttendeeResponse>)
        ensures
            r@ == spec_joined_responses(self@.entries, event_identifier),
    {
        proof {
            lemma_entry_views_index(self.entries@, 0);
        }
        let ghost sv = self@.entries;
        let n = self.entries.len();
        let mut out: Vec<JoinedAttendeeResponse> = Vec::new();
        let mut i: usize = 0;
        while i < n
            invariant
                i <= n,
                n == self.entries@.len(),
                sv == entry_views(self.entries@),
                sv.len() == n,
                forall|j: int| 0 <= j < n ==> #[trigger] sv[j] == (self.entries@[j].0,
                    self.entries@[j].1@),
                out@ == spec_joined_responses(sv.take(i as int), event_identifier),
            decreases n - i,
        {
            let e = self.entries.entry_at(i);
            if e.1.joined_contains(event_identifier) {
                out.push(Self::map_attendee_to_joined_attendee_response(&e.0, &e.1, event_identifier));
            }
            proof {
                assert(sv.take(i + 1 as int).drop_last() =~= sv.take(i as int));
                assert(sv.take(i + 1 as int).last() == sv[i as int]);
            }
            i = i + 1;
        }
        proof {
            assert(sv.take(n as int) =~= sv);
        }
        out
    }

    /// The projections of every record invited to the event.
    pub fn get_event_invites(&self, event_identifier: u64) -> (r: Vec<InviteAttendeeResponse>)
        ensures
            r@ == spec_invite_responses(self@.entries, event_identifier),
    {
        proof {
            lemma_entry_views_index(self.entries@, 0);
        }
        let ghost sv = self@.entries;
        let n = self.entries.len();
        let mut out: Vec<InviteAttendeeResponse> = Vec::new();
        let mut i: usize = 0;
        while i < n
            invariant
                i <= n,
                n == self.entries@.len(),
                sv == entry_views(self.entries@),
                sv.len() == n,
                forall|j: int| 0 <= j < n ==> #[trigger] sv[j] == (self.entries@[j].0,
                    self.entries@[j].1@),
                out@ == spec_invite_responses(sv.take(i as int), event_identifier),
            decreases n - i,
        {
            let e = self.entries.entry_at(i);
            if e.1.invites_contains(event_identifier) {
                out.push(Self::map_attendee_to_invite_attendee_response(&e.0, &e.1, event_identifier));
            }
            proof {
                assert(sv.take(i + 1 as int).drop_last() =~= sv.take(i as int));
                assert(sv.take(i + 1 as int).last() == sv[i as int]);
            }
            i = i + 1;
        }
        proof {
            assert(sv.take(n as int) =~= sv);
        }
        out
    }

    /// How many records joined the event.
    fn count_joined_for_event(&self, event_identifier: u64) -> (n: usize)
        ensures
            n == spec_joined_responses(self@.entries, event_identifier).len(),
    {
        proof {
            lemma_entry_views_index(self.entries@, 0);
        }
        let ghost sv = self@.entries;
        let total = self.entries.len();
        let mut count: usize = 0;
        let mut i: usize = 0;
        while i < total
            invariant
                i <= total,
                total == self.entries@.len(),
                sv == entry_views(self.entries@),
                sv.len() == total,
                forall|j: int| 0 <= j < total ==> #[trigger] sv[j] == (self.entries@[j].0,
                    self.entries@[j].1@),
                count == spec_joined_responses(sv.take(i as int), event_identifier).len(),
                count <= i,
            decreases total - i,
        {
            let e = self.entries.entry_at(i);
            if e.1.joined_contains(event_identifier) {
                count = count + 1;
            }
            proof {
                assert(sv.take(i + 1 as int).drop_last() =~= sv.take(i as int));
                assert(sv.take(i + 1 as int).last() == sv[i as int]);
            }
            i = i + 1;
        }
        proof {
            assert(sv.take(total as int) =~= sv);
        }
        count
    }

    /// How many records hold an invite whose event key is the identifier.
    fn count_invited_for_event(&self, event_identifier: u64) -> (n: usize)
        ensures
            n == spec_invite_responses(self@.entries, event_identifier).len(),
    {
        proof {
            lemma_entry_views_index(self.entries@, 0);
        }
        let ghost sv = self@.entries;
        let total = self.entries.len();
        let mut count: usize = 0;
        let mut i: usize = 0;
        while i < total
            invariant
                i <= total,
                total == self.entries@.len(),
                sv == entry_views(self.entries@),
                sv.len() == total,
                forall|j: int| 0 <= j < total ==> #[trigger] sv[j] == (self.entries@[j].0,
                    self.entries@[j].1@),
                count == spec_invite_responses(sv.take(i as int), event_identifier).len(),
                count <= i,
            decreases total - i,
        {
            let e = self.entries.entry_at(i);
            if e.1.invites_contains(event_identifier) {
                count = count + 1;
            }
            proof {
                assert(sv.take(i + 1 as int).drop_last() =~= sv.take(i as int));
                assert(sv.take(i + 1 as int).last() == sv[i as int]);
            }
            i = i + 1;
        }
        proof {
            assert(sv.take(total as int) =~= sv);
        }
        count
    }

    /// For each event identifier, how many records joined that event.
    pub fn get_event_attendees_count(&self, event_identifiers: Vec<u64>) -> (r: Vec<(u64, usize)>)
        ensures
            r@.len() == event_identifiers@.len(),
            forall|i: int| 0 <= i < r@.len() ==> #[trigger] r@[i] == (
                event_identifiers@[i],
                spec_joined_responses(self@.entries, event_identifiers@[i]).len() as usize,
            ),
    {
        let n = event_identifiers.len();
        let mut out: Vec<(u64, usize)> = Vec::new();
        let mut i: usize = 0;
        while i < n
            invariant
                i <= n,
                n == event_identifiers@.len(),
                out@.len() == i,
                forall|j: int| 0 <= j < i ==> #[trigger] out@[j] == (
                    event_identifiers@[j],
                    spec_joined_responses(self@.entries, event_identifiers@[j]).len() as usize,
                ),
            decreases n - i,
        {
            let e = event_identifiers[i];
            let c = self.count_joined_for_event(e);
            out.push((e, c));
            i = i + 1;
        }
        out
    }

    /// For each identifier, how many records hold an invite keyed by it.
    pub fn get_group_invites_count(&self, group_identifiers: Vec<u64>) -> (r: Vec<(u64, usize)>)
        ensures
            r@.len() == group_identifiers@.len(),
            forall|i: int| 0 <= i < r@.len() ==> #[trigger] r@[i] == (
                group_identifiers@[i],
                spec_invite_responses(self@.entries, group_identifiers@[i]).len() as usize,
            ),
    {
        let n = group_identifiers.len();
        let mut out: Vec<(u64, usize)> = Vec::new();
        let mut i: usize = 0;
        while i < n
            invariant
                i <= n,
                n == group_identifiers@.len(),
                out@.len() == i,
                forall|j: int| 0 <= j < i ==> #[trigger] out@[j] == (
                    group_identifiers@[j],
                    spec_invite_responses(self@.entries, group_identifiers@[j]).len() as usize,
                ),
            decreases n - i,
        {
            let e = group_identifiers[i];
            let c = self.count_invited_for_event(e);
            out.push((e, c));
            i = i + 1;
        }
        out
    }

    /// Record the event owner's membership, after checking that the two
    /// identifiers decode to an event and a group and that the caller is
    /// the event's own unit.
    pub fn add_owner_as_attendee(
        &mut self,
        caller: u64,
        user_principal: u64,
        event_identifier: u64,
        event_canister: u64,
        event_kind: IdentifierKind,
        group_identifier: u64,
        group_kind: IdentifierKind,
        now: u64,
    ) -> (r: Result<(), bool>)
        requires
            old(self).wf(),
            old(self)@.next_entry_id < u64::MAX,
        ensures
            final(self)@ == spec_add_owner_as_attendee(
                old(self)@,
                caller,
                user_principal,
                event_identifier,
                event_canister,
                event_kind,
                group_identifier,
                group_kind,
                now,
            ).0,
            r == spec_add_owner_as_attendee(
                old(self)@,
                caller,
                user_principal,
                event_identifier,
                event_canister,
                event_kind,
                group_identifier,
                group_kind,
                now,
            ).1,
            final(self).wf(),
    {
        if event_kind != IdentifierKind::Event {
            return Err(false);
        }
        if group_kind != IdentifierKind::Group {
            return Err(false);
        }
        if caller != event_canister {
            return Err(false);
        }
        proof {
            lemma_find_props(self@, user_principal);
        }
        let join = Join { group_identifier, updated_at: now, created_at: now };
        match self._get_attendee_from_caller(user_principal) {
            None => {
                let mut att = Attendee::new(user_principal);
                att.joined.insert(event_identifier, join);
                let id = self.add_entry(att);
                Ok(())
            },
            Some((id, mut att)) => {
                if att.joined_contains(event_identifier) {
                    return Err(true);
                }
                att.joined.insert(event_identifier, join);
                match self.update_entry(id, att) {
                    Ok(_) => Ok(()),
                    Err(e) => {
                        proof {
                            assert(false);
                        }
                        Err(true)
                    },
                }
            },
        }
    }

    /// Accept an overflow record forwarded by the coordinator: only the
    /// registered coordinator may call, the bytes must be one exact record,
    /// and its principal must be new to this shard.
    pub fn add_entry_by_parent(&mut self, caller: u64, entry: &Vec<u8>) -> (r: Result<(), ApiError>)
        requires
            old(self).wf(),
            old(self)@.next_entry_id < u64::MAX,
        ensures
            final(self).wf(),
            caller != old(self)@.parent ==> final(self)@ == old(self)@ && r == Err::<
                (),
                ApiError,
            >(ApiError::UnauthorizedCaller),
            caller == old(self)@.parent ==> match spec_decode_attendee(entry@) {
                None => final(self)@ == old(self)@ && r == Err::<(), ApiError>(
                    ApiError::InvalidEntry,
                ),
                Some(av) => {
                    if find_attendee(old(self)@.entries, av.principal) is Some {
                        final(self)@ == old(self)@ && r == Err::<(), ApiError>(
                            ApiError::DuplicateEntry,
                        )
                    } else {
                        final(self)@ == spec_add_entry(old(self)@, av).0 && r == Ok::<
                            (),
                            ApiError,
                        >(())
                    }
                },
            },
    {
        if caller != self.parent {
            return Err(ApiError::UnauthorizedCaller);
        }
        match Attendee::from_bytes(entry) {
            None => Err(ApiError::InvalidEntry),
            Some(att) => {
                proof {
                    lemma_find_props(self@, att@.principal);
                }
                match self._get_attendee_from_caller(att.principal) {
                    Some(_) => Err(ApiError::DuplicateEntry),
                    None => {
                        let _ = self.add_entry(att);
                        Ok(())
                    },
                }
            },
        }
    }

    /// The full serialized payload behind the chunked membership reads.
    pub open spec fn spec_joined_payload(s: StoreV, event_identifier: u64) -> Seq<u8> {
        spec_encode_joined_list(spec_joined_responses(s.entries, event_identifier))
    }

    /// The full serialized payload behind the chunked invite reads.
    pub open spec fn spec_invite_payload(s: StoreV, event_identifier: u64) -> Seq<u8> {
        spec_encode_invite_list(spec_invite_responses(s.entries, event_identifier))
    }

    /// One chunk of the serialized membership scan for the event. Only the
    /// registered coordinator is served; any other caller gets an empty
    /// single-chunk reply.
    pub fn get_chunked_join_data(
        &self,
        caller: u64,
        event_identifier: u64,
        chunk: usize,
        max_bytes_per_chunk: usize,
    ) -> (r: (Vec<u8>, (usize, usize)))
        requires
            max_bytes_per_chunk >= 1,
        ensures
            caller != self@.parent ==> r.0@ == Seq::<u8>::empty() && r.1 == (0usize, 0usize),
            caller == self@.parent ==> ({
                let payload = Self::spec_joined_payload(self@, event_identifier);
                &&& payload.len() <= usize::MAX
                &&& payload.len() < max_bytes_per_chunk ==> r.0@ == payload && r.1 == (
                    0usize,
                    0usize,
                )
                &&& payload.len() >= max_bytes_per_chunk ==> {
                    &&& r.0@ == chunk_of(payload, chunk as int, max_bytes_per_chunk as int)
                    &&& r.1.0 == chunk
                    &&& r.1.1 == spec_last_chunk_index(
                        payload.len() as int,
                        max_bytes_per_chunk as int,
                    )
                }
            }),
    {
        if caller != self.parent {
            return (Vec::new(), (0, 0));
        }
        let responses = self.get_event_attendees(event_identifier);
        let bytes = encode_joined_responses(&responses);
        let _ = bytes.len();
        chunk_slice(&bytes, chunk, max_bytes_per_chunk)
    }

    /// One chunk of the serialized invite scan for the event; coordinator
    /// only, as above.
    pub fn get_chunked_invite_data(
        &self,
        caller: u64,
        event_identifier: u64,
        chunk: usize,
        max_bytes_per_chunk: usize,
    ) -> (r: (Vec<u8>, (usize, usize)))
        requires
            max_bytes_per_chunk >= 1,
        ensures
            caller != self@.parent ==> r.0@ == Seq::<u8>::empty() && r.1 == (0usize, 0usize),
            caller == self@.parent ==> ({
                let payload = Self::spec_invite_payload(self@, event_identifier);
                &&& payload.len() <= usize::MAX
                &&& payload.len() < max_bytes_per_chunk ==> r.0@ == payload && r.1 == (
                    0usize,
                    0usize,
                )
                &&& payload.len() >= max_bytes_per_chunk ==> {
                    &&& r.0@ == chunk_of(payload, chunk as int, max_bytes_per_chunk as int)
                    &&& r.1.0 == chunk
                    &&& r.1.1 == spec_last_chunk_index(
                        payload.len() as int,
                        max_bytes_per_chunk as int,
                    )
                }
            }),
    {
        if caller != self.parent {
            return (Vec::new(), (0, 0));
        }
        let responses = self.get_event_invites(event_identifier);
        let bytes = encode_invite_responses(&responses);
        let _ = bytes.len();
        chunk_slice(&bytes, chunk, max_bytes_per_chunk)
    }
}

/// Whether the caller may use the store's guarded entry points: the
/// anonymous principal may not.
pub fn auth(caller: u64, anonymous: u64) -> (r: Result<(), String>)
    ensures
        caller == anonymous <==> r is Err,
{
    if caller == anonymous {
        Err(String::from_str("Unauthorized"))
    } else {
        Ok(())
    }
}

/// Whether the caller is one of the configured monitoring principals.
pub fn is_monitor(caller: u64, owners: &Vec<u64>) -> (r: bool)
    ensures
        r == owners@.contains(caller),
{
    let n = owners.len();
    let mut i: usize = 0;
    while i < n
        invariant
            i <= n,
            n == owners@.len(),
            forall|j: int| 0 <= j < i ==> owners@[j] != caller,
        decreases n - i,
    {
        if owners[i] == caller {
            return true;
        }
        i = i + 1;
    }
    false
}

/// The permission gateway's final verdict, computed from what the two role
/// lookups returned: the member lookup must name the caller, both lookups
/// must have succeeded, and the permission evaluation must have allowed the
/// action.
pub fn check_permission(
    caller: u64,
    member_principal: u64,
    member_lookup_ok: bool,
    group_lookup_ok: bool,
    has_permission: bool,
) -> (r: Result<u64, ApiError>)
    ensures
        !member_lookup_ok ==> r == Err::<u64, ApiError>(ApiError::NoPermission),
        member_lookup_ok && caller != member_principal ==> r == Err::<u64, ApiError>(
            ApiError::PrincipalMismatch,
        ),
        member_lookup_ok && caller == member_principal && !group_lookup_ok ==> r == Err::<
            u64,
            ApiError,
        >(ApiError::NoPermission),
        member_lookup_ok && caller == member_principal && group_lookup_ok && !has_permission
            ==> r == Err::<u64, ApiError>(ApiError::NoPermission),
        member_lookup_ok && caller == member_principal && group_lookup_ok && has_permission
            ==> r == Ok::<u64, ApiError>(caller),
{
    if !member_lookup_ok {
        return Err(ApiError::NoPermission);
    }
    if caller != member_principal {
        return Err(ApiError::PrincipalMismatch);
    }
    if !group_lookup_ok {
        return Err(ApiError::NoPermission);
    }
    if !has_permission {
        return Err(ApiError::NoPermission);
    }
    Ok(caller)
}

/// The principal of the record stored under `id` (arbitrary when absent).
pub open spec fn spec_entry_principal(s: StoreV, id: u64) -> u64 {
    value_of(s.entries, id).principal
}

/// Replacing a record with a well-formed one of the same principal keeps
/// the store well formed.
pub proof fn lemma_wf_after_set(s: StoreV, id: u64, a: AttendeeV)
    requires
        s.wf(),
        has_key(s.entries, id),
        a.wf(),
        a.principal == spec_entry_principal(s, id),
    ensures
        spec_set_entry(s, id, a).wf(),
{
    lemma_index_of_key(s.entries, id);
    lemma_km_insert(s.entries, id, a);
    let i = index_of_key(s.entries, id);
    let s2 = spec_set_entry(s, id, a);
    assert(forall|j: int| 0 <= j < s2.entries.len() && j != i ==> s2.entries[j] == s.entries[j]);
    assert(s2.entries[i] == (id, a));
}

/// What a found record satisfies: it is stored under its identifier, its
/// principal is the one searched for, and it is well formed.
pub proof fn lemma_find_props(s: StoreV, p: u64)
    requires
        s.wf(),
    ensures
        match find_attendee(s.entries, p) {
            Some((id, a)) => {
                &&& has_key(s.entries, id)
                &&& index_of_key(s.entries, id) == attendee_index(s.entries, p)
                &&& value_of(s.entries, id) == a
                &&& a.principal == p
                &&& a.wf()
            },
            None => forall|j: int| 0 <= j < s.entries.len() ==> s.entries[j].1.principal != p,
        },
{
    lemma_attendee_index(s.entries, p);
    let i = attendee_index(s.entries, p);
    if i != -1 {
        let id = s.entries[i].0;
        assert forall|j: int| 0 <= j < i implies s.entries[j].0 != id by {
            assert(distinct_keys(s.entries));
        }
        lemma_index_of_key_first_match(s.entries, id, i);
    }
}

/// After replacing the record under `id` with one of the same principal,
/// searching for that principal finds exactly the replacement.
pub proof fn lemma_find_after_set(s: StoreV, id: u64, a: AttendeeV)
    requires
        s.wf(),
        has_key(s.entries, id),
        value_of(s.entries, id).principal == a.principal,
    ensures
        find_attendee(spec_set_entry(s, id, a).entries, a.principal) == Some((id, a)),
{
    lemma_index_of_key(s.entries, id);
    let i = index_of_key(s.entries, id);
    let s2 = spec_set_entry(s, id, a).entries;
    assert(s2[i] == (id, a));
    assert forall|j: int| 0 <= j < i implies s2[j].1.principal != a.principal by {
        assert(s2[j] == s.entries[j]);
        assert(s.entries[j].1.principal != s.entries[i].1.principal);
    }
    lemma_attendee_index_first_match(s2, a.principal, i);
}

/// After appending a record of a new principal, searching for that
/// principal finds exactly the appended record under the fresh identifier.
pub proof fn lemma_find_after_add(s: StoreV, a: AttendeeV)
    requires
        s.wf(),
        find_attendee(s.entries, a.principal) is None,
    ensures
        find_attendee(spec_add_entry(s, a).0.entries, a.principal) == Some(
            (spec_add_entry(s, a).1, a),
        ),
{
    lemma_attendee_index(s.entries, a.principal);
    let s2 = spec_add_entry(s, a).0.entries;
    let n = s.entries.len() as int;
    assert(s2[n] == (s.next_entry_id, a));
    assert(forall|j: int| 0 <= j < n ==> s2[j] == s.entries[j]);
    lemma_attendee_index_first_match(s2, a.principal, n);
}

/// Duplicate joins are rejected idempotently: while the caller is already
/// part of the event, `join_event` answers that the caller has already
/// joined and leaves the store unchanged — so a second identical call
/// answers exactly the same, whatever privacy or timestamps it carries.
pub proof fn lemma_join_event_duplicate_rejected(
    s: StoreV,
    caller: u64,
    event_identifier: u64,
    group_identifier: u64,
    event_privacy: Privacy,
    now: u64,
    now2: u64,
)
    requires
        find_attendee(s.entries, caller) matches Some((id, a)) && has_key(
            a.joined,
            event_identifier,
        ),
    ensures
        spec_join_event(s, caller, event_identifier, group_identifier, event_privacy, now) == (
            s,
            Err::<(u64, AttendeeV), ApiError>(ApiError::AlreadyJoined),
        ),
        spec_join_event(
            spec_join_event(s, caller, event_identifier, group_identifier, event_privacy, now).0,
            caller,
            event_identifier,
            group_identifier,
            event_privacy,
            now2,
        ) == (s, Err::<(u64, AttendeeV), ApiError>(ApiError::AlreadyJoined)),
{
}

/// Invite then accept, both flows. After `invite_to_event` records an
/// owner-request invite for an attendee who has not joined the event:
/// accepting it as a user request fails with the invalid-type error and
/// changes nothing, while accepting it as an owner request succeeds — the
/// attendee's memberships then hold the event under the invited group and
/// the invite entry is gone, both in the returned record and in the store.
pub proof fn lemma_invite_accept_round_trip(
    s: StoreV,
    event_identifier: u64,
    attendee_principal: u64,
    group_identifier: u64,
    now: u64,
    now2: u64,
)
    requires
        s.wf(),
        s.next_entry_id < u64::MAX,
        find_attendee(s.entries, attendee_principal) matches Some((id, a)) ==> !has_key(
            a.joined,
            event_identifier,
        ),
    ensures
        ({
            let (s1, r1) = spec_invite_to_event(
                s,
                event_identifier,
                attendee_principal,
                group_identifier,
                now,
            );
            &&& r1 is Ok
            &&& spec_accept_invite(
                s1,
                attendee_principal,
                event_identifier,
                InviteType::UserRequest,
                now2,
            ) == (s1, Err::<(u64, AttendeeV), ApiError>(ApiError::InvalidInviteType))
            &&& ({
                let (s2, r2) = spec_accept_invite(
                    s1,
                    attendee_principal,
                    event_identifier,
                    InviteType::OwnerRequest,
                    now2,
                );
                &&& r2 matches Ok((id, a2)) && {
                    &&& has_key(a2.joined, event_identifier)
                    &&& value_of(a2.joined, event_identifier) == spec_new_join(
                        group_identifier,
                        now2,
                    )
                    &&& !has_key(a2.invites, event_identifier)
                    &&& find_attendee(s2.entries, attendee_principal) == Some((id, a2))
                }
            })
        }),
{
    let invite = spec_new_invite(group_identifier, InviteType::OwnerRequest, now);
    lemma_find_props(s, attendee_principal);
    let (s1, r1) = spec_invite_to_event(
        s,
        event_identifier,
        attendee_principal,
        group_identifier,
        now,
    );
    match find_attendee(s.entries, attendee_principal) {
        None => {
            let na = AttendeeV {
                principal: attendee_principal,
                joined: Seq::<(u64, Join)>::empty(),
                invites: km_insert(Seq::<(u64, Invite)>::empty(), event_identifier, invite),
            };
            lemma_km_insert(Seq::<(u64, Invite)>::empty(), event_identifier, invite);
            lemma_wf_after_add(s, na);
            lemma_find_after_add(s, na);
        },
        Some((id, a)) => {
            let ua = AttendeeV {
                invites: km_insert(a.invites, event_identifier, invite),
                ..a
            };
            lemma_km_insert(a.invites, event_identifier, invite);
            lemma_wf_after_set(s, id, ua);
            lemma_find_after_set(s, id, ua);
        },
    }
    let (id1, a1) = match find_attendee(s1.entries, attendee_principal) {
        Some(p) => p,
        None => arbitrary(),
    };
    assert(has_key(a1.invites, event_identifier));
    assert(value_of(a1.invites, event_identifier) == invite);
    lemma_find_props(s1, attendee_principal);
    let ua2 = AttendeeV {
        joined: km_insert(a1.joined, event_identifier, spec_new_join(group_identifier, now2)),
        invites: km_remove(a1.invites, event_identifier),
        ..a1
    };
    lemma_km_insert(a1.joined, event_identifier, spec_new_join(group_identifier, now2));
    lemma_km_remove(a1.invites, event_identifier);
    lemma_wf_after_set(s1, id1, ua2);
    lemma_find_after_set(s1, id1, ua2);
}

/// Appending a fresh record of a new principal keeps the store well formed.
pub proof fn lemma_wf_after_add(s: StoreV, a: AttendeeV)
    requires
        s.wf(),
        s.next_entry_id < u64::MAX,
        a.wf(),
        find_attendee(s.entries, a.principal) is None,
    ensures
        spec_add_entry(s, a).0.wf(),
{
    lemma_attendee_index(s.entries, a.principal);
    let s2 = spec_add_entry(s, a).0;
    let n = s.entries.len() as int;
    assert(forall|j: int| 0 <= j < n ==> s2.entries[j] == s.entries[j]);
    assert(s2.entries[n] == (s.next_entry_id, a));
}

} // verus!
