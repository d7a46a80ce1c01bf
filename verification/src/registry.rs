//! The coordinator's shard registry and the shard lifecycle: spawn an empty
//! unit, install the pending code image, seal a full shard with its closed
//! entry range, upgrade shards to a newer image, and fan reads out over the
//! shards through the chunked transfer, reassembling and paging the results.

use vstd::prelude::*;

use crate::api_error::ApiError;
use crate::attendee_model::{AttendeeV, JoinedAttendeeResponse, InviteAttendeeResponse};
use crate::chunk::{concat_chunks, spec_last_chunk_index, lemma_chunks_to_last_cover};
use crate::codec::{spec_encode_attendee, spec_decode_attendee, decode_joined_responses,
    decode_invite_responses, lemma_joined_list_round_trip, lemma_invite_list_round_trip,
    lemma_joined_list_prefix_rejected, lemma_invite_list_prefix_rejected,
    lemma_attendee_round_trip};
use crate::keymap::{KeyMap, distinct_keys, has_key, index_of_key, km_insert, value_of,
    lemma_index_of_key, lemma_km_insert};
use crate::paging::{PagedResponse, get_paged_data, spec_page_slice, spec_number_of_pages};
use crate::store::{Store, StoreV, spec_joined_responses, spec_invite_responses,
    lemma_joined_responses_len, lemma_invite_responses_len, find_attendee, spec_add_entry,
    lemma_wf_after_add};

verus! {

/// The code-image version a shard runs.
#[derive(Clone, Copy, PartialEq, Eq, Structural, Debug)]
pub enum WasmVersion {
    Uninstalled,
    Version(u64),
}

/// What a registered unit is: still empty, or a data shard.
#[derive(Clone, Copy, PartialEq, Eq, Structural, Debug)]
pub enum CanisterType {
    Empty,
    ScalableChild,
}

/// One shard's registry record: its identity, the code version installed,
/// whether it accepts new writes, and the entry-id range it stores (the
/// upper end open while the shard is the write target).
#[derive(Clone, Copy, PartialEq, Eq, Debug)]
pub struct ScalableCanisterDetails {
    pub principal: u64,
    pub wasm_version: WasmVersion,
    pub is_available: bool,
    pub canister_type: CanisterType,
    pub entry_range: (u64, Option<u64>),
}

/// The pending child code image and its provenance.
#[derive(Clone, PartialEq, Eq, Debug)]
pub struct WasmDetails {
    pub label: String,
    pub bytes: Vec<u8>,
    pub wasm_type: CanisterType,
    pub wasm_version: WasmVersion,
    pub updated_at: u64,
    pub created_at: u64,
}

/// The mathematical value of the pending code image.
#[verifier::ext_equal]
pub struct WasmDetailsV {
    pub label: Seq<char>,
    pub bytes: Seq<u8>,
    pub wasm_type: CanisterType,
    pub wasm_version: WasmVersion,
    pub updated_at: u64,
    pub created_at: u64,
}

impl View for WasmDetails {
    type V = WasmDetailsV;

    open spec fn view(&self) -> WasmDetailsV {
        WasmDetailsV {
            label: self.label@,
            bytes: self.bytes@,
            wasm_type: self.wasm_type,
            wasm_version: self.wasm_version,
            updated_at: self.updated_at,
            created_at: self.created_at,
        }
    }
}

/// A summary of the coordinator for operators.
#[derive(Clone, PartialEq, Eq, Debug)]
pub struct ScalableMetaData {
    pub name: String,
    pub canister_count: usize,
    pub has_child_wasm: bool,
    pub cycles: u64,
    pub used_data: u64,
    pub owner: u64,
    pub parent: u64,
    pub updated_at: u64,
    pub created_at: u64,
}

/// The mathematical value of the coordinator state.
#[verifier::ext_equal]
pub struct ScalableDataV {
    pub name: Seq<char>,
    pub canisters: Seq<(u64, ScalableCanisterDetails)>,
    pub parent: u64,
    pub child_wasm_data: WasmDetailsV,
    pub updated_at: u64,
    pub created_at: u64,
}

impl ScalableDataV {
    /// Registry keys are distinct and each record is stored under its own
    /// principal.
    pub open spec fn wf(&self) -> bool {
        &&& distinct_keys(self.canisters)
        &&& forall|i: int|
            0 <= i < self.canisters.len() ==> (#[trigger] self.canisters[i]).1.principal
                == self.canisters[i].0
    }
}

/// The coordinator state: its name, the registry of shards, its own
/// identity (the `parent` every shard is registered to), and the pending
/// child code image.
pub struct ScalableData {
    name: String,
    canisters: KeyMap<ScalableCanisterDetails>,
    parent: u64,
    child_wasm_data: WasmDetails,
    updated_at: u64,
    created_at: u64,
}

impl View for ScalableData {
    type V = ScalableDataV;

    closed spec fn view(&self) -> ScalableDataV {
        ScalableDataV {
            name: self.name@,
            canisters: self.canisters@,
            parent: self.parent,
            child_wasm_data: self.child_wasm_data@,
            updated_at: self.updated_at,
            created_at: self.created_at,
        }
    }
}

/// Index of the first registered shard that is available and is not the
/// caller, or -1.
pub open spec fn available_index(s: Seq<(u64, ScalableCanisterDetails)>, caller: u64) -> int
    decreases s.len(),
{
    if s.len() == 0 {
        -1
    } else if s[0].1.principal != caller && s[0].1.is_available {
        0
    } else {
        let r = available_index(s.drop_first(), caller);
        if r == -1 {
            -1
        } else {
            r + 1
        }
    }
}

/// The first available shard that is not the caller, when there is one.
pub open spec fn spec_get_available_canister(
    s: Seq<(u64, ScalableCanisterDetails)>,
    caller: u64,
) -> Option<ScalableCanisterDetails> {
    if available_index(s, caller) == -1 {
        None
    } else {
        Some(s[available_index(s, caller)].1)
    }
}

/// The registry record a freshly created, not yet installed unit gets.
pub open spec fn spec_empty_details(principal: u64) -> ScalableCanisterDetails {
    ScalableCanisterDetails {
        principal,
        wasm_version: WasmVersion::Uninstalled,
        is_available: true,
        canister_type: CanisterType::Empty,
        entry_range: (0u64, None),
    }
}

/// The registry record a unit gets once the pending image is installed.
pub open spec fn spec_installed_details(s: ScalableDataV, principal: u64) -> ScalableCanisterDetails {
    ScalableCanisterDetails {
        principal,
        wasm_version: s.child_wasm_data.wasm_version,
        is_available: true,
        canister_type: CanisterType::ScalableChild,
        entry_range: (0u64, None),
    }
}

/// The coordinator after recording a freshly created unit.
pub open spec fn spec_register_empty(s: ScalableDataV, principal: u64) -> ScalableDataV {
    ScalableDataV { canisters: km_insert(s.canisters, principal, spec_empty_details(principal)), ..s }
}

/// The coordinator after recording a successful install on a unit.
pub open spec fn spec_register_installed(s: ScalableDataV, principal: u64) -> ScalableDataV {
    ScalableDataV {
        canisters: km_insert(s.canisters, principal, spec_installed_details(s, principal)),
        ..s
    }
}

/// The sealed record of a shard that has filled up: writes closed, entry
/// range fixed at `(0, last_entry_id)`.
pub open spec fn spec_sealed_details(d: ScalableCanisterDetails, last_entry_id: u64) -> ScalableCanisterDetails {
    ScalableCanisterDetails { is_available: false, entry_range: (0u64, Some(last_entry_id)), ..d }
}

/// The coordinator after sealing the calling shard.
pub open spec fn spec_seal(s: ScalableDataV, caller: u64, last_entry_id: u64) -> ScalableDataV {
    ScalableDataV {
        canisters: km_insert(
            s.canisters,
            caller,
            spec_sealed_details(value_of(s.canisters, caller), last_entry_id),
        ),
        ..s
    }
}

/// The coordinator after recording a successful code upgrade on a shard.
pub open spec fn spec_record_upgraded(s: ScalableDataV, principal: u64) -> ScalableDataV {
    ScalableDataV {
        canisters: km_insert(
            s.canisters,
            principal,
            ScalableCanisterDetails {
                wasm_version: s.child_wasm_data.wasm_version,
                ..value_of(s.canisters, principal)
            },
        ),
        ..s
    }
}

impl ScalableData {
    pub open spec fn wf(&self) -> bool {
        self@.wf()
    }

    /// A fresh coordinator with no shards and no code image. `parent` is
    /// the coordinator's own identity; every shard it spawns is registered
    /// to it.
    pub fn new(name: String, parent: u64, now: u64) -> (r: Self)
        ensures
            r@.name == name@,
            r@.parent == parent,
            r@.canisters == Seq::<(u64, ScalableCanisterDetails)>::empty(),
            r@.child_wasm_data.bytes == Seq::<u8>::empty(),
            r@.updated_at == now,
            r@.created_at == now,
            r.wf(),
    {
        ScalableData {
            name,
            canisters: KeyMap::new(),
            parent,
            child_wasm_data: WasmDetails {
                label: String::new(),
                bytes: Vec::new(),
                wasm_type: CanisterType::Empty,
                wasm_version: WasmVersion::Uninstalled,
                updated_at: now,
                created_at: now,
            },
            updated_at: now,
            created_at: now,
        }
    }

    /// The coordinator's name.
    pub fn get_name(&self) -> (r: &String)
        ensures
            r@ == self@.name,
    {
        &self.name
    }

    /// The coordinator's own identity.
    pub fn get_parent(&self) -> (r: u64)
        ensures
            r == self@.parent,
    {
        self.parent
    }

    /// The version of the pending child code image.
    pub fn get_child_wasm_version(&self) -> (r: WasmVersion)
        ensures
            r == self@.child_wasm_data.wasm_version,
    {
        self.child_wasm_data.wasm_version
    }

    /// All registered shard records, in registration order.
    pub fn get_canisters(&self) -> (r: Vec<ScalableCanisterDetails>)
        ensures
            r@.len() == self@.canisters.len(),
            forall|i: int| 0 <= i < r@.len() ==> #[trigger] r@[i] == self@.canisters[i].1,
    {
        let n = self.canisters.len();
        let mut out: Vec<ScalableCanisterDetails> = Vec::new();
        let mut i: usize = 0;
        while i < n
            invariant
                i <= n,
                n == self@.canisters.len(),
                out@.len() == i,
                forall|j: int| 0 <= j < i ==> #[trigger] out@[j] == self@.canisters[j].1,
            decreases n - i,
        {
            let e = self.canisters.entry_at(i);
            out.push(e.1);
            i = i + 1;
        }
        out
    }

    /// The first shard that accepts writes and is not the caller; a shard
    /// asking for a sibling never gets itself back.
    pub fn get_available_canister(&self, caller: u64) -> (r: Result<ScalableCanisterDetails, String>)
        ensures
            match spec_get_available_canister(self@.canisters, caller) {
                Some(d) => r matches Ok(rd) && rd == d,
                None => r matches Err(m) && m@ == "No available canister found"@,
            },
    {
        let n = self.canisters.len();
        let mut i: usize = 0;
        while i < n
            invariant
                i <= n,
                n == self@.canisters.len(),
                forall|j: int|
                    0 <= j < i ==> !((#[trigger] self@.canisters[j]).1.principal != caller
                        && self@.canisters[j].1.is_available),
            decreases n - i,
        {
            let e = self.canisters.entry_at(i);
            if e.1.principal != caller && e.1.is_available {
                proof {
                    lemma_available_index_first_match(self@.canisters, caller, i as int);
                }
                return Ok(e.1);
            }
            i = i + 1;
        }
        proof {
            lemma_available_index_none(self@.canisters, caller);
        }
        Err(String::from_str("No available canister found"))
    }

    /// Whether the coordinator still has to spawn its first shard: a code
    /// image is present and no unit is registered yet.
    pub fn should_initialize_first_child(&self) -> (r: bool)
        ensures
            r == (self@.child_wasm_data.bytes.len() > 0 && self@.canisters.len() == 0),
    {
        self.child_wasm_data.bytes.len() > 0 && self.canisters.len() == 0
    }

    /// Whether a shard's request to spawn a sibling can proceed: a code
    /// image must be configured and the caller must be a registered shard.
    pub fn check_spawn_request(&self, caller: u64) -> (r: Result<(), ApiError>)
        ensures
            self@.child_wasm_data.bytes.len() == 0 ==> r == Err::<(), ApiError>(
                ApiError::NoWasmSpecified,
            ),
            self@.child_wasm_data.bytes.len() > 0 && !has_key(self@.canisters, caller) ==> r
                == Err::<(), ApiError>(ApiError::UnknownCanister),
            self@.child_wasm_data.bytes.len() > 0 && has_key(self@.canisters, caller) ==> r
                == Ok::<(), ApiError>(()),
    {
        if self.child_wasm_data.bytes.len() == 0 {
            return Err(ApiError::NoWasmSpecified);
        }
        if !self.canisters.contains_key(caller) {
            return Err(ApiError::UnknownCanister);
        }
        Ok(())
    }

    /// Record a freshly created, not yet installed unit as an available
    /// registry entry.
    pub fn register_empty_canister(&mut self, principal: u64)
        requires
            old(self).wf(),
        ensures
            final(self)@ == spec_register_empty(old(self)@, principal),
            final(self).wf(),
    {
        proof {
            lemma_km_insert(self.canisters@, principal, spec_empty_details(principal));
        }
        self.canisters.insert(
            principal,
            ScalableCanisterDetails {
                principal,
                wasm_version: WasmVersion::Uninstalled,
                is_available: true,
                canister_type: CanisterType::Empty,
                entry_range: (0, None),
            },
        );
        proof {
            lemma_wf_after_insert(old(self)@, principal, spec_empty_details(principal));
        }
    }

    /// Record a successful install of the pending image on a unit; refused
    /// while no image is configured.
    pub fn register_installed_canister(&mut self, principal: u64) -> (r: Result<(), ApiError>)
        requires
            old(self).wf(),
        ensures
            old(self)@.child_wasm_data.bytes.len() == 0 ==> final(self)@ == old(self)@ && r
                == Err::<(), ApiError>(ApiError::NoWasmSpecified),
            old(self)@.child_wasm_data.bytes.len() > 0 ==> final(self)@ == spec_register_installed(
                old(self)@,
                principal,
            ) && r == Ok::<(), ApiError>(()),
            final(self).wf(),
    {
        if self.child_wasm_data.bytes.len() == 0 {
            return Err(ApiError::NoWasmSpecified);
        }
        let details = ScalableCanisterDetails {
            principal,
            wasm_version: self.child_wasm_data.wasm_version,
            is_available: true,
            canister_type: CanisterType::ScalableChild,
            entry_range: (0, None),
        };
        proof {
            lemma_km_insert(self.canisters@, principal, details);
        }
        self.canisters.insert(principal, details);
        proof {
            lemma_wf_after_insert(old(self)@, principal, spec_installed_details(old(self)@, principal));
        }
        Ok(())
    }

    /// Seal the calling shard: it stops accepting writes and its entry
    /// range closes at `last_entry_id`.
    pub fn seal_canister(&mut self, caller: u64, last_entry_id: u64) -> (r: Result<(), ApiError>)
        requires
            old(self).wf(),
        ensures
            !has_key(old(self)@.canisters, caller) ==> final(self)@ == old(self)@ && r == Err::<
                (),
                ApiError,
            >(ApiError::UnknownCanister),
            has_key(old(self)@.canisters, caller) ==> final(self)@ == spec_seal(
                old(self)@,
                caller,
                last_entry_id,
            ) && r == Ok::<(), ApiError>(()),
            final(self).wf(),
    {
        proof {
            lemma_index_of_key(self.canisters@, caller);
        }
        match self.canisters.get(caller) {
            None => Err(ApiError::UnknownCanister),
            Some(found) => {
                let sealed = ScalableCanisterDetails {
                    principal: found.principal,
                    wasm_version: found.wasm_version,
                    is_available: false,
                    canister_type: found.canister_type,
                    entry_range: (0, Some(last_entry_id)),
                };
                proof {
                    lemma_km_insert(self.canisters@, caller, sealed);
                }
                self.canisters.insert(caller, sealed);
                proof {
                    lemma_wf_after_insert(
                        old(self)@,
                        caller,
                        spec_sealed_details(value_of(old(self)@.canisters, caller), last_entry_id),
                    );
                }
                Ok(())
            },
        }
    }

    /// Whether a shard needs the pending image, and the image to install:
    /// unknown shards and up-to-date shards are refused.
    pub fn check_upgrade(&self, canister_principal: u64) -> (r: Result<Vec<u8>, ApiError>)
        ensures
            !has_key(self@.canisters, canister_principal) ==> r == Err::<Vec<u8>, ApiError>(
                ApiError::NoChildrenFound,
            ),
            has_key(self@.canisters, canister_principal) && value_of(
                self@.canisters,
                canister_principal,
            ).wasm_version == self@.child_wasm_data.wasm_version ==> r == Err::<Vec<u8>, ApiError>(
                ApiError::CanisterUpToDate,
            ),
            has_key(self@.canisters, canister_principal) && value_of(
                self@.canisters,
                canister_principal,
            ).wasm_version != self@.child_wasm_data.wasm_version ==> (r matches Ok(b) && b@
                == self@.child_wasm_data.bytes),
    {
        match self.canisters.get(canister_principal) {
            None => Err(ApiError::NoChildrenFound),
            Some(found) => {
                if found.wasm_version == self.child_wasm_data.wasm_version {
                    return Err(ApiError::CanisterUpToDate);
                }
                Ok(vstd::slice::slice_to_vec(self.child_wasm_data.bytes.as_slice()))
            },
        }
    }

    /// Record a successful code upgrade: the shard now runs the pending
    /// image's version.
    pub fn record_upgraded_canister(&mut self, canister_principal: u64) -> (r: Result<
        ScalableCanisterDetails,
        ApiError,
    >)
        requires
            old(self).wf(),
        ensures
            !has_key(old(self)@.canisters, canister_principal) ==> final(self)@ == old(self)@ && r
                == Err::<ScalableCanisterDetails, ApiError>(ApiError::NoChildrenFound),
            has_key(old(self)@.canisters, canister_principal) ==> {
                &&& final(self)@ == spec_record_upgraded(old(self)@, canister_principal)
                &&& r matches Ok(d) && d == ScalableCanisterDetails {
                    wasm_version: old(self)@.child_wasm_data.wasm_version,
                    ..value_of(old(self)@.canisters, canister_principal)
                }
            },
            final(self).wf(),
    {
        proof {
            lemma_index_of_key(self.canisters@, canister_principal);
        }
        match self.canisters.get(canister_principal) {
            None => Err(ApiError::NoChildrenFound),
            Some(found) => {
                let updated = ScalableCanisterDetails {
                    principal: found.principal,
                    wasm_version: self.child_wasm_data.wasm_version,
                    is_available: found.is_available,
                    canister_type: found.canister_type,
                    entry_range: found.entry_range,
                };
                proof {
                    lemma_km_insert(self.canisters@, canister_principal, updated);
                }
                self.canisters.insert(canister_principal, updated);
                proof {
                    lemma_wf_after_insert(
                        old(self)@,
                        canister_principal,
                        ScalableCanisterDetails {
                            wasm_version: old(self)@.child_wasm_data.wasm_version,
                            ..value_of(old(self)@.canisters, canister_principal)
                        },
                    );
                }
                Ok(updated)
            },
        }
    }

    /// The shards whose installed version differs from the pending image,
    /// in registration order.
    pub fn canisters_needing_upgrade(&self) -> (r: Vec<u64>)
        ensures
            r@ == spec_needing_upgrade(self@.canisters, self@.child_wasm_data.wasm_version),
    {
        let n = self.canisters.len();
        let mut out: Vec<u64> = Vec::new();
        let mut i: usize = 0;
        while i < n
            invariant
                i <= n,
                n == self@.canisters.len(),
                out@ == spec_needing_upgrade(
                    self@.canisters.take(i as int),
                    self@.child_wasm_data.wasm_version,
                ),
            decreases n - i,
        {
            let e = self.canisters.entry_at(i);
            if !wasm_version_equal(e.1.wasm_version, self.child_wasm_data.wasm_version) {
                out.push(e.0);
            }
            proof {
                assert(self@.canisters.take(i + 1 as int).drop_last() =~= self@.canisters.take(
                    i as int,
                ));
                assert(self@.canisters.take(i + 1 as int).last() == self@.canisters[i as int]);
            }
            i = i + 1;
        }
        proof {
            assert(self@.canisters.take(n as int) =~= self@.canisters);
        }
        out
    }

    /// Build the pending-image record from a fresh code image; an empty
    /// image and an unchanged image are both refused.
    pub fn get_child_wasm_data(&self, bytes: Vec<u8>, version: u64, now: u64) -> (r: Result<
        WasmDetails,
        String,
    >)
        ensures
            bytes@.len() == 0 ==> (r matches Err(m) && m@
                == "No WASM found, skipping child WASM update"@),
            bytes@.len() > 0 && bytes@ == self@.child_wasm_data.bytes ==> (r matches Err(m) && m@
                == "WASM is the same, skipping child WASM update"@),
            bytes@.len() > 0 && bytes@ != self@.child_wasm_data.bytes ==> (r matches Ok(d) && d@
                == WasmDetailsV {
                label: "child_event_attendee_canister"@,
                bytes: bytes@,
                wasm_type: CanisterType::ScalableChild,
                wasm_version: WasmVersion::Version(version),
                updated_at: now,
                created_at: self@.child_wasm_data.created_at,
            }),
    {
        if bytes.len() == 0 {
            return Err(String::from_str("No WASM found, skipping child WASM update"));
        }
        if bytes_equal(&bytes, &self.child_wasm_data.bytes) {
            return Err(String::from_str("WASM is the same, skipping child WASM update"));
        }
        Ok(
            WasmDetails {
                label: String::from_str("child_event_attendee_canister"),
                bytes,
                wasm_type: CanisterType::ScalableChild,
                wasm_version: WasmVersion::Version(version),
                updated_at: now,
                created_at: self.child_wasm_data.created_at,
            },
        )
    }

    /// Install a new pending code image on the coordinator.
    pub fn set_child_wasm_data(&mut self, details: WasmDetails, now: u64)
        requires
            old(self).wf(),
        ensures
            final(self)@ == (ScalableDataV {
                child_wasm_data: details@,
                updated_at: now,
                ..old(self)@
            }),
            final(self).wf(),
    {
        self.child_wasm_data = details;
        self.updated_at = now;
    }
}

/// What one shard contributes to a fan-out membership read: its filtered
/// projections when the chunk protocol delivers the payload intact; nothing
/// when the shard answers someone other than its registered coordinator, or
/// when the payload spans exactly two chunks — the consumer fetches past
/// chunk `0` only when the reported last index exceeds `1`, so such a reply
/// arrives truncated and fails to decode.
pub open spec fn spec_fetch_joined(shard: StoreV, caller: u64, event_identifier: u64, m: int) -> Seq<
    JoinedAttendeeResponse,
> {
    if caller != shard.parent {
        Seq::empty()
    } else {
        let payload = Store::spec_joined_payload(shard, event_identifier);
        if payload.len() >= m && spec_last_chunk_index(payload.len() as int, m) == 1 {
            Seq::empty()
        } else {
            spec_joined_responses(shard.entries, event_identifier)
        }
    }
}

/// What one shard contributes to a fan-out invite read; as above.
pub open spec fn spec_fetch_invites(shard: StoreV, caller: u64, event_identifier: u64, m: int) -> Seq<
    InviteAttendeeResponse,
> {
    if caller != shard.parent {
        Seq::empty()
    } else {
        let payload = Store::spec_invite_payload(shard, event_identifier);
        if payload.len() >= m && spec_last_chunk_index(payload.len() as int, m) == 1 {
            Seq::empty()
        } else {
            spec_invite_responses(shard.entries, event_identifier)
        }
    }
}

/// The shards' contributions to a fan-out membership read, concatenated in
/// shard order.
pub open spec fn spec_fanout_joined(
    shards: Seq<StoreV>,
    caller: u64,
    event_identifier: u64,
    m: int,
) -> Seq<JoinedAttendeeResponse>
    decreases shards.len(),
{
    if shards.len() == 0 {
        Seq::empty()
    } else {
        spec_fanout_joined(shards.drop_last(), caller, event_identifier, m) + spec_fetch_joined(
            shards.last(),
            caller,
            event_identifier,
            m,
        )
    }
}

/// The shards' contributions to a fan-out invite read, concatenated in
/// shard order.
pub open spec fn spec_fanout_invites(
    shards: Seq<StoreV>,
    caller: u64,
    event_identifier: u64,
    m: int,
) -> Seq<InviteAttendeeResponse>
    decreases shards.len(),
{
    if shards.len() == 0 {
        Seq::empty()
    } else {
        spec_fanout_invites(shards.drop_last(), caller, event_identifier, m) + spec_fetch_invites(
            shards.last(),
            caller,
            event_identifier,
            m,
        )
    }
}

impl ScalableData {
    /// Fetch one shard's membership scan through the chunked transfer:
    /// chunk `0` first, then — only when the reported last index exceeds
    /// `1` — the remaining chunks in order, concatenated and decoded once.
    #[verifier::loop_isolation(false)]
    pub fn get_filtered_joined_child_data(&self, shard: &Store, group_identifier: u64) -> (r: Vec<
        JoinedAttendeeResponse,
    >)
        ensures
            r@ == spec_fetch_joined(shard@, self@.parent, group_identifier, 2_000_000),
    {
        let max: usize = 2_000_000;
        let caller = self.get_parent();
        let _ = shard.entry_count();
        let ghost payload = Store::spec_joined_payload(shard@, group_identifier);
        let ghost responses = spec_joined_responses(shard@.entries, group_identifier);
        proof {
            lemma_joined_responses_len(shard@.entries, group_identifier);
        }
        let reply = shard.get_chunked_join_data(caller, group_identifier, 0, max);
        let mut bytes = reply.0;
        let last = (reply.1).1;
        if last > 1 {
            proof {
                assert(concat_chunks(payload, 0, max as int) =~= Seq::<u8>::empty());
                assert(bytes@ =~= concat_chunks(payload, 1, max as int));
                assert(last < usize::MAX) by (nonlinear_arith)
                    requires
                        payload.len() <= usize::MAX,
                        last == payload.len() as int / (max as int),
                        max == 2_000_000,
                ;
            }
            let mut i: usize = 1;
            while i <= last
                invariant
                    1 <= i <= last + 1,
                    bytes@ == concat_chunks(payload, i as int, max as int),
                decreases last + 1 - i,
            {
                let part_reply = shard.get_chunked_join_data(caller, group_identifier, i, max);
                let mut part = part_reply.0;
                bytes.append(&mut part);
                i = i + 1;
            }
            proof {
                lemma_chunks_to_last_cover(payload, max as int);
            }
        }
        proof {
            if caller == shard@.parent {
                if payload.len() < max {
                    lemma_joined_list_round_trip(responses);
                } else if last == 0 {
                    assert(bytes@ =~= payload);
                    lemma_joined_list_round_trip(responses);
                } else if last == 1 {
                    assert(bytes@ =~= payload.take(max as int));
                    lemma_joined_list_prefix_rejected(responses, max as int);
                } else {
                    lemma_joined_list_round_trip(responses);
                }
            }
        }
        match decode_joined_responses(&bytes) {
            Some(v) => v,
            None => Vec::new(),
        }
    }

    /// Fetch one shard's invite scan through the chunked transfer; as
    /// above.
    #[verifier::loop_isolation(false)]
    pub fn get_filtered_invites_child_data(&self, shard: &Store, group_identifier: u64) -> (r: Vec<
        InviteAttendeeResponse,
    >)
        ensures
            r@ == spec_fetch_invites(shard@, self@.parent, group_identifier, 2_000_000),
    {
        let max: usize = 2_000_000;
        let caller = self.get_parent();
        let _ = shard.entry_count();
        let ghost payload = Store::spec_invite_payload(shard@, group_identifier);
        let ghost responses = spec_invite_responses(shard@.entries, group_identifier);
        proof {
            lemma_invite_responses_len(shard@.entries, group_identifier);
        }
        let reply = shard.get_chunked_invite_data(caller, group_identifier, 0, max);
        let mut bytes = reply.0;
        let last = (reply.1).1;
        if last > 1 {
            proof {
                assert(concat_chunks(payload, 0, max as int) =~= Seq::<u8>::empty());
                assert(bytes@ =~= concat_chunks(payload, 1, max as int));
                assert(last < usize::MAX) by (nonlinear_arith)
                    requires
                        payload.len() <= usize::MAX,
                        last == payload.len() as int / (max as int),
                        max == 2_000_000,
                ;
            }
            let mut i: usize = 1;
            while i <= last
                invariant
                    1 <= i <= last + 1,
                    bytes@ == concat_chunks(payload, i as int, max as int),
                decreases last + 1 - i,
            {
                let part_reply = shard.get_chunked_invite_data(caller, group_identifier, i, max);
                let mut part = part_reply.0;
                bytes.append(&mut part);
                i = i + 1;
            }
            proof {
                lemma_chunks_to_last_cover(payload, max as int);
            }
        }
        proof {
            if caller == shard@.parent {
                if payload.len() < max {
                    lemma_invite_list_round_trip(responses);
                } else if last == 0 {
                    assert(bytes@ =~= payload);
                    lemma_invite_list_round_trip(responses);
                } else if last == 1 {
                    assert(bytes@ =~= payload.take(max as int));
                    lemma_invite_list_prefix_rejected(responses, max as int);
                } else {
                    lemma_invite_list_round_trip(responses);
                }
            }
        }
        match decode_invite_responses(&bytes) {
            Some(v) => v,
            None => Vec::new(),
        }
    }

    /// Fan a membership read out over all shards, concatenate the replies
    /// in shard order, and page the concatenation uniformly.
    pub fn get_joined_child_canister_data(
        &self,
        shards: &Vec<Store>,
        group_identifier: u64,
        limit: usize,
        page: usize,
    ) -> (r: PagedResponse<JoinedAttendeeResponse>)
        ensures
            ({
                let all = spec_fanout_joined(
                    shards@.map_values(|s: Store| s@),
                    self@.parent,
                    group_identifier,
                    2_000_000,
                );
                &&& r.page == page
                &&& r.limit == limit
                &&& r.total == all.len()
                &&& r.number_of_pages == spec_number_of_pages(all.len() as int, limit as int)
                &&& limit >= 1 ==> r.data@ == spec_page_slice(all, limit as int, page as int)
                &&& limit == 0 ==> r.data@ == Seq::<JoinedAttendeeResponse>::empty()
            }),
    {
        let ghost views = shards@.map_values(|s: Store| s@);
        let n = shards.len();
        let mut all: Vec<JoinedAttendeeResponse> = Vec::new();
        let mut i: usize = 0;
        while i < n
            invariant
                i <= n,
                n == shards@.len(),
                views == shards@.map_values(|s: Store| s@),
                all@ == spec_fanout_joined(
                    views.take(i as int),
                    self@.parent,
                    group_identifier,
                    2_000_000,
                ),
            decreases n - i,
        {
            let mut part = self.get_filtered_joined_child_data(&shards[i], group_identifier);
            all.append(&mut part);
            proof {
                assert(views.take(i + 1 as int).drop_last() =~= views.take(i as int));
                assert(views.take(i + 1 as int).last() == views[i as int]);
                assert(views[i as int] == shards@[i as int]@);
            }
            i = i + 1;
        }
        proof {
            assert(views.take(n as int) =~= views);
        }
        get_paged_data(all, limit, page)
    }

    /// Fan an invite read out over all shards; as above.
    pub fn get_invites_child_canister_data(
        &self,
        shards: &Vec<Store>,
        group_identifier: u64,
        limit: usize,
        page: usize,
    ) -> (r: PagedResponse<InviteAttendeeResponse>)
        ensures
            ({
                let all = spec_fanout_invites(
                    shards@.map_values(|s: Store| s@),
                    self@.parent,
                    group_identifier,
                    2_000_000,
                );
                &&& r.page == page
                &&& r.limit == limit
                &&& r.total == all.len()
                &&& r.number_of_pages == spec_number_of_pages(all.len() as int, limit as int)
                &&& limit >= 1 ==> r.data@ == spec_page_slice(all, limit as int, page as int)
                &&& limit == 0 ==> r.data@ == Seq::<InviteAttendeeResponse>::empty()
            }),
    {
        let ghost views = shards@.map_values(|s: Store| s@);
        let n = shards.len();
        let mut all: Vec<InviteAttendeeResponse> = Vec::new();
        let mut i: usize = 0;
        while i < n
            invariant
                i <= n,
                n == shards@.len(),
                views == shards@.map_values(|s: Store| s@),
                all@ == spec_fanout_invites(
                    views.take(i as int),
                    self@.parent,
                    group_identifier,
                    2_000_000,
                ),
            decreases n - i,
        {
            let mut part = self.get_filtered_invites_child_data(&shards[i], group_identifier);
            all.append(&mut part);
            proof {
                assert(views.take(i + 1 as int).drop_last() =~= views.take(i as int));
                assert(views.take(i + 1 as int).last() == views[i as int]);
                assert(views[i as int] == shards@[i as int]@);
            }
            i = i + 1;
        }
        proof {
            assert(views.take(n as int) =~= views);
        }
        get_paged_data(all, limit, page)
    }
}

/// Shard overflow handled end to end. With a code image configured, the
/// full shard registered, and a fresh identity for the sibling: recording
/// the created unit, recording its install, and sealing the caller leaves a
/// registry with exactly one new shard — available, of the data-shard kind,
/// running the pending image — while the caller is sealed with the closed
/// entry range `(0, last_entry_id)` and every other shard is untouched; and
/// the forwarded overflow record, carried as bytes, decodes on the new
/// shard exactly as it was and is stored there under a fresh identifier.
pub proof fn lemma_spawn_and_seal(
    s: ScalableDataV,
    caller: u64,
    new_principal: u64,
    last_entry_id: u64,
    entry: AttendeeV,
    new_shard: StoreV,
)
    requires
        s.wf(),
        s.child_wasm_data.bytes.len() > 0,
        has_key(s.canisters, caller),
        !has_key(s.canisters, new_principal),
        caller != new_principal,
        entry.wf(),
        entry.joined.len() <= u64::MAX,
        entry.invites.len() <= u64::MAX,
        new_shard.wf(),
        new_shard.next_entry_id < u64::MAX,
        find_attendee(new_shard.entries, entry.principal) is None,
    ensures
        ({
            let s1 = spec_register_empty(s, new_principal);
            let s2 = spec_register_installed(s1, new_principal);
            let s3 = spec_seal(s2, caller, last_entry_id);
            &&& s3.wf()
            &&& s3.canisters.len() == s.canisters.len() + 1
            &&& has_key(s3.canisters, new_principal)
            &&& value_of(s3.canisters, new_principal).is_available
            &&& value_of(s3.canisters, new_principal).canister_type == CanisterType::ScalableChild
            &&& value_of(s3.canisters, new_principal).wasm_version == s.child_wasm_data.wasm_version
            &&& !value_of(s3.canisters, caller).is_available
            &&& value_of(s3.canisters, caller).entry_range == (0u64, Some(last_entry_id))
            &&& forall|p: u64|
                p != caller && p != new_principal ==> has_key(s3.canisters, p) == has_key(
                    s.canisters,
                    p,
                )
            &&& forall|p: u64|
                p != caller && p != new_principal && has_key(s.canisters, p) ==> value_of(
                    s3.canisters,
                    p,
                ) == value_of(s.canisters, p)
            &&& spec_decode_attendee(spec_encode_attendee(entry)) == Some(entry)
            &&& ({
                let (shard2, id) = spec_add_entry(new_shard, entry);
                &&& shard2.wf()
                &&& has_key(shard2.entries, id)
                &&& value_of(shard2.entries, id) == entry
            })
        }),
{
    let s1 = spec_register_empty(s, new_principal);
    let s2 = spec_register_installed(s1, new_principal);
    let s3 = spec_seal(s2, caller, last_entry_id);
    lemma_km_insert(s.canisters, new_principal, spec_empty_details(new_principal));
    lemma_wf_after_insert(s, new_principal, spec_empty_details(new_principal));
    lemma_km_insert(s1.canisters, new_principal, spec_installed_details(s1, new_principal));
    lemma_wf_after_insert(s1, new_principal, spec_installed_details(s1, new_principal));
    lemma_index_of_key(s2.canisters, caller);
    assert(value_of(s2.canisters, caller).principal == caller) by {
        let i = index_of_key(s2.canisters, caller);
        assert(s2.canisters[i].1.principal == s2.canisters[i].0);
    }
    lemma_km_insert(
        s2.canisters,
        caller,
        spec_sealed_details(value_of(s2.canisters, caller), last_entry_id),
    );
    lemma_wf_after_insert(
        s2,
        caller,
        spec_sealed_details(value_of(s2.canisters, caller), last_entry_id),
    );
    lemma_attendee_round_trip(entry);
    let (shard2, id) = spec_add_entry(new_shard, entry);
    lemma_wf_after_add(new_shard, entry);
    lemma_index_of_key(new_shard.entries, id);
    assert(!has_key(new_shard.entries, id)) by {
        if has_key(new_shard.entries, id) {
            let i = index_of_key(new_shard.entries, id);
            assert(new_shard.entries[i].0 < new_shard.next_entry_id);
        }
    }
    lemma_km_insert(new_shard.entries, id, entry);
    assert(shard2.entries =~= km_insert(new_shard.entries, id, entry));
}

/// Whether two installed versions are the same.
fn wasm_version_equal(a: WasmVersion, b: WasmVersion) -> (r: bool)
    ensures
        r == (a == b),
{
    match (a, b) {
        (WasmVersion::Uninstalled, WasmVersion::Uninstalled) => true,
        (WasmVersion::Version(x), WasmVersion::Version(y)) => x == y,
        _ => false,
    }
}

/// Whether two byte strings hold the same bytes.
fn bytes_equal(a: &Vec<u8>, b: &Vec<u8>) -> (r: bool)
    ensures
        r == (a@ == b@),
{
    let n = a.len();
    if n != b.len() {
        proof {
            assert(a@.len() != b@.len());
        }
        return false;
    }
    let mut i: usize = 0;
    while i < n
        invariant
            i <= n,
            n == a@.len(),
            n == b@.len(),
            forall|j: int| 0 <= j < i ==> a@[j] == b@[j],
        decreases n - i,
    {
        if a[i] != b[i] {
            return false;
        }
        i = i + 1;
    }
    proof {
        assert(a@ =~= b@);
    }
    true
}

/// The registered shards that run something other than `version`, in
/// registration order.
pub open spec fn spec_needing_upgrade(
    s: Seq<(u64, ScalableCanisterDetails)>,
    version: WasmVersion,
) -> Seq<u64>
    decreases s.len(),
{
    if s.len() == 0 {
        Seq::empty()
    } else {
        let prefix = spec_needing_upgrade(s.drop_last(), version);
        if s.last().1.wasm_version != version {
            prefix.push(s.last().0)
        } else {
            prefix
        }
    }
}

/// `available_index` points at the first available non-caller shard.
pub proof fn lemma_available_index_first_match(
    s: Seq<(u64, ScalableCanisterDetails)>,
    caller: u64,
    i: int,
)
    requires
        0 <= i < s.len(),
        s[i].1.principal != caller && s[i].1.is_available,
        forall|j: int| 0 <= j < i ==> !(s[j].1.principal != caller && s[j].1.is_available),
    ensures
        available_index(s, caller) == i,
    decreases s.len(),
{
    if i > 0 {
        assert(forall|j: int| 0 <= j < s.drop_first().len() ==> s.drop_first()[j] == s[j + 1]);
        lemma_available_index_first_match(s.drop_first(), caller, i - 1);
    }
}

/// With no available non-caller shard, `available_index` is -1.
pub proof fn lemma_available_index_none(s: Seq<(u64, ScalableCanisterDetails)>, caller: u64)
    requires
        forall|j: int|
            0 <= j < s.len() ==> !((#[trigger] s[j]).1.principal != caller
                && s[j].1.is_available),
    ensures
        available_index(s, caller) == -1,
    decreases s.len(),
{
    if s.len() > 0 {
        assert(forall|j: int| 0 <= j < s.drop_first().len() ==> s.drop_first()[j] == s[j + 1]);
        lemma_available_index_none(s.drop_first(), caller);
    }
}

/// Inserting a record stored under its own principal keeps the registry
/// well formed.
pub proof fn lemma_wf_after_insert(s: ScalableDataV, key: u64, d: ScalableCanisterDetails)
    requires
        s.wf(),
        d.principal == key,
    ensures
        (ScalableDataV { canisters: km_insert(s.canisters, key, d), ..s }).wf(),
{
    lemma_index_of_key(s.canisters, key);
    lemma_km_insert(s.canisters, key, d);
    let s2 = km_insert(s.canisters, key, d);
    if has_key(s.canisters, key) {
        let i = index_of_key(s.canisters, key);
        assert(forall|j: int| 0 <= j < s2.len() && j != i ==> s2[j] == s.canisters[j]);
        assert(s2[i] == (key, d));
    } else {
        let n = s.canisters.len() as int;
        assert(forall|j: int| 0 <= j < n ==> s2[j] == s.canisters[j]);
        assert(s2[n] == (key, d));
    }
}

} // verus!
