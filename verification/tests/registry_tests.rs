use event_attendee::api_error::ApiError;
use event_attendee::codec::decode_joined_responses;
use event_attendee::attendee_model::{Attendee, InviteType, Join, Privacy};
use event_attendee::paging::get_paged_data;
use event_attendee::registry::{CanisterType, ScalableData, WasmVersion};
use event_attendee::store::Store;

const COORDINATOR: u64 = 1;

fn coordinator_with_wasm() -> ScalableData {
    let mut data = ScalableData::new(String::from("event_attendees"), COORDINATOR, 100);
    let details = data
        .get_child_wasm_data(vec![1, 2, 3, 4], 1, 101)
        .expect("a fresh image is accepted");
    data.set_child_wasm_data(details, 101);
    data
}

#[test]
fn wasm_data_rules() {
    let mut data = ScalableData::new(String::from("event_attendees"), COORDINATOR, 100);
    let empty = data.get_child_wasm_data(vec![], 1, 101);
    assert_eq!(empty.err().unwrap(), "No WASM found, skipping child WASM update");
    let details = data.get_child_wasm_data(vec![1, 2, 3, 4], 1, 101).unwrap();
    assert_eq!(details.wasm_version, WasmVersion::Version(1));
    assert_eq!(details.wasm_type, CanisterType::ScalableChild);
    data.set_child_wasm_data(details, 101);
    let same = data.get_child_wasm_data(vec![1, 2, 3, 4], 2, 102);
    assert_eq!(same.err().unwrap(), "WASM is the same, skipping child WASM update");
}

#[test]
fn spawn_and_seal_produces_one_new_available_shard() {
    let mut data = coordinator_with_wasm();
    // the first child, spawned at initialization time
    assert!(data.should_initialize_first_child());
    data.register_empty_canister(10);
    data.register_installed_canister(10).unwrap();
    assert!(!data.should_initialize_first_child());

    // shard 10 reports itself full at entry 41 and asks for a sibling
    let overflow = {
        let mut attendee = Attendee::new(5);
        attendee.joined.insert(
            100,
            Join { group_identifier: 200, updated_at: 1, created_at: 1 },
        );
        attendee.to_bytes()
    };
    assert_eq!(data.check_spawn_request(10), Ok(()));
    data.register_empty_canister(11);
    data.register_installed_canister(11).unwrap();
    data.seal_canister(10, 41).unwrap();

    let canisters = data.get_canisters();
    assert_eq!(canisters.len(), 2);
    let old = canisters.iter().find(|c| c.principal == 10).unwrap();
    let new = canisters.iter().find(|c| c.principal == 11).unwrap();
    assert!(!old.is_available);
    assert_eq!(old.entry_range, (0, Some(41)));
    assert!(new.is_available);
    assert_eq!(new.canister_type, CanisterType::ScalableChild);
    assert_eq!(new.wasm_version, WasmVersion::Version(1));
    let available: Vec<_> = canisters.iter().filter(|c| c.is_available).collect();
    assert_eq!(available.len(), 1);

    // the overflow entry is forwarded to and retrievable from the new shard
    let mut new_shard = Store::new(String::from("event_attendees"), COORDINATOR);
    assert_eq!(new_shard.add_entry_by_parent(COORDINATOR, &overflow), Ok(()));
    let stored = new_shard.get_entry(0).expect("the forwarded record is stored");
    assert_eq!(stored.principal, 5);
    assert_eq!(stored.get_joined(100).unwrap().group_identifier, 200);
}

#[test]
fn spawn_request_checks() {
    let mut no_wasm = ScalableData::new(String::from("event_attendees"), COORDINATOR, 100);
    assert_eq!(no_wasm.check_spawn_request(10).err(), Some(ApiError::NoWasmSpecified));
    no_wasm.register_empty_canister(10);
    assert_eq!(no_wasm.check_spawn_request(10).err(), Some(ApiError::NoWasmSpecified));
    let data = coordinator_with_wasm();
    assert_eq!(data.check_spawn_request(10).err(), Some(ApiError::UnknownCanister));
}

#[test]
fn forwarding_checks_on_the_receiving_shard() {
    let mut shard = Store::new(String::from("event_attendees"), COORDINATOR);
    let bytes = Attendee::new(5).to_bytes();
    assert_eq!(
        shard.add_entry_by_parent(2, &bytes).err(),
        Some(ApiError::UnauthorizedCaller)
    );
    assert_eq!(
        shard.add_entry_by_parent(COORDINATOR, &vec![1, 2, 3]).err(),
        Some(ApiError::InvalidEntry)
    );
    assert_eq!(shard.add_entry_by_parent(COORDINATOR, &bytes), Ok(()));
    assert_eq!(
        shard.add_entry_by_parent(COORDINATOR, &bytes).err(),
        Some(ApiError::DuplicateEntry)
    );
}

#[test]
fn available_canister_skips_the_caller_and_sealed_shards() {
    let mut data = coordinator_with_wasm();
    data.register_empty_canister(10);
    data.register_installed_canister(10).unwrap();
    // a shard never gets itself back
    let err = data.get_available_canister(10);
    assert_eq!(err.err().unwrap(), "No available canister found");
    data.register_empty_canister(11);
    data.register_installed_canister(11).unwrap();
    let other = data.get_available_canister(10).unwrap();
    assert_eq!(other.principal, 11);
    let first = data.get_available_canister(99).unwrap();
    assert_eq!(first.principal, 10);
    data.seal_canister(10, 41).unwrap();
    let after_seal = data.get_available_canister(99).unwrap();
    assert_eq!(after_seal.principal, 11);
}

#[test]
fn upgrade_flow() {
    let mut data = coordinator_with_wasm();
    data.register_empty_canister(10);
    data.register_installed_canister(10).unwrap();
    assert_eq!(data.check_upgrade(77).err(), Some(ApiError::NoChildrenFound));
    assert_eq!(data.check_upgrade(10).err(), Some(ApiError::CanisterUpToDate));
    // a newer image arrives
    let details = data.get_child_wasm_data(vec![9, 9, 9], 2, 200).unwrap();
    data.set_child_wasm_data(details, 200);
    assert_eq!(data.canisters_needing_upgrade(), vec![10]);
    let bytes = data.check_upgrade(10).unwrap();
    assert_eq!(bytes, vec![9, 9, 9]);
    let upgraded = data.record_upgraded_canister(10).unwrap();
    assert_eq!(upgraded.wasm_version, WasmVersion::Version(2));
    assert_eq!(data.canisters_needing_upgrade(), Vec::<u64>::new());
    assert_eq!(data.check_upgrade(10).err(), Some(ApiError::CanisterUpToDate));
}

#[test]
fn pagination_covers_every_record_exactly_once() {
    let records: Vec<u64> = (0..23).collect();
    let limit = 5;
    let first = get_paged_data(records.clone(), limit, 0);
    assert_eq!(first.total, 23);
    assert_eq!(first.number_of_pages, 5);
    assert_eq!(first.limit, limit);
    let mut seen: Vec<u64> = Vec::new();
    for page in 0..first.number_of_pages {
        let p = get_paged_data(records.clone(), limit, page);
        assert_eq!(p.page, page);
        seen.extend_from_slice(&p.data);
    }
    assert_eq!(seen, records);
    // a page past the end is empty
    let past = get_paged_data(records.clone(), limit, 99);
    assert!(past.data.is_empty());
    // an exact split has no partial page
    let exact = get_paged_data((0..20u64).collect(), 5, 0);
    assert_eq!(exact.number_of_pages, 4);
    // a page size of zero yields nothing
    let zero = get_paged_data(records, 0, 0);
    assert_eq!(zero.number_of_pages, 0);
    assert!(zero.data.is_empty());
}

#[test]
fn fan_out_read_collects_all_shards_and_pages_them() {
    let data = coordinator_with_wasm();
    let mut shard_a = Store::new(String::from("event_attendees"), COORDINATOR);
    let mut shard_b = Store::new(String::from("event_attendees"), COORDINATOR);
    for p in 0..4u64 {
        shard_a.join_event(p, 100, 100, Privacy::Public, 1).unwrap();
    }
    for p in 10..13u64 {
        shard_b.join_event(p, 100, 100, Privacy::Public, 2).unwrap();
    }
    shard_b.join_event(20, 100, 100, Privacy::Private, 3).unwrap();
    let shards = vec![shard_a, shard_b];

    let mut collected: Vec<u64> = Vec::new();
    let mut page = 0;
    loop {
        let r = data.get_joined_child_canister_data(&shards, 100, 3, page);
        assert_eq!(r.total, 7);
        if r.data.is_empty() {
            break;
        }
        collected.extend(r.data.iter().map(|j| j.principal));
        page += 1;
    }
    let mut expected: Vec<u64> = vec![0, 1, 2, 3, 10, 11, 12];
    collected.sort();
    expected.sort();
    assert_eq!(collected, expected);

    let invites = data.get_invites_child_canister_data(&shards, 100, 10, 0);
    assert_eq!(invites.total, 1);
    assert_eq!(invites.data[0].principal, 20);
    assert_eq!(invites.data[0].invite_type, InviteType::UserRequest);
}

#[test]
fn fan_out_skips_shards_of_another_coordinator() {
    let data = coordinator_with_wasm();
    let mut ours = Store::new(String::from("event_attendees"), COORDINATOR);
    ours.join_event(5, 100, 100, Privacy::Public, 1).unwrap();
    let mut foreign = Store::new(String::from("event_attendees"), 555);
    foreign.join_event(6, 100, 100, Privacy::Public, 1).unwrap();
    let shards = vec![ours, foreign];
    let r = data.get_joined_child_canister_data(&shards, 100, 10, 0);
    assert_eq!(r.total, 1);
    assert_eq!(r.data[0].principal, 5);
}

#[test]
fn chunked_endpoint_serves_only_the_coordinator() {
    let mut shard = Store::new(String::from("event_attendees"), COORDINATOR);
    shard.join_event(5, 100, 100, Privacy::Public, 1).unwrap();
    let (bytes, pair) = shard.get_chunked_join_data(2, 100, 0, 1000);
    assert!(bytes.is_empty());
    assert_eq!(pair, (0, 0));
    let (ok_bytes, ok_pair) = shard.get_chunked_join_data(COORDINATOR, 100, 0, 1000);
    assert_eq!(ok_bytes.len(), 8 + 32);
    assert_eq!(ok_pair, (0, 0));
}

#[test]
fn chunked_endpoint_multi_chunk_transfer() {
    let mut shard = Store::new(String::from("event_attendees"), COORDINATOR);
    for p in 0..3u64 {
        shard.join_event(p, 100, 100, Privacy::Public, 1).unwrap();
    }
    // payload is 8 + 3 * 32 = 104 bytes; 40-byte chunks give last index 2
    let (c0, (_, last)) = shard.get_chunked_join_data(COORDINATOR, 100, 0, 40);
    assert_eq!(last, 2);
    let mut bytes = c0;
    for i in 1..=last {
        let (part, _) = shard.get_chunked_join_data(COORDINATOR, 100, i, 40);
        bytes.extend_from_slice(&part);
    }
    let decoded = decode_joined_responses(&bytes).expect("the reassembled payload decodes");
    assert_eq!(decoded.len(), 3);
    // with 60-byte chunks the last index is 1: chunk 0 alone is a strict
    // prefix and must not decode
    let (c0_only, (_, last1)) = shard.get_chunked_join_data(COORDINATOR, 100, 0, 60);
    assert_eq!(last1, 1);
    assert_eq!(c0_only.len(), 60);
    assert!(decode_joined_responses(&c0_only).is_none());
}
