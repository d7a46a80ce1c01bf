use event_attendee::api_error::{ApiError, ApiErrorKind};
use event_attendee::attendee_model::{Attendee, InviteType, Privacy};
use event_attendee::store::{auth, check_permission, is_monitor, IdentifierKind, Store};

fn fresh_store() -> Store {
    Store::new(String::from("attendees"), 99)
}

#[test]
fn join_public_event_creates_membership() {
    let mut store = fresh_store();
    let r = store.join_event(5, 100, 200, Privacy::Public, 1111);
    let (id, attendee) = r.expect("join of a public event must succeed");
    assert_eq!(id, 0);
    assert_eq!(attendee.principal, 5);
    let join = attendee.get_joined(100).expect("the event must be joined");
    assert_eq!(join.group_identifier, 200);
    assert_eq!(join.created_at, 1111);
    assert_eq!(join.updated_at, 1111);
    assert_eq!(attendee.invites_len(), 0);
    assert_eq!(attendee.joined_len(), 1);
}

#[test]
fn join_twice_rejected_both_times_state_unchanged() {
    let mut store = fresh_store();
    store.join_event(5, 100, 200, Privacy::Public, 1).unwrap();
    let again = store.join_event(5, 100, 200, Privacy::Public, 2);
    assert_eq!(again.err(), Some(ApiError::AlreadyJoined));
    let third = store.join_event(5, 100, 200, Privacy::Public, 3);
    assert_eq!(third.err(), Some(ApiError::AlreadyJoined));
    let (_, attendee) = store.get_self(5).unwrap();
    assert_eq!(attendee.joined_len(), 1);
    let join = attendee.get_joined(100).unwrap();
    assert_eq!(join.updated_at, 1);
    assert_eq!(ApiError::AlreadyJoined.kind(), ApiErrorKind::BadRequest);
    assert_eq!(ApiError::AlreadyJoined.tag(), "ALREADY_JOINED");
}

#[test]
fn join_private_event_records_user_request_invite() {
    let mut store = fresh_store();
    let (_, attendee) = store.join_event(5, 100, 200, Privacy::Private, 7).unwrap();
    assert_eq!(attendee.joined_len(), 0);
    let invite = attendee.get_invite(100).expect("a private join leaves an invite");
    assert_eq!(invite.invite_type, InviteType::UserRequest);
    assert_eq!(invite.group_identifier, 200);
}

#[test]
fn join_with_pending_invite_rejected() {
    let mut store = fresh_store();
    store.join_event(5, 100, 200, Privacy::Private, 7).unwrap();
    let again = store.join_event(5, 100, 200, Privacy::Public, 8);
    assert_eq!(again.err(), Some(ApiError::PendingInvite));
    assert_eq!(ApiError::PendingInvite.tag(), "PENDING_INVITE");
}

#[test]
fn join_unsupported_privacy_rejected() {
    let mut store = fresh_store();
    let r = store.join_event(5, 100, 200, Privacy::InviteOnly, 7);
    assert_eq!(r.err(), Some(ApiError::UnsupportedPrivacy));
    let r2 = store.join_event(5, 100, 200, Privacy::Gated, 7);
    assert_eq!(r2.err(), Some(ApiError::UnsupportedPrivacy));
    assert_eq!(ApiError::UnsupportedPrivacy.tag(), "UNSUPPORTED");
    assert_eq!(store.get_self(5).err(), Some(ApiError::AttendeeNotFound));
}

#[test]
fn invite_then_wrong_accept_fails_right_accept_succeeds() {
    let mut store = fresh_store();
    let (_, invited) = store.invite_to_event(100, 5, 200, 10).unwrap();
    let invite = invited.get_invite(100).unwrap();
    assert_eq!(invite.invite_type, InviteType::OwnerRequest);
    let wrong = store.accept_user_request_event_invite(5, 100, 11);
    assert_eq!(wrong.err(), Some(ApiError::InvalidInviteType));
    assert_eq!(ApiError::InvalidInviteType.tag(), "INVALID_TYPE");
    let (_, accepted) = store.accept_owner_request_event_invite(5, 100, 12).unwrap();
    let join = accepted.get_joined(100).expect("the accept records the membership");
    assert_eq!(join.group_identifier, 200);
    assert_eq!(join.created_at, 12);
    assert!(!accepted.invites_contains(100));
}

#[test]
fn user_request_invite_accepted_by_admin_flow() {
    let mut store = fresh_store();
    store.join_event(5, 100, 200, Privacy::Private, 7).unwrap();
    let wrong = store.accept_owner_request_event_invite(5, 100, 8);
    assert_eq!(wrong.err(), Some(ApiError::InvalidInviteType));
    let (_, accepted) = store.accept_user_request_event_invite(5, 100, 9).unwrap();
    assert!(accepted.joined_contains(100));
    assert!(!accepted.invites_contains(100));
}

#[test]
fn invite_overwrites_existing_invite_but_not_membership() {
    let mut store = fresh_store();
    store.join_event(5, 100, 200, Privacy::Private, 7).unwrap();
    let (_, attendee) = store.invite_to_event(100, 5, 300, 8).unwrap();
    let invite = attendee.get_invite(100).unwrap();
    assert_eq!(invite.invite_type, InviteType::OwnerRequest);
    assert_eq!(invite.group_identifier, 300);
    store.accept_owner_request_event_invite(5, 100, 9).unwrap();
    let denied = store.invite_to_event(100, 5, 300, 10);
    assert_eq!(denied.err(), Some(ApiError::AlreadyJoined));
}

#[test]
fn accept_without_invite_and_without_record() {
    let mut store = fresh_store();
    assert_eq!(
        store.accept_user_request_event_invite(5, 100, 1).err(),
        Some(ApiError::AttendeeNotFound)
    );
    store.join_event(5, 900, 200, Privacy::Public, 1).unwrap();
    assert_eq!(
        store.accept_user_request_event_invite(5, 100, 2).err(),
        Some(ApiError::NoInviteFound)
    );
    assert_eq!(ApiError::NoInviteFound.kind(), ApiErrorKind::NotFound);
    assert_eq!(ApiError::NoInviteFound.tag(), "NO_INVITE_FOUND");
}

#[test]
fn leave_event_clears_membership_and_is_noop_safe() {
    let mut store = fresh_store();
    assert_eq!(
        store.remove_join_from_attendee(5, 100).err(),
        Some(ApiError::AttendeeNotFound)
    );
    store.join_event(5, 100, 200, Privacy::Public, 1).unwrap();
    assert_eq!(store.remove_join_from_attendee(5, 100), Ok(()));
    let (_, attendee) = store.get_self(5).unwrap();
    assert!(!attendee.joined_contains(100));
    // clearing an absent key is a no-op, not an error
    assert_eq!(store.remove_join_from_attendee(5, 100), Ok(()));
}

#[test]
fn remove_invite_clears_invite_and_is_noop_safe() {
    let mut store = fresh_store();
    assert_eq!(
        store.remove_invite_from_event(5, 100).err(),
        Some(ApiError::AttendeeNotFound)
    );
    store.join_event(5, 100, 200, Privacy::Private, 1).unwrap();
    assert_eq!(store.remove_invite_from_event(5, 100), Ok(()));
    let (_, attendee) = store.get_self(5).unwrap();
    assert!(!attendee.invites_contains(100));
    assert_eq!(store.remove_invite_from_event(5, 100), Ok(()));
}

#[test]
fn add_owner_as_attendee_checks_and_duplicate() {
    let mut store = fresh_store();
    let bad_event_kind = store.add_owner_as_attendee(
        42,
        5,
        100,
        42,
        IdentifierKind::Group,
        200,
        IdentifierKind::Group,
        1,
    );
    assert_eq!(bad_event_kind, Err(false));
    let bad_group_kind = store.add_owner_as_attendee(
        42,
        5,
        100,
        42,
        IdentifierKind::Event,
        200,
        IdentifierKind::Attendee,
        1,
    );
    assert_eq!(bad_group_kind, Err(false));
    let wrong_caller = store.add_owner_as_attendee(
        43,
        5,
        100,
        42,
        IdentifierKind::Event,
        200,
        IdentifierKind::Group,
        1,
    );
    assert_eq!(wrong_caller, Err(false));
    let ok = store.add_owner_as_attendee(
        42,
        5,
        100,
        42,
        IdentifierKind::Event,
        200,
        IdentifierKind::Group,
        1,
    );
    assert_eq!(ok, Ok(()));
    let duplicate = store.add_owner_as_attendee(
        42,
        5,
        100,
        42,
        IdentifierKind::Event,
        200,
        IdentifierKind::Group,
        2,
    );
    assert_eq!(duplicate, Err(true));
}

#[test]
fn scans_and_counts_over_several_attendees() {
    let mut store = fresh_store();
    store.join_event(5, 100, 200, Privacy::Public, 1).unwrap();
    store.join_event(6, 100, 200, Privacy::Public, 2).unwrap();
    store.join_event(7, 101, 200, Privacy::Public, 3).unwrap();
    store.join_event(8, 100, 200, Privacy::Private, 4).unwrap();

    let attendees = store.get_event_attendees(100);
    assert_eq!(attendees.len(), 2);
    assert_eq!(attendees[0].principal, 5);
    assert_eq!(attendees[0].attendee_identifier, 0);
    assert_eq!(attendees[0].event_identifier, 100);
    assert_eq!(attendees[0].group_identifier, 100);
    assert_eq!(attendees[1].principal, 6);

    let invites = store.get_event_invites(100);
    assert_eq!(invites.len(), 1);
    assert_eq!(invites[0].principal, 8);
    assert_eq!(invites[0].invite_type, InviteType::UserRequest);

    let counts = store.get_event_attendees_count(vec![100, 101, 102]);
    assert_eq!(counts, vec![(100, 2), (101, 1), (102, 0)]);

    let invite_counts = store.get_group_invites_count(vec![100, 101]);
    assert_eq!(invite_counts, vec![(100, 1), (101, 0)]);

    let attending = store.get_attending_from_principal(5).unwrap();
    assert_eq!(attending.len(), 1);
    assert_eq!(attending[0].event_identifier, 100);
    let missing = store.get_attending_from_principal(77);
    assert_eq!(missing.err(), Some(ApiError::AttendeeNotFound));
}

#[test]
fn invite_response_reports_no_request_without_invite() {
    let attendee = Attendee::new(9);
    let r = Store::map_attendee_to_invite_attendee_response(&3, &attendee, 100);
    assert_eq!(r.invite_type, InviteType::NoRequest);
    assert_eq!(r.attendee_identifier, 3);
    assert_eq!(r.principal, 9);
}

#[test]
fn default_attendee_is_anonymous_and_empty() {
    let attendee = Attendee::default();
    assert_eq!(attendee.principal, 0);
    assert_eq!(attendee.joined_len(), 0);
    assert_eq!(attendee.invites_len(), 0);
    assert_eq!(InviteType::default(), InviteType::NoRequest);
}

#[test]
fn guards_reject_the_wrong_callers() {
    assert!(auth(0, 0).is_err());
    assert!(auth(5, 0).is_ok());
    let owners = vec![10, 20];
    assert!(is_monitor(10, &owners));
    assert!(!is_monitor(11, &owners));
}

#[test]
fn permission_check_verdicts() {
    assert_eq!(check_permission(5, 5, false, true, true), Err(ApiError::NoPermission));
    assert_eq!(check_permission(5, 6, true, true, true), Err(ApiError::PrincipalMismatch));
    assert_eq!(check_permission(5, 5, true, false, true), Err(ApiError::NoPermission));
    assert_eq!(check_permission(5, 5, true, true, false), Err(ApiError::NoPermission));
    assert_eq!(check_permission(5, 5, true, true, true), Ok(5));
    assert_eq!(ApiError::PrincipalMismatch.kind(), ApiErrorKind::Unauthorized);
}
