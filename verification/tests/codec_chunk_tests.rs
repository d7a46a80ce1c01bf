use event_attendee::attendee_model::{Attendee, InviteType, JoinedAttendeeResponse,
    InviteAttendeeResponse};
use event_attendee::chunk::chunk_slice;
use event_attendee::codec::{decode_invite_responses, decode_joined_responses,
    encode_invite_responses, encode_joined_responses};

fn sample_joined(n: u64) -> Vec<JoinedAttendeeResponse> {
    (0..n)
        .map(|i| JoinedAttendeeResponse {
            event_identifier: 100 + i,
            group_identifier: 100 + i,
            attendee_identifier: i,
            principal: 1000 + i,
        })
        .collect()
}

#[test]
fn joined_list_codec_round_trip() {
    let v = sample_joined(3);
    let bytes = encode_joined_responses(&v);
    assert_eq!(bytes.len(), 8 + 32 * 3);
    // count prefix, little endian
    assert_eq!(&bytes[0..8], &[3, 0, 0, 0, 0, 0, 0, 0]);
    // first element starts with its event identifier, 100
    assert_eq!(&bytes[8..16], &[100, 0, 0, 0, 0, 0, 0, 0]);
    let decoded = decode_joined_responses(&bytes).expect("an exact encoding decodes");
    assert_eq!(decoded, v);
}

#[test]
fn joined_list_truncation_and_junk_rejected() {
    let v = sample_joined(2);
    let bytes = encode_joined_responses(&v);
    for k in 0..bytes.len() {
        let prefix: Vec<u8> = bytes[0..k].to_vec();
        assert!(decode_joined_responses(&prefix).is_none());
    }
    let mut extended = bytes.clone();
    extended.push(0);
    assert!(decode_joined_responses(&extended).is_none());
}

#[test]
fn invite_list_codec_round_trip_and_bad_tag() {
    let v = vec![
        InviteAttendeeResponse {
            event_identifier: 100,
            group_identifier: 100,
            attendee_identifier: 0,
            principal: 5,
            invite_type: InviteType::OwnerRequest,
        },
        InviteAttendeeResponse {
            event_identifier: 101,
            group_identifier: 101,
            attendee_identifier: 1,
            principal: 6,
            invite_type: InviteType::NoRequest,
        },
    ];
    let bytes = encode_invite_responses(&v);
    assert_eq!(bytes.len(), 8 + 33 * 2);
    // the type tag is the last byte of each element
    assert_eq!(bytes[8 + 32], 1);
    assert_eq!(bytes[8 + 33 + 32], 0);
    let decoded = decode_invite_responses(&bytes).expect("an exact encoding decodes");
    assert_eq!(decoded, v);
    let mut bad = bytes.clone();
    bad[8 + 32] = 9;
    assert!(decode_invite_responses(&bad).is_none());
}

#[test]
fn attendee_codec_round_trip() {
    let mut attendee = Attendee::new(77);
    attendee.joined.insert(
        100,
        event_attendee::attendee_model::Join {
            group_identifier: 200,
            updated_at: 11,
            created_at: 10,
        },
    );
    attendee.invites.insert(
        101,
        event_attendee::attendee_model::Invite {
            group_identifier: 201,
            invite_type: InviteType::UserRequest,
            updated_at: 13,
            created_at: 12,
        },
    );
    let bytes = attendee.to_bytes();
    assert_eq!(bytes.len(), 24 + 32 + 33);
    let back = Attendee::from_bytes(&bytes).expect("an exact encoding decodes");
    assert_eq!(back.principal, 77);
    let join = back.get_joined(100).unwrap();
    assert_eq!(join.group_identifier, 200);
    assert_eq!(join.created_at, 10);
    assert_eq!(join.updated_at, 11);
    let invite = back.get_invite(101).unwrap();
    assert_eq!(invite.invite_type, InviteType::UserRequest);
    assert_eq!(invite.group_identifier, 201);
}

#[test]
fn attendee_empty_encoding_is_exactly_the_header() {
    let attendee = Attendee::new(7);
    let bytes = attendee.to_bytes();
    let mut expected = vec![7u8, 0, 0, 0, 0, 0, 0, 0];
    expected.extend_from_slice(&[0; 16]);
    assert_eq!(bytes, expected);
    let back = Attendee::from_bytes(&bytes).unwrap();
    assert_eq!(back.principal, 7);
    assert_eq!(back.joined_len(), 0);
}

#[test]
fn attendee_bad_bytes_rejected() {
    assert!(Attendee::from_bytes(&vec![]).is_none());
    assert!(Attendee::from_bytes(&vec![0; 23]).is_none());
    let attendee = Attendee::new(7);
    let bytes = attendee.to_bytes();
    for k in 0..bytes.len() {
        let prefix: Vec<u8> = bytes[0..k].to_vec();
        assert!(Attendee::from_bytes(&prefix).is_none());
    }
    let mut extended = bytes.clone();
    extended.push(1);
    assert!(Attendee::from_bytes(&extended).is_none());
}

#[test]
fn single_chunk_payload_tagged_zero_zero() {
    let payload: Vec<u8> = (0..9u8).collect();
    let (bytes, (first, last)) = chunk_slice(&payload, 0, 10);
    assert_eq!(bytes, payload);
    assert_eq!((first, last), (0, 0));
}

#[test]
fn chunk_concatenation_reproduces_payload() {
    // L = 25, M = 10: ceil(L / M) = 3 chunks reproduce the payload
    let payload: Vec<u8> = (0..25u8).collect();
    let m = 10;
    let mut assembled: Vec<u8> = Vec::new();
    let ceil = (payload.len() + m - 1) / m;
    for i in 0..ceil {
        let (part, (idx, last)) = chunk_slice(&payload, i, m);
        assert_eq!(idx, i);
        assert_eq!(last, payload.len() / m);
        assembled.extend_from_slice(&part);
    }
    assert_eq!(assembled, payload);
    // the individual slices are the expected ranges
    let (c0, _) = chunk_slice(&payload, 0, m);
    let (c1, _) = chunk_slice(&payload, 1, m);
    let (c2, _) = chunk_slice(&payload, 2, m);
    assert_eq!(c0, (0..10u8).collect::<Vec<u8>>());
    assert_eq!(c1, (10..20u8).collect::<Vec<u8>>());
    assert_eq!(c2, (20..25u8).collect::<Vec<u8>>());
}

#[test]
fn chunk_exact_fit_reports_last_zero() {
    // L == M: the chunked path serves everything as chunk 0 with bound 0
    let payload: Vec<u8> = (0..10u8).collect();
    let (bytes, (_, last)) = chunk_slice(&payload, 0, 10);
    assert_eq!(bytes, payload);
    assert_eq!(last, 0);
}

#[test]
fn chunk_past_the_end_is_empty() {
    let payload: Vec<u8> = (0..25u8).collect();
    let (bytes, (idx, last)) = chunk_slice(&payload, 7, 10);
    assert!(bytes.is_empty());
    assert_eq!(idx, 7);
    assert_eq!(last, 2);
}
