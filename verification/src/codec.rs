//! The byte encoding of attendee records and scan projections. Values cross
//! the wire as little-endian 64-bit words; lists and maps are count-prefixed.
//! Decoding consumes the whole buffer exactly, so a truncated encoding never
//! decodes; encoding then decoding gives the value back.

use vstd::prelude::*;

use vstd::bytes::{spec_u64_to_le_bytes, spec_u64_from_le_bytes, lemma_auto_spec_u64_to_from_le_bytes,
    u64_to_le_bytes, u64_from_le_bytes};
use vstd::slice::slice_subrange;

use crate::attendee_model::{Attendee, AttendeeV, Invite, InviteType, Join, JoinedAttendeeResponse,
    InviteAttendeeResponse};
use crate::keymap::{KeyMap, distinct_keys, lemma_index_of_key};

verus! {

/// The eight little-endian bytes of a 64-bit word.
pub open spec fn enc_u64(x: u64) -> Seq<u8> {
    spec_u64_to_le_bytes(x)
}

/// The 64-bit word read from eight bytes at `pos`.
pub open spec fn dec_u64_at(b: Seq<u8>, pos: int) -> u64 {
    spec_u64_from_le_bytes(b.subrange(pos, pos + 8))
}

/// The wire tag of an invite type.
pub open spec fn invite_type_byte(t: InviteType) -> u8 {
    match t {
        InviteType::NoRequest => 0,
        InviteType::OwnerRequest => 1,
        InviteType::UserRequest => 2,
    }
}

/// Whether a byte is the tag of some invite type.
pub open spec fn valid_invite_type_byte(x: u8) -> bool {
    x == 0 || x == 1 || x == 2
}

/// The invite type a valid tag stands for.
pub open spec fn invite_type_of_byte(x: u8) -> InviteType {
    if x == 0 {
        InviteType::NoRequest
    } else if x == 1 {
        InviteType::OwnerRequest
    } else {
        InviteType::UserRequest
    }
}

/// 32 bytes: the four identifiers of a membership projection.
pub open spec fn enc_joined_response(r: JoinedAttendeeResponse) -> Seq<u8> {
    enc_u64(r.event_identifier) + enc_u64(r.group_identifier) + enc_u64(r.attendee_identifier)
        + enc_u64(r.principal)
}

/// 33 bytes: the four identifiers of an invite projection and its type tag.
pub open spec fn enc_invite_response(r: InviteAttendeeResponse) -> Seq<u8> {
    enc_u64(r.event_identifier) + enc_u64(r.group_identifier) + enc_u64(r.attendee_identifier)
        + enc_u64(r.principal) + seq![invite_type_byte(r.invite_type)]
}

/// The concatenated encodings of membership projections, in order.
pub open spec fn enc_joined_responses(s: Seq<JoinedAttendeeResponse>) -> Seq<u8>
    decreases s.len(),
{
    if s.len() == 0 {
        Seq::empty()
    } else {
        enc_joined_responses(s.drop_last()) + enc_joined_response(s.last())
    }
}

/// The concatenated encodings of invite projections, in order.
pub open spec fn enc_invite_responses(s: Seq<InviteAttendeeResponse>) -> Seq<u8>
    decreases s.len(),
{
    if s.len() == 0 {
        Seq::empty()
    } else {
        enc_invite_responses(s.drop_last()) + enc_invite_response(s.last())
    }
}

/// A count-prefixed list of membership projections.
pub open spec fn spec_encode_joined_list(s: Seq<JoinedAttendeeResponse>) -> Seq<u8> {
    enc_u64(s.len() as u64) + enc_joined_responses(s)
}

/// A count-prefixed list of invite projections.
pub open spec fn spec_encode_invite_list(s: Seq<InviteAttendeeResponse>) -> Seq<u8> {
    enc_u64(s.len() as u64) + enc_invite_responses(s)
}

/// The membership projection read from 32 bytes at `pos`.
pub open spec fn dec_joined_response_at(b: Seq<u8>, pos: int) -> JoinedAttendeeResponse {
    JoinedAttendeeResponse {
        event_identifier: dec_u64_at(b, pos),
        group_identifier: dec_u64_at(b, pos + 8),
        attendee_identifier: dec_u64_at(b, pos + 16),
        principal: dec_u64_at(b, pos + 24),
    }
}

/// The invite projection read from 33 bytes at `pos`.
pub open spec fn dec_invite_response_at(b: Seq<u8>, pos: int) -> InviteAttendeeResponse {
    InviteAttendeeResponse {
        event_identifier: dec_u64_at(b, pos),
        group_identifier: dec_u64_at(b, pos + 8),
        attendee_identifier: dec_u64_at(b, pos + 16),
        principal: dec_u64_at(b, pos + 24),
        invite_type: invite_type_of_byte(b[pos + 32]),
    }
}

/// What decoding a membership list yields: the listed projections when the
/// buffer is exactly a count prefix and that many 32-byte elements, nothing
/// otherwise.
pub open spec fn spec_decode_joined_list(b: Seq<u8>) -> Option<Seq<JoinedAttendeeResponse>> {
    if b.len() < 8 {
        None
    } else {
        let n = dec_u64_at(b, 0) as int;
        if b.len() != 8 + 32 * n {
            None
        } else {
            Some(Seq::new(n as nat, |i: int| dec_joined_response_at(b, 8 + 32 * i)))
        }
    }
}

/// What decoding an invite list yields; a byte that is no invite-type tag
/// also rejects the buffer.
pub open spec fn spec_decode_invite_list(b: Seq<u8>) -> Option<Seq<InviteAttendeeResponse>> {
    if b.len() < 8 {
        None
    } else {
        let n = dec_u64_at(b, 0) as int;
        if b.len() != 8 + 33 * n {
            None
        } else if exists|i: int|
            0 <= i < n && !valid_invite_type_byte(#[trigger] b[8 + 33 * i + 32]) {
            None
        } else {
            Some(Seq::new(n as nat, |i: int| dec_invite_response_at(b, 8 + 33 * i)))
        }
    }
}

/// 24 bytes: the fields of one membership entry.
pub open spec fn enc_join(j: Join) -> Seq<u8> {
    enc_u64(j.group_identifier) + enc_u64(j.updated_at) + enc_u64(j.created_at)
}

/// 32 bytes: an event key and its membership entry.
pub open spec fn enc_joined_entry(kv: (u64, Join)) -> Seq<u8> {
    enc_u64(kv.0) + enc_join(kv.1)
}

/// 25 bytes: the fields of one invite entry.
pub open spec fn enc_invite(v: Invite) -> Seq<u8> {
    enc_u64(v.group_identifier) + seq![invite_type_byte(v.invite_type)] + enc_u64(v.updated_at)
        + enc_u64(v.created_at)
}

/// 33 bytes: an event key and its invite entry.
pub open spec fn enc_invite_entry(kv: (u64, Invite)) -> Seq<u8> {
    enc_u64(kv.0) + enc_invite(kv.1)
}

/// The concatenated encodings of membership entries, in map order.
pub open spec fn enc_joined_entries(s: Seq<(u64, Join)>) -> Seq<u8>
    decreases s.len(),
{
    if s.len() == 0 {
        Seq::empty()
    } else {
        enc_joined_entries(s.drop_last()) + enc_joined_entry(s.last())
    }
}

/// The concatenated encodings of invite entries, in map order.
pub open spec fn enc_invite_entries(s: Seq<(u64, Invite)>) -> Seq<u8>
    decreases s.len(),
{
    if s.len() == 0 {
        Seq::empty()
    } else {
        enc_invite_entries(s.drop_last()) + enc_invite_entry(s.last())
    }
}

/// The encoding of a whole attendee record: principal, count-prefixed
/// membership entries, count-prefixed invite entries.
pub open spec fn spec_encode_attendee(a: AttendeeV) -> Seq<u8> {
    enc_u64(a.principal) + enc_u64(a.joined.len() as u64) + enc_joined_entries(a.joined) + enc_u64(
        a.invites.len() as u64,
    ) + enc_invite_entries(a.invites)
}

/// The membership entry read from 32 bytes at `pos`.
pub open spec fn dec_joined_entry_at(b: Seq<u8>, pos: int) -> (u64, Join) {
    (
        dec_u64_at(b, pos),
        Join {
            group_identifier: dec_u64_at(b, pos + 8),
            updated_at: dec_u64_at(b, pos + 16),
            created_at: dec_u64_at(b, pos + 24),
        },
    )
}

/// The invite entry read from 33 bytes at `pos`.
pub open spec fn dec_invite_entry_at(b: Seq<u8>, pos: int) -> (u64, Invite) {
    (
        dec_u64_at(b, pos),
        Invite {
            group_identifier: dec_u64_at(b, pos + 8),
            invite_type: invite_type_of_byte(b[pos + 16]),
            updated_at: dec_u64_at(b, pos + 17),
            created_at: dec_u64_at(b, pos + 25),
        },
    )
}

/// What decoding an attendee record yields: the stored value when the
/// buffer is exactly one record whose maps have distinct keys and valid
/// invite-type tags, nothing otherwise.
pub open spec fn spec_decode_attendee(b: Seq<u8>) -> Option<AttendeeV> {
    if b.len() < 24 {
        None
    } else {
        let principal = dec_u64_at(b, 0);
        let nj = dec_u64_at(b, 8) as int;
        if b.len() < 24 + 32 * nj {
            None
        } else {
            let ipos = 16 + 32 * nj;
            let ni = dec_u64_at(b, ipos) as int;
            if b.len() != 24 + 32 * nj + 33 * ni {
                None
            } else {
                let joined = Seq::new(nj as nat, |i: int| dec_joined_entry_at(b, 16 + 32 * i));
                let invites = Seq::new(
                    ni as nat,
                    |i: int| dec_invite_entry_at(b, ipos + 8 + 33 * i),
                );
                if !distinct_keys(joined) || !distinct_keys(invites) {
                    None
                } else if exists|i: int|
                    0 <= i < ni && !valid_invite_type_byte(#[trigger] b[ipos + 8 + 33 * i + 16]) {
                    None
                } else {
                    Some(AttendeeV { principal, joined, invites })
                }
            }
        }
    }
}

/// Each encoded membership entry takes 32 bytes.
pub proof fn lemma_enc_joined_entries_len(s: Seq<(u64, Join)>)
    ensures
        enc_joined_entries(s).len() == 32 * s.len(),
    decreases s.len(),
{
    lemma_auto_spec_u64_to_from_le_bytes();
    if s.len() > 0 {
        lemma_enc_joined_entries_len(s.drop_last());
    }
}

/// Each encoded invite entry takes 33 bytes.
pub proof fn lemma_enc_invite_entries_len(s: Seq<(u64, Invite)>)
    ensures
        enc_invite_entries(s).len() == 33 * s.len(),
    decreases s.len(),
{
    lemma_auto_spec_u64_to_from_le_bytes();
    if s.len() > 0 {
        lemma_enc_invite_entries_len(s.drop_last());
    }
}

/// Membership entry `i` sits at offset `32 * i`.
pub proof fn lemma_enc_joined_entries_index(s: Seq<(u64, Join)>, i: int)
    requires
        0 <= i < s.len(),
    ensures
        enc_joined_entries(s).subrange(32 * i, 32 * i + 32) == enc_joined_entry(s[i]),
    decreases s.len(),
{
    lemma_auto_spec_u64_to_from_le_bytes();
    lemma_enc_joined_entries_len(s);
    lemma_enc_joined_entries_len(s.drop_last());
    if i == s.len() - 1 {
        assert(enc_joined_entries(s).subrange(32 * i, 32 * i + 32) =~= enc_joined_entry(s[i]));
    } else {
        lemma_enc_joined_entries_index(s.drop_last(), i);
        assert(enc_joined_entries(s).subrange(32 * i, 32 * i + 32) =~= enc_joined_entries(
            s.drop_last(),
        ).subrange(32 * i, 32 * i + 32));
    }
}

/// Invite entry `i` sits at offset `33 * i`.
pub proof fn lemma_enc_invite_entries_index(s: Seq<(u64, Invite)>, i: int)
    requires
        0 <= i < s.len(),
    ensures
        enc_invite_entries(s).subrange(33 * i, 33 * i + 33) == enc_invite_entry(s[i]),
    decreases s.len(),
{
    lemma_auto_spec_u64_to_from_le_bytes();
    lemma_enc_invite_entries_len(s);
    lemma_enc_invite_entries_len(s.drop_last());
    if i == s.len() - 1 {
        assert(enc_invite_entries(s).subrange(33 * i, 33 * i + 33) =~= enc_invite_entry(s[i]));
    } else {
        lemma_enc_invite_entries_index(s.drop_last(), i);
        assert(enc_invite_entries(s).subrange(33 * i, 33 * i + 33) =~= enc_invite_entries(
            s.drop_last(),
        ).subrange(33 * i, 33 * i + 33));
    }
}

/// Decoding an encoded attendee record gives the record back.
pub proof fn lemma_attendee_round_trip(a: AttendeeV)
    requires
        a.wf(),
        a.joined.len() <= u64::MAX,
        a.invites.len() <= u64::MAX,
    ensures
        spec_decode_attendee(spec_encode_attendee(a)) == Some(a),
{
    lemma_auto_spec_u64_to_from_le_bytes();
    lemma_enc_joined_entries_len(a.joined);
    lemma_enc_invite_entries_len(a.invites);
    let b = spec_encode_attendee(a);
    let nj = a.joined.len() as int;
    let ni = a.invites.len() as int;
    let ipos = 16 + 32 * nj;
    assert(b.len() == 24 + 32 * nj + 33 * ni);
    assert(b.subrange(0, 8) =~= enc_u64(a.principal));
    assert(b.subrange(8, 16) =~= enc_u64(a.joined.len() as u64));
    assert(b.subrange(ipos, ipos + 8) =~= enc_u64(a.invites.len() as u64));
    assert(dec_u64_at(b, 0) == a.principal);
    assert(dec_u64_at(b, 8) as int == nj);
    assert(dec_u64_at(b, ipos) as int == ni);
    assert forall|i: int| 0 <= i < nj implies dec_joined_entry_at(b, 16 + 32 * i)
        == a.joined[i] by {
        lemma_enc_joined_entries_index(a.joined, i);
        let e = enc_joined_entry(a.joined[i]);
        let pos = 16 + 32 * i;
        assert(b.subrange(pos, pos + 32) =~= enc_joined_entries(a.joined).subrange(
            32 * i,
            32 * i + 32,
        ));
        assert(b.subrange(pos, pos + 8) =~= e.subrange(0, 8));
        assert(b.subrange(pos + 8, pos + 16) =~= e.subrange(8, 16));
        assert(b.subrange(pos + 16, pos + 24) =~= e.subrange(16, 24));
        assert(b.subrange(pos + 24, pos + 32) =~= e.subrange(24, 32));
        assert(e.subrange(0, 8) =~= enc_u64(a.joined[i].0));
        assert(e.subrange(8, 16) =~= enc_u64(a.joined[i].1.group_identifier));
        assert(e.subrange(16, 24) =~= enc_u64(a.joined[i].1.updated_at));
        assert(e.subrange(24, 32) =~= enc_u64(a.joined[i].1.created_at));
    }
    assert forall|i: int| 0 <= i < ni implies dec_invite_entry_at(b, ipos + 8 + 33 * i)
        == a.invites[i] && valid_invite_type_byte(#[trigger] b[ipos + 8 + 33 * i + 16]) by {
        lemma_enc_invite_entries_index(a.invites, i);
        let e = enc_invite_entry(a.invites[i]);
        let pos = ipos + 8 + 33 * i;
        assert(b.subrange(pos, pos + 33) =~= enc_invite_entries(a.invites).subrange(
            33 * i,
            33 * i + 33,
        ));
        assert(b.subrange(pos, pos + 8) =~= e.subrange(0, 8));
        assert(b.subrange(pos + 8, pos + 16) =~= e.subrange(8, 16));
        assert(b[pos + 16] == e[16]);
        assert(b.subrange(pos + 17, pos + 25) =~= e.subrange(17, 25));
        assert(b.subrange(pos + 25, pos + 33) =~= e.subrange(25, 33));
        assert(e.subrange(0, 8) =~= enc_u64(a.invites[i].0));
        assert(e.subrange(8, 16) =~= enc_u64(a.invites[i].1.group_identifier));
        assert(e[16] == invite_type_byte(a.invites[i].1.invite_type));
        assert(e.subrange(17, 25) =~= enc_u64(a.invites[i].1.updated_at));
        assert(e.subrange(25, 33) =~= enc_u64(a.invites[i].1.created_at));
    }
    let joined = Seq::new(nj as nat, |i: int| dec_joined_entry_at(b, 16 + 32 * i));
    let invites = Seq::new(ni as nat, |i: int| dec_invite_entry_at(b, ipos + 8 + 33 * i));
    assert(joined =~= a.joined);
    assert(invites =~= a.invites);
    assert(AttendeeV { principal: dec_u64_at(b, 0), joined, invites } =~= a);
}

/// Each encoded membership projection takes 32 bytes.
pub proof fn lemma_enc_joined_responses_len(s: Seq<JoinedAttendeeResponse>)
    ensures
        enc_joined_responses(s).len() == 32 * s.len(),
    decreases s.len(),
{
    lemma_auto_spec_u64_to_from_le_bytes();
    if s.len() > 0 {
        lemma_enc_joined_responses_len(s.drop_last());
    }
}

/// Each encoded invite projection takes 33 bytes.
pub proof fn lemma_enc_invite_responses_len(s: Seq<InviteAttendeeResponse>)
    ensures
        enc_invite_responses(s).len() == 33 * s.len(),
    decreases s.len(),
{
    lemma_auto_spec_u64_to_from_le_bytes();
    if s.len() > 0 {
        lemma_enc_invite_responses_len(s.drop_last());
    }
}

/// Element `i` of an encoded membership list sits at offset `32 * i`.
pub proof fn lemma_enc_joined_responses_index(s: Seq<JoinedAttendeeResponse>, i: int)
    requires
        0 <= i < s.len(),
    ensures
        enc_joined_responses(s).subrange(32 * i, 32 * i + 32) == enc_joined_response(s[i]),
    decreases s.len(),
{
    lemma_auto_spec_u64_to_from_le_bytes();
    lemma_enc_joined_responses_len(s);
    lemma_enc_joined_responses_len(s.drop_last());
    if i == s.len() - 1 {
        assert(enc_joined_responses(s).subrange(32 * i, 32 * i + 32) =~= enc_joined_response(
            s[i],
        ));
    } else {
        lemma_enc_joined_responses_index(s.drop_last(), i);
        assert(enc_joined_responses(s).subrange(32 * i, 32 * i + 32) =~= enc_joined_responses(
            s.drop_last(),
        ).subrange(32 * i, 32 * i + 32));
    }
}

/// Element `i` of an encoded invite list sits at offset `33 * i`.
pub proof fn lemma_enc_invite_responses_index(s: Seq<InviteAttendeeResponse>, i: int)
    requires
        0 <= i < s.len(),
    ensures
        enc_invite_responses(s).subrange(33 * i, 33 * i + 33) == enc_invite_response(s[i]),
    decreases s.len(),
{
    lemma_auto_spec_u64_to_from_le_bytes();
    lemma_enc_invite_responses_len(s);
    lemma_enc_invite_responses_len(s.drop_last());
    if i == s.len() - 1 {
        assert(enc_invite_responses(s).subrange(33 * i, 33 * i + 33) =~= enc_invite_response(
            s[i],
        ));
    } else {
        lemma_enc_invite_responses_index(s.drop_last(), i);
        assert(enc_invite_responses(s).subrange(33 * i, 33 * i + 33) =~= enc_invite_responses(
            s.drop_last(),
        ).subrange(33 * i, 33 * i + 33));
    }
}

/// Decoding an encoded membership list gives the list back.
pub proof fn lemma_joined_list_round_trip(s: Seq<JoinedAttendeeResponse>)
    requires
        s.len() <= u64::MAX,
    ensures
        spec_decode_joined_list(spec_encode_joined_list(s)) == Some(s),
{
    lemma_auto_spec_u64_to_from_le_bytes();
    lemma_enc_joined_responses_len(s);
    let b = spec_encode_joined_list(s);
    assert(b.subrange(0, 8) =~= enc_u64(s.len() as u64));
    let n = dec_u64_at(b, 0) as int;
    assert(n == s.len());
    assert forall|i: int| 0 <= i < n implies dec_joined_response_at(b, 8 + 32 * i) == s[i] by {
        lemma_enc_joined_responses_index(s, i);
        let e = enc_joined_response(s[i]);
        let pos = 8 + 32 * i;
        assert(b.subrange(pos, pos + 32) =~= enc_joined_responses(s).subrange(
            32 * i,
            32 * i + 32,
        ));
        assert(b.subrange(pos, pos + 8) =~= e.subrange(0, 8));
        assert(b.subrange(pos + 8, pos + 16) =~= e.subrange(8, 16));
        assert(b.subrange(pos + 16, pos + 24) =~= e.subrange(16, 24));
        assert(b.subrange(pos + 24, pos + 32) =~= e.subrange(24, 32));
        assert(e.subrange(0, 8) =~= enc_u64(s[i].event_identifier));
        assert(e.subrange(8, 16) =~= enc_u64(s[i].group_identifier));
        assert(e.subrange(16, 24) =~= enc_u64(s[i].attendee_identifier));
        assert(e.subrange(24, 32) =~= enc_u64(s[i].principal));
    }
    assert(Seq::new(n as nat, |i: int| dec_joined_response_at(b, 8 + 32 * i)) =~= s);
}

/// Decoding an encoded invite list gives the list back.
pub proof fn lemma_invite_list_round_trip(s: Seq<InviteAttendeeResponse>)
    requires
        s.len() <= u64::MAX,
    ensures
        spec_decode_invite_list(spec_encode_invite_list(s)) == Some(s),
{
    lemma_auto_spec_u64_to_from_le_bytes();
    lemma_enc_invite_responses_len(s);
    let b = spec_encode_invite_list(s);
    assert(b.subrange(0, 8) =~= enc_u64(s.len() as u64));
    let n = dec_u64_at(b, 0) as int;
    assert(n == s.len());
    assert forall|i: int| 0 <= i < n implies dec_invite_response_at(b, 8 + 33 * i) == s[i]
        && valid_invite_type_byte(#[trigger] b[8 + 33 * i + 32]) by {
        lemma_enc_invite_responses_index(s, i);
        let e = enc_invite_response(s[i]);
        let pos = 8 + 33 * i;
        assert(b.subrange(pos, pos + 33) =~= enc_invite_responses(s).subrange(
            33 * i,
            33 * i + 33,
        ));
        assert(b.subrange(pos, pos + 8) =~= e.subrange(0, 8));
        assert(b.subrange(pos + 8, pos + 16) =~= e.subrange(8, 16));
        assert(b.subrange(pos + 16, pos + 24) =~= e.subrange(16, 24));
        assert(b.subrange(pos + 24, pos + 32) =~= e.subrange(24, 32));
        assert(e.subrange(0, 8) =~= enc_u64(s[i].event_identifier));
        assert(e.subrange(8, 16) =~= enc_u64(s[i].group_identifier));
        assert(e.subrange(16, 24) =~= enc_u64(s[i].attendee_identifier));
        assert(e.subrange(24, 32) =~= enc_u64(s[i].principal));
        assert(b[pos + 32] == e[32]);
        assert(e[32] == invite_type_byte(s[i].invite_type));
    }
    assert(Seq::new(n as nat, |i: int| dec_invite_response_at(b, 8 + 33 * i)) =~= s);
}

/// A strict prefix of an encoded membership list never decodes: the count
/// prefix promises more bytes than the prefix holds.
pub proof fn lemma_joined_list_prefix_rejected(s: Seq<JoinedAttendeeResponse>, k: int)
    requires
        s.len() <= u64::MAX,
        0 <= k < spec_encode_joined_list(s).len(),
    ensures
        spec_decode_joined_list(spec_encode_joined_list(s).take(k)) is None,
{
    lemma_auto_spec_u64_to_from_le_bytes();
    lemma_enc_joined_responses_len(s);
    let b = spec_encode_joined_list(s);
    let p = b.take(k);
    if k >= 8 {
        assert(p.subrange(0, 8) =~= enc_u64(s.len() as u64));
        assert(dec_u64_at(p, 0) == s.len() as u64);
        assert(p.len() != 8 + 32 * (s.len() as int));
    }
}

/// A strict prefix of an encoded invite list never decodes.
pub proof fn lemma_invite_list_prefix_rejected(s: Seq<InviteAttendeeResponse>, k: int)
    requires
        s.len() <= u64::MAX,
        0 <= k < spec_encode_invite_list(s).len(),
    ensures
        spec_decode_invite_list(spec_encode_invite_list(s).take(k)) is None,
{
    lemma_auto_spec_u64_to_from_le_bytes();
    lemma_enc_invite_responses_len(s);
    let b = spec_encode_invite_list(s);
    let p = b.take(k);
    if k >= 8 {
        assert(p.subrange(0, 8) =~= enc_u64(s.len() as u64));
        assert(dec_u64_at(p, 0) == s.len() as u64);
        assert(p.len() != 8 + 33 * (s.len() as int));
    }
}

/// Append the eight little-endian bytes of `x`.
fn push_u64(out: &mut Vec<u8>, x: u64)
    ensures
        final(out)@ == old(out)@ + enc_u64(x),
{
    proof {
        lemma_auto_spec_u64_to_from_le_bytes();
    }
    let mut tmp = u64_to_le_bytes(x);
    out.append(&mut tmp);
}

/// The 64-bit word stored at `pos`.
fn read_u64_at(bytes: &Vec<u8>, pos: usize) -> (x: u64)
    requires
        pos + 8 <= bytes@.len(),
    ensures
        x == dec_u64_at(bytes@, pos as int),
{
    let len = bytes.len();
    u64_from_le_bytes(slice_subrange(bytes.as_slice(), pos, pos + 8))
}

/// Serialize membership projections into the count-prefixed encoding.
pub fn encode_joined_responses(v: &Vec<JoinedAttendeeResponse>) -> (r: Vec<u8>)
    ensures
        r@ == spec_encode_joined_list(v@),
{
    let n = v.len();
    let mut out: Vec<u8> = Vec::new();
    push_u64(&mut out, n as u64);
    let mut i: usize = 0;
    while i < n
        invariant
            i <= n,
            n == v@.len(),
            out@ == enc_u64(n as u64) + enc_joined_responses(v@.take(i as int)),
        decreases n - i,
    {
        let e = v[i];
        push_u64(&mut out, e.event_identifier);
        push_u64(&mut out, e.group_identifier);
        push_u64(&mut out, e.attendee_identifier);
        push_u64(&mut out, e.principal);
        proof {
            assert(v@.take(i + 1 as int).drop_last() =~= v@.take(i as int));
            assert(v@.take(i + 1 as int).last() == v@[i as int]);
            assert(out@ =~= enc_u64(n as u64) + enc_joined_responses(v@.take(i + 1 as int)));
        }
        i = i + 1;
    }
    proof {
        assert(v@.take(n as int) =~= v@);
    }
    out
}

/// Serialize invite projections into the count-prefixed encoding.
pub fn encode_invite_responses(v: &Vec<InviteAttendeeResponse>) -> (r: Vec<u8>)
    ensures
        r@ == spec_encode_invite_list(v@),
{
    let n = v.len();
    let mut out: Vec<u8> = Vec::new();
    push_u64(&mut out, n as u64);
    let mut i: usize = 0;
    while i < n
        invariant
            i <= n,
            n == v@.len(),
            out@ == enc_u64(n as u64) + enc_invite_responses(v@.take(i as int)),
        decreases n - i,
    {
        let e = v[i];
        push_u64(&mut out, e.event_identifier);
        push_u64(&mut out, e.group_identifier);
        push_u64(&mut out, e.attendee_identifier);
        push_u64(&mut out, e.principal);
        let tag: u8 = match e.invite_type {
            InviteType::NoRequest => 0,
            InviteType::OwnerRequest => 1,
            InviteType::UserRequest => 2,
        };
        out.push(tag);
        proof {
            assert(v@.take(i + 1 as int).drop_last() =~= v@.take(i as int));
            assert(v@.take(i + 1 as int).last() == v@[i as int]);
            assert(out@ =~= enc_u64(n as u64) + enc_invite_responses(v@.take(i + 1 as int)));
        }
        i = i + 1;
    }
    proof {
        assert(v@.take(n as int) =~= v@);
    }
    out
}

/// Deserialize a count-prefixed list of membership projections; nothing but
/// an exact encoding is accepted.
pub fn decode_joined_responses(bytes: &Vec<u8>) -> (r: Option<Vec<JoinedAttendeeResponse>>)
    ensures
        match r {
            Some(v) => spec_decode_joined_list(bytes@) == Some(v@),
            None => spec_decode_joined_list(bytes@) is None,
        },
{
    let len = bytes.len();
    if len < 8 {
        return None;
    }
    let n64 = read_u64_at(bytes, 0);
    if n64 > ((len - 8) / 32) as u64 {
        return None;
    }
    let n = n64 as usize;
    if len - 8 != 32 * n {
        return None;
    }
    let mut out: Vec<JoinedAttendeeResponse> = Vec::new();
    let mut i: usize = 0;
    let mut pos: usize = 8;
    while i < n
        invariant
            i <= n,
            pos == 8 + 32 * i,
            len == bytes@.len(),
            len == 8 + 32 * n,
            out@.len() == i,
            forall|j: int| 0 <= j < i ==> #[trigger] out@[j] == dec_joined_response_at(
                bytes@,
                8 + 32 * j,
            ),
        decreases n - i,
    {
        let e = JoinedAttendeeResponse {
            event_identifier: read_u64_at(bytes, pos),
            group_identifier: read_u64_at(bytes, pos + 8),
            attendee_identifier: read_u64_at(bytes, pos + 16),
            principal: read_u64_at(bytes, pos + 24),
        };
        out.push(e);
        i = i + 1;
        pos = pos + 32;
    }
    proof {
        let n_ = dec_u64_at(bytes@, 0) as int;
        assert(out@ =~= Seq::new(n_ as nat, |j: int| dec_joined_response_at(bytes@, 8 + 32 * j)));
    }
    Some(out)
}

/// Deserialize a count-prefixed list of invite projections; an unknown
/// invite-type tag rejects the buffer.
pub fn decode_invite_responses(bytes: &Vec<u8>) -> (r: Option<Vec<InviteAttendeeResponse>>)
    ensures
        match r {
            Some(v) => spec_decode_invite_list(bytes@) == Some(v@),
            None => spec_decode_invite_list(bytes@) is None,
        },
{
    let len = bytes.len();
    if len < 8 {
        return None;
    }
    let n64 = read_u64_at(bytes, 0);
    if n64 > ((len - 8) / 33) as u64 {
        return None;
    }
    let n = n64 as usize;
    if len - 8 != 33 * n {
        return None;
    }
    let mut out: Vec<InviteAttendeeResponse> = Vec::new();
    let mut i: usize = 0;
    let mut pos: usize = 8;
    while i < n
        invariant
            i <= n,
            pos == 8 + 33 * i,
            len == bytes@.len(),
            len == 8 + 33 * n,
            out@.len() == i,
            forall|j: int| 0 <= j < i ==> #[trigger] out@[j] == dec_invite_response_at(
                bytes@,
                8 + 33 * j,
            ),
            forall|j: int|
                0 <= j < i ==> valid_invite_type_byte(#[trigger] bytes@[8 + 33 * j + 32]),
        decreases n - i,
    {
        let tag = bytes[pos + 32];
        let invite_type = if tag == 0 {
            InviteType::NoRequest
        } else if tag == 1 {
            InviteType::OwnerRequest
        } else if tag == 2 {
            InviteType::UserRequest
        } else {
            proof {
                assert(!valid_invite_type_byte(bytes@[8 + 33 * (i as int) + 32]));
            }
            return None;
        };
        let e = InviteAttendeeResponse {
            event_identifier: read_u64_at(bytes, pos),
            group_identifier: read_u64_at(bytes, pos + 8),
            attendee_identifier: read_u64_at(bytes, pos + 16),
            principal: read_u64_at(bytes, pos + 24),
            invite_type,
        };
        out.push(e);
        i = i + 1;
        pos = pos + 33;
    }
    proof {
        let n_ = dec_u64_at(bytes@, 0) as int;
        assert(out@ =~= Seq::new(n_ as nat, |j: int| dec_invite_response_at(bytes@, 8 + 33 * j)));
    }
    Some(out)
}

impl Attendee {
    /// Serialize the record into the byte encoding.
    pub fn to_bytes(&self) -> (r: Vec<u8>)
        ensures
            r@ == spec_encode_attendee(self@),
    {
        let mut out: Vec<u8> = Vec::new();
        push_u64(&mut out, self.principal);
        let nj = self.joined.len();
        push_u64(&mut out, nj as u64);
        let ghost header = enc_u64(self@.principal) + enc_u64(self@.joined.len() as u64);
        let mut i: usize = 0;
        while i < nj
            invariant
                i <= nj,
                nj == self@.joined.len(),
                out@ == header + enc_joined_entries(self@.joined.take(i as int)),
            decreases nj - i,
        {
            let e = self.joined.entry_at(i);
            push_u64(&mut out, e.0);
            push_u64(&mut out, e.1.group_identifier);
            push_u64(&mut out, e.1.updated_at);
            push_u64(&mut out, e.1.created_at);
            proof {
                assert(self@.joined.take(i + 1 as int).drop_last() =~= self@.joined.take(i as int));
                assert(self@.joined.take(i + 1 as int).last() == self@.joined[i as int]);
                assert(out@ =~= header + enc_joined_entries(self@.joined.take(i + 1 as int)));
            }
            i = i + 1;
        }
        proof {
            assert(self@.joined.take(nj as int) =~= self@.joined);
        }
        let ni = self.invites.len();
        push_u64(&mut out, ni as u64);
        let ghost header2 = header + enc_joined_entries(self@.joined) + enc_u64(
            self@.invites.len() as u64,
        );
        let mut k: usize = 0;
        while k < ni
            invariant
                k <= ni,
                ni == self@.invites.len(),
                out@ == header2 + enc_invite_entries(self@.invites.take(k as int)),
            decreases ni - k,
        {
            let e = self.invites.entry_at(k);
            push_u64(&mut out, e.0);
            push_u64(&mut out, e.1.group_identifier);
            let tag: u8 = match e.1.invite_type {
                InviteType::NoRequest => 0,
                InviteType::OwnerRequest => 1,
                InviteType::UserRequest => 2,
            };
            out.push(tag);
            push_u64(&mut out, e.1.updated_at);
            push_u64(&mut out, e.1.created_at);
            proof {
                assert(self@.invites.take(k + 1 as int).drop_last() =~= self@.invites.take(
                    k as int,
                ));
                assert(self@.invites.take(k + 1 as int).last() == self@.invites[k as int]);
                assert(out@ =~= header2 + enc_invite_entries(self@.invites.take(k + 1 as int)));
            }
            k = k + 1;
        }
        proof {
            assert(self@.invites.take(ni as int) =~= self@.invites);
            assert(out@ =~= spec_encode_attendee(self@));
        }
        out
    }

    /// Deserialize a record from the byte encoding; nothing but an exact,
    /// well-formed encoding is accepted.
    #[verifier::loop_isolation(false)]
    pub fn from_bytes(bytes: &Vec<u8>) -> (r: Option<Attendee>)
        ensures
            match r {
                Some(a) => spec_decode_attendee(bytes@) == Some(a@) && a.wf(),
                None => spec_decode_attendee(bytes@) is None,
            },
    {
        let len = bytes.len();
        if len < 24 {
            return None;
        }
        let principal = read_u64_at(bytes, 0);
        let nj64 = read_u64_at(bytes, 8);
        if nj64 > ((len - 24) / 32) as u64 {
            return None;
        }
        let nj = nj64 as usize;
        let ipos = 16 + 32 * nj;
        let ni64 = read_u64_at(bytes, ipos);
        let rest = len - ipos - 8;
        if ni64 > (rest / 33) as u64 {
            return None;
        }
        let ni = ni64 as usize;
        if 33 * ni != rest {
            return None;
        }
        let ghost joined_full = Seq::new(
            nj as nat,
            |i: int| dec_joined_entry_at(bytes@, 16 + 32 * i),
        );
        let ghost invites_full = Seq::new(
            ni as nat,
            |i: int| dec_invite_entry_at(bytes@, (16 + 32 * (nj as int)) + 8 + 33 * i),
        );
        let mut joined: KeyMap<Join> = KeyMap::new();
        let mut i: usize = 0;
        let mut pos: usize = 16;
        while i < nj
            invariant
                i <= nj,
                pos == 16 + 32 * i,
                len == bytes@.len(),
                len >= 24 + 32 * nj,
                joined_full == Seq::new(
                    nj as nat,
                    |j: int| dec_joined_entry_at(bytes@, 16 + 32 * j),
                ),
                joined@ == joined_full.take(i as int),
                joined.wf(),
            decreases nj - i,
        {
            let key = read_u64_at(bytes, pos);
            proof {
                assert(joined_full[i as int].0 == key);
            }
            if joined.contains_key(key) {
                proof {
                    lemma_index_of_key(joined@, key);
                    let j = crate::keymap::index_of_key(joined@, key);
                    assert(joined_full[j].0 == key);
                    assert(!distinct_keys(joined_full));
                }
                return None;
            }
            let entry = Join {
                group_identifier: read_u64_at(bytes, pos + 8),
                updated_at: read_u64_at(bytes, pos + 16),
                created_at: read_u64_at(bytes, pos + 24),
            };
            joined.insert(key, entry);
            proof {
                assert(joined_full.take(i + 1 as int) =~= joined_full.take(i as int).push(
                    (key, entry),
                ));
            }
            i = i + 1;
            pos = pos + 32;
        }
        proof {
            assert(joined@ =~= joined_full);
        }
        let mut invites: KeyMap<Invite> = KeyMap::new();
        let mut k: usize = 0;
        let mut kpos: usize = ipos + 8;
        while k < ni
            invariant
                k <= ni,
                kpos == ipos + 8 + 33 * k,
                ipos == 16 + 32 * nj,
                len == bytes@.len(),
                len == 24 + 32 * nj + 33 * ni,
                invites_full == Seq::new(
                    ni as nat,
                    |j: int| dec_invite_entry_at(bytes@, (16 + 32 * (nj as int)) + 8 + 33 * j),
                ),
                invites@ == invites_full.take(k as int),
                invites.wf(),
                forall|j: int|
                    0 <= j < k ==> valid_invite_type_byte(
                        #[trigger] bytes@[(16 + 32 * (nj as int)) + 8 + 33 * j + 16],
                    ),
            decreases ni - k,
        {
            let key = read_u64_at(bytes, kpos);
            proof {
                assert(invites_full[k as int].0 == key);
            }
            if invites.contains_key(key) {
                proof {
                    lemma_index_of_key(invites@, key);
                    let j = crate::keymap::index_of_key(invites@, key);
                    assert(invites_full[j].0 == key);
                    assert(!distinct_keys(invites_full));
                }
                return None;
            }
            let tag = bytes[kpos + 16];
            let invite_type = if tag == 0 {
                InviteType::NoRequest
            } else if tag == 1 {
                InviteType::OwnerRequest
            } else if tag == 2 {
                InviteType::UserRequest
            } else {
                proof {
                    assert(!valid_invite_type_byte(
                        bytes@[(16 + 32 * (nj as int)) + 8 + 33 * (k as int) + 16],
                    ));
                }
                return None;
            };
            let entry = Invite {
                group_identifier: read_u64_at(bytes, kpos + 8),
                invite_type,
                updated_at: read_u64_at(bytes, kpos + 17),
                created_at: read_u64_at(bytes, kpos + 25),
            };
            invites.insert(key, entry);
            proof {
                assert(invites_full[k as int].1 == entry);
                assert(invites_full.take(k + 1 as int) =~= invites_full.take(k as int).push(
                    (key, entry),
                ));
            }
            k = k + 1;
            kpos = kpos + 33;
        }
        proof {
            assert(invites@ =~= invites_full);
        }
        let a = Attendee { principal, joined, invites };
        proof {
            let decoded = AttendeeV { principal, joined: joined_full, invites: invites_full };
            assert(a@ =~= decoded);
            assert(spec_decode_attendee(bytes@) == Some(decoded));
        }
        Some(a)
    }
}

} // verus!
