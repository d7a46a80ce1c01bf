//! Typed errors for every fallible operation of the store and the
//! coordinator. Each variant corresponds to one failure the operations can
//! report; `kind` groups them into the four coarse classes callers branch
//! on.

use vstd::prelude::*;

verus! {

/// The coarse class of an error.
#[derive(Clone, Copy, PartialEq, Eq, Structural, Debug)]
pub enum ApiErrorKind {
    NotFound,
    BadRequest,
    Unauthorized,
    RemoteCallFailed,
}

/// Every failure the store and the coordinator can report.
#[derive(Clone, Copy, PartialEq, Eq, Structural, Debug)]
pub enum ApiError {
    /// The caller is already part of the event.
    AlreadyJoined,
    /// There is already a pending invite for the event.
    PendingInvite,
    /// The event's privacy kind is not served by this call.
    UnsupportedPrivacy,
    /// No invite exists for the event.
    NoInviteFound,
    /// The invite exists but is of the other request type.
    InvalidInviteType,
    /// No attendee record exists for the principal.
    AttendeeNotFound,
    /// A remote call was rejected by the transport.
    RemoteCallFailed,
    /// The caller is not the principal the roles were looked up for.
    PrincipalMismatch,
    /// The permission lookup denied the action.
    NoPermission,
    /// An internal endpoint was called by someone other than the registered
    /// coordinator.
    UnauthorizedCaller,
    /// A forwarded entry could not be decoded into an attendee record.
    InvalidEntry,
    /// A forwarded entry names a principal that already has a record here.
    DuplicateEntry,
    /// No child code image has been configured on the coordinator.
    NoWasmSpecified,
    /// The calling shard is not known to the coordinator.
    UnknownCanister,
    /// Creating a new execution unit failed.
    CanisterNotCreated,
    /// Installing the code image on a new unit failed.
    CanisterInstallFailed,
    /// Upgrading a shard's code image failed.
    UpgradeFailed,
    /// The shard already runs the pending code-image version.
    CanisterUpToDate,
    /// No child shard with the given identifier is registered.
    NoChildrenFound,
    /// Forwarding the overflow entry to the new shard failed.
    FailedToStoreData,
}

impl ApiError {
    /// The class each variant belongs to.
    pub open spec fn spec_kind(&self) -> ApiErrorKind {
        match self {
            ApiError::AlreadyJoined => ApiErrorKind::BadRequest,
            ApiError::PendingInvite => ApiErrorKind::BadRequest,
            ApiError::UnsupportedPrivacy => ApiErrorKind::BadRequest,
            ApiError::NoInviteFound => ApiErrorKind::NotFound,
            ApiError::InvalidInviteType => ApiErrorKind::BadRequest,
            ApiError::AttendeeNotFound => ApiErrorKind::NotFound,
            ApiError::RemoteCallFailed => ApiErrorKind::RemoteCallFailed,
            ApiError::PrincipalMismatch => ApiErrorKind::Unauthorized,
            ApiError::NoPermission => ApiErrorKind::Unauthorized,
            ApiError::UnauthorizedCaller => ApiErrorKind::Unauthorized,
            ApiError::InvalidEntry => ApiErrorKind::BadRequest,
            ApiError::DuplicateEntry => ApiErrorKind::BadRequest,
            ApiError::NoWasmSpecified => ApiErrorKind::BadRequest,
            ApiError::UnknownCanister => ApiErrorKind::BadRequest,
            ApiError::CanisterNotCreated => ApiErrorKind::BadRequest,
            ApiError::CanisterInstallFailed => ApiErrorKind::NotFound,
            ApiError::UpgradeFailed => ApiErrorKind::BadRequest,
            ApiError::CanisterUpToDate => ApiErrorKind::BadRequest,
            ApiError::NoChildrenFound => ApiErrorKind::NotFound,
            ApiError::FailedToStoreData => ApiErrorKind::BadRequest,
        }
    }

    pub fn kind(&self) -> (k: ApiErrorKind)
        ensures
            k == self.spec_kind(),
    {
        match self {
            ApiError::AlreadyJoined => ApiErrorKind::BadRequest,
            ApiError::PendingInvite => ApiErrorKind::BadRequest,
            ApiError::UnsupportedPrivacy => ApiErrorKind::BadRequest,
            ApiError::NoInviteFound => ApiErrorKind::NotFound,
            ApiError::InvalidInviteType => ApiErrorKind::BadRequest,
            ApiError::AttendeeNotFound => ApiErrorKind::NotFound,
            ApiError::RemoteCallFailed => ApiErrorKind::RemoteCallFailed,
            ApiError::PrincipalMismatch => ApiErrorKind::Unauthorized,
            ApiError::NoPermission => ApiErrorKind::Unauthorized,
            ApiError::UnauthorizedCaller => ApiErrorKind::Unauthorized,
            ApiError::InvalidEntry => ApiErrorKind::BadRequest,
            ApiError::DuplicateEntry => ApiErrorKind::BadRequest,
            ApiError::NoWasmSpecified => ApiErrorKind::BadRequest,
            ApiError::UnknownCanister => ApiErrorKind::BadRequest,
            ApiError::CanisterNotCreated => ApiErrorKind::BadRequest,
            ApiError::CanisterInstallFailed => ApiErrorKind::NotFound,
            ApiError::UpgradeFailed => ApiErrorKind::BadRequest,
            ApiError::CanisterUpToDate => ApiErrorKind::BadRequest,
            ApiError::NoChildrenFound => ApiErrorKind::NotFound,
            ApiError::FailedToStoreData => ApiErrorKind::BadRequest,
        }
    }

    /// The short machine-readable tag of the error.
    pub fn tag(&self) -> (s: String)
        ensures
            match self {
                ApiError::AlreadyJoined => s@ == "ALREADY_JOINED"@,
                ApiError::PendingInvite => s@ == "PENDING_INVITE"@,
                ApiError::UnsupportedPrivacy => s@ == "UNSUPPORTED"@,
                ApiError::NoInviteFound => s@ == "NO_INVITE_FOUND"@,
                ApiError::InvalidInviteType => s@ == "INVALID_TYPE"@,
                ApiError::AttendeeNotFound => s@ == "ATTENDEE_NOT_FOUND"@,
                ApiError::RemoteCallFailed => s@ == "INTER_CANISTER_CALL_FAILED"@,
                ApiError::PrincipalMismatch => s@ == "PRINCIPAL_MISMATCH"@,
                ApiError::NoPermission => s@ == "NO_PERMISSION"@,
                ApiError::UnauthorizedCaller => s@ == "UNAUTHORIZED_CALLER"@,
                ApiError::InvalidEntry => s@ == "INVALID_ENTRY"@,
                ApiError::DuplicateEntry => s@ == "DUPLICATE_ENTRY"@,
                ApiError::NoWasmSpecified => s@ == "NO_WASM_SPECIFIED"@,
                ApiError::UnknownCanister => s@ == "UNKNOWN_CANISTER"@,
                ApiError::CanisterNotCreated => s@ == "CANISTER_NOT_CREATED"@,
                ApiError::CanisterInstallFailed => s@ == "CANISTER_INSTALL_FAILED"@,
                ApiError::UpgradeFailed => s@ == "UPGRADE_FAILED"@,
                ApiError::CanisterUpToDate => s@ == "CANISTER_UP_TO_DATE"@,
                ApiError::NoChildrenFound => s@ == "NO_CHILDREN"@,
                ApiError::FailedToStoreData => s@ == "FAILED_TO_STORE_DATA"@,
            },
    {
        match self {
            ApiError::AlreadyJoined => String::from_str("ALREADY_JOINED"),
            ApiError::PendingInvite => String::from_str("PENDING_INVITE"),
            ApiError::UnsupportedPrivacy => String::from_str("UNSUPPORTED"),
            ApiError::NoInviteFound => String::from_str("NO_INVITE_FOUND"),
            ApiError::InvalidInviteType => String::from_str("INVALID_TYPE"),
            ApiError::AttendeeNotFound => String::from_str("ATTENDEE_NOT_FOUND"),
            ApiError::RemoteCallFailed => String::from_str("INTER_CANISTER_CALL_FAILED"),
            ApiError::PrincipalMismatch => String::from_str("PRINCIPAL_MISMATCH"),
            ApiError::NoPermission => String::from_str("NO_PERMISSION"),
            ApiError::UnauthorizedCaller => String::from_str("UNAUTHORIZED_CALLER"),
            ApiError::InvalidEntry => String::from_str("INVALID_ENTRY"),
            ApiError::DuplicateEntry => String::from_str("DUPLICATE_ENTRY"),
            ApiError::NoWasmSpecified => String::from_str("NO_WASM_SPECIFIED"),
            ApiError::UnknownCanister => String::from_str("UNKNOWN_CANISTER"),
            ApiError::CanisterNotCreated => String::from_str("CANISTER_NOT_CREATED"),
            ApiError::CanisterInstallFailed => String::from_str("CANISTER_INSTALL_FAILED"),
            ApiError::UpgradeFailed => String::from_str("UPGRADE_FAILED"),
            ApiError::CanisterUpToDate => String::from_str("CANISTER_UP_TO_DATE"),
            ApiError::NoChildrenFound => String::from_str("NO_CHILDREN"),
            ApiError::FailedToStoreData => String::from_str("FAILED_TO_STORE_DATA"),
        }
    }
}

} // verus!
