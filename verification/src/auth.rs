use vstd::prelude::*;

verus! {

/// Permission bits a user account can hold, combined by bitwise or.
pub struct UserPermission {}

impl UserPermission {
    pub const NONE: i64 = 0;

    pub const ADMINISTRATION: i64 = 1;

    pub const RESULTS_VIEW: i64 = 2;

    pub const SCORE_VIEW: i64 = 4;

    pub const SCORE_ENTRY: i64 = 8;

    pub const REGISTRATION_VIEW: i64 = 16;

    pub const REGISTRATION_ENTRY: i64 = 32;
}

/// Credentials presented by a login request.
#[derive(Debug, Clone)]
pub struct LoginRequest {
    pub username: String,
    pub password: String,
}

/// Whether the user's permission bits are missing one of the required bits.
pub fn check_permissions(user_permissions: i64, required_permissions: i64) -> (r: bool)
    ensures
        r == ((required_permissions & user_permissions) != required_permissions),
{
    (required_permissions & user_permissions) != required_permissions
}

} // verus!
