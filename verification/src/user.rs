//! A user record and the free functions that read and update it.

use vstd::prelude::*;

verus! {

/// A user account: name, mail address, how often the user signed in, and
/// whether the account is active.
pub struct User {
    pub username: String,
    pub email: String,
    pub sign_in_count: u64,
    pub active: bool,
}

/// Raises the sign-in count by one through an exclusive handle, leaving
/// every other field as it was.
pub fn increment_login(user: &mut User)
    requires
        old(user).sign_in_count < u64::MAX,
    ensures
        final(user).sign_in_count == old(user).sign_in_count + 1,
        final(user).username == old(user).username,
        final(user).email == old(user).email,
        final(user).active == old(user).active,
{
    user.sign_in_count = user.sign_in_count + 1;
}

} // verus!
