//! Handlers of the two-factor authentication methods.

use vstd::prelude::*;
use crate::handler::ApiError;

verus! {

/// `account.confirmPasswordEmail`: answered with the status `1`.
pub fn account_confirm_password_email() -> (r: Result<i32, ApiError>)
    ensures
        r == Ok::<i32, ApiError>(1),
{
    Ok(1)
}

/// `account.resendPasswordEmail`: answered with the status `1`.
pub fn account_resend_password_email() -> (r: Result<i32, ApiError>)
    ensures
        r == Ok::<i32, ApiError>(1),
{
    Ok(1)
}

/// `account.cancelPasswordEmail`: answered with the status `1`.
pub fn account_cancel_password_email() -> (r: Result<i32, ApiError>)
    ensures
        r == Ok::<i32, ApiError>(1),
{
    Ok(1)
}

/// `account.getPassword`: answered with the status `1`.
pub fn account_get_password() -> (r: Result<i32, ApiError>)
    ensures
        r == Ok::<i32, ApiError>(1),
{
    Ok(1)
}

/// `account.getPasswordSettings`: answered with the status `1`.
pub fn account_get_password_settings() -> (r: Result<i32, ApiError>)
    ensures
        r == Ok::<i32, ApiError>(1),
{
    Ok(1)
}

/// `account.updatePasswordSettings`: answered with the status `1`.
pub fn account_update_password_settings() -> (r: Result<i32, ApiError>)
    ensures
        r == Ok::<i32, ApiError>(1),
{
    Ok(1)
}

/// `account.declinePasswordReset`: answered with the status `1`.
pub fn account_decline_password_reset() -> (r: Result<i32, ApiError>)
    ensures
        r == Ok::<i32, ApiError>(1),
{
    Ok(1)
}

} // verus!
