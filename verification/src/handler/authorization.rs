//! Handlers of the authorization methods.

use vstd::prelude::*;
use crate::handler::ApiError;

verus! {

/// `auth.bindTempAuthKey`: answered with the status `1`.
pub fn auth_bind_temp_auth_key() -> (r: Result<i32, ApiError>)
    ensures
        r == Ok::<i32, ApiError>(1),
{
    Ok(1)
}

/// `auth.cancelCode`: answered with the status `1`.
pub fn auth_cancel_code() -> (r: Result<i32, ApiError>)
    ensures
        r == Ok::<i32, ApiError>(1),
{
    Ok(1)
}

/// `account.sendVerifyEmailCode`: answered with the status `1`.
pub fn account_send_verify_email_code() -> (r: Result<i32, ApiError>)
    ensures
        r == Ok::<i32, ApiError>(1),
{
    Ok(1)
}

/// `account.verifyEmail`: answered with the status `1`.
pub fn account_verify_email() -> (r: Result<i32, ApiError>)
    ensures
        r == Ok::<i32, ApiError>(1),
{
    Ok(1)
}

/// `auth.checkPassword`: answered with the status `1`.
pub fn auth_check_password() -> (r: Result<i32, ApiError>)
    ensures
        r == Ok::<i32, ApiError>(1),
{
    Ok(1)
}

/// `account.resetPassword`: answered with the status `1`.
pub fn account_reset_password() -> (r: Result<i32, ApiError>)
    ensures
        r == Ok::<i32, ApiError>(1),
{
    Ok(1)
}

/// `auth.checkRecoveryPassword`: answered with the status `1`.
pub fn auth_check_recovery_password() -> (r: Result<i32, ApiError>)
    ensures
        r == Ok::<i32, ApiError>(1),
{
    Ok(1)
}

/// `auth.dropTempAuthKeys`: answered with the status `1`.
pub fn auth_drop_temp_auth_keys() -> (r: Result<i32, ApiError>)
    ensures
        r == Ok::<i32, ApiError>(1),
{
    Ok(1)
}

/// `auth.exportAuthorization`: answered with the status `1`.
pub fn auth_export_authorization() -> (r: Result<i32, ApiError>)
    ensures
        r == Ok::<i32, ApiError>(1),
{
    Ok(1)
}

/// `auth.importAuthorization`: answered with the status `1`.
pub fn auth_import_authorization() -> (r: Result<i32, ApiError>)
    ensures
        r == Ok::<i32, ApiError>(1),
{
    Ok(1)
}

/// `auth.importBotAuthorization`: answered with the status `1`.
pub fn auth_import_bot_authorization() -> (r: Result<i32, ApiError>)
    ensures
        r == Ok::<i32, ApiError>(1),
{
    Ok(1)
}

/// `account.changeAuthorizationSettings`: answered with the status `1`.
pub fn account_change_authorization_settings() -> (r: Result<i32, ApiError>)
    ensures
        r == Ok::<i32, ApiError>(1),
{
    Ok(1)
}

/// `account.setAuthorizationTTL`: answered with the status `1`.
pub fn account_set_authorization_ttl() -> (r: Result<i32, ApiError>)
    ensures
        r == Ok::<i32, ApiError>(1),
{
    Ok(1)
}

/// `auth.logOut`: answered with the status `1`.
pub fn auth_log_out() -> (r: Result<i32, ApiError>)
    ensures
        r == Ok::<i32, ApiError>(1),
{
    Ok(1)
}

/// `auth.recoverPassword`: answered with the status `1`.
pub fn auth_recover_password() -> (r: Result<i32, ApiError>)
    ensures
        r == Ok::<i32, ApiError>(1),
{
    Ok(1)
}

/// `auth.requestPasswordRecovery`: answered with the status `1`.
pub fn auth_request_password_recovery() -> (r: Result<i32, ApiError>)
    ensures
        r == Ok::<i32, ApiError>(1),
{
    Ok(1)
}

/// `auth.resendCode`: answered with the status `1`.
pub fn auth_resend_code() -> (r: Result<i32, ApiError>)
    ensures
        r == Ok::<i32, ApiError>(1),
{
    Ok(1)
}

/// `auth.resetAuthorizations`: answered with the status `1`.
pub fn auth_reset_authorizations() -> (r: Result<i32, ApiError>)
    ensures
        r == Ok::<i32, ApiError>(1),
{
    Ok(1)
}

/// `auth.sendCode`: answered with the status `1`.
pub fn auth_send_code() -> (r: Result<i32, ApiError>)
    ensures
        r == Ok::<i32, ApiError>(1),
{
    Ok(1)
}

/// `auth.signIn`: answered with the status `1`.
pub fn auth_sign_in() -> (r: Result<i32, ApiError>)
    ensures
        r == Ok::<i32, ApiError>(1),
{
    Ok(1)
}

/// `auth.signUp`: answered with the status `1`.
pub fn auth_sign_up() -> (r: Result<i32, ApiError>)
    ensures
        r == Ok::<i32, ApiError>(1),
{
    Ok(1)
}

} // verus!
