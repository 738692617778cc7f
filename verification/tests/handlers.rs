use tgapi::handler::account::two_fa;
use tgapi::handler::authorization;

#[test]
fn two_fa_handlers_answer_one() {
    assert_eq!(two_fa::account_confirm_password_email(), Ok(1));
    assert_eq!(two_fa::account_resend_password_email(), Ok(1));
    assert_eq!(two_fa::account_cancel_password_email(), Ok(1));
    assert_eq!(two_fa::account_get_password(), Ok(1));
    assert_eq!(two_fa::account_get_password_settings(), Ok(1));
    assert_eq!(two_fa::account_update_password_settings(), Ok(1));
    assert_eq!(two_fa::account_decline_password_reset(), Ok(1));
}

#[test]
fn authorization_handlers_answer_one() {
    assert_eq!(authorization::auth_bind_temp_auth_key(), Ok(1));
    assert_eq!(authorization::auth_cancel_code(), Ok(1));
    assert_eq!(authorization::account_send_verify_email_code(), Ok(1));
    assert_eq!(authorization::account_verify_email(), Ok(1));
    assert_eq!(authorization::auth_check_password(), Ok(1));
    assert_eq!(authorization::account_reset_password(), Ok(1));
    assert_eq!(authorization::auth_check_recovery_password(), Ok(1));
    assert_eq!(authorization::auth_drop_temp_auth_keys(), Ok(1));
    assert_eq!(authorization::auth_export_authorization(), Ok(1));
    assert_eq!(authorization::auth_import_authorization(), Ok(1));
    assert_eq!(authorization::auth_import_bot_authorization(), Ok(1));
    assert_eq!(authorization::account_change_authorization_settings(), Ok(1));
    assert_eq!(authorization::account_set_authorization_ttl(), Ok(1));
    assert_eq!(authorization::auth_log_out(), Ok(1));
    assert_eq!(authorization::auth_recover_password(), Ok(1));
    assert_eq!(authorization::auth_request_password_recovery(), Ok(1));
    assert_eq!(authorization::auth_resend_code(), Ok(1));
    assert_eq!(authorization::auth_reset_authorizations(), Ok(1));
    assert_eq!(authorization::auth_send_code(), Ok(1));
    assert_eq!(authorization::auth_sign_in(), Ok(1));
    assert_eq!(authorization::auth_sign_up(), Ok(1));
}
