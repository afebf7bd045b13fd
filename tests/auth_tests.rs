use std::time::{SystemTime, UNIX_EPOCH};
use xenon_vault::auth::{change_master_password, check_code, login, register, AuthError, AuthState};

fn code_for(secret: &str, time: u64) -> String {
    totp_rs::TOTP::new(
        totp_rs::Algorithm::SHA1,
        6,
        1,
        30,
        secret.as_bytes().to_vec(),
        Some("Xenon".to_string()),
        "Anon".to_string(),
    )
    .unwrap()
    .generate(time)
}

fn now() -> u64 {
    SystemTime::now().duration_since(UNIX_EPOCH).unwrap().as_secs()
}

#[test]
fn register_once_then_login() {
    let mut st = AuthState::new();
    let (ok, artifact) = register(&mut st, "Tr0ub4dor&3");
    assert!(ok);
    assert!(!artifact.is_empty());
    assert!(artifact.starts_with("otpauth://totp/"));
    assert!(artifact.contains("issuer=Xenon"));
    let rec = st.record.clone().unwrap();
    assert_eq!(rec.secret.len(), 16);
    let expected_url = totp_rs::TOTP::new(
        totp_rs::Algorithm::SHA1,
        6,
        1,
        30,
        rec.secret.as_bytes().to_vec(),
        Some("Xenon".to_string()),
        "Anon".to_string(),
    )
    .unwrap()
    .get_url();
    assert_eq!(artifact, expected_url);
    assert!(rec.password_hash.starts_with("$argon2id$"));
    assert_eq!(register(&mut st, "other"), (false, String::new()));
    let after = st.record.clone().unwrap();
    assert_eq!(after.password_hash, rec.password_hash);
    assert_eq!(after.secret, rec.secret);
    let t = now();
    assert!(login(&st, "Tr0ub4dor&3", &code_for(&rec.secret, t), t));
}

#[test]
fn login_rejects_wrong_password() {
    let mut st = AuthState::new();
    assert!(register(&mut st, "right").0);
    let secret = st.record.clone().unwrap().secret;
    let t = now();
    assert!(!login(&st, "wrong", &code_for(&secret, t), t));
}

#[test]
fn login_without_identity_fails() {
    let st = AuthState::new();
    assert!(!login(&st, "pw", "123456", now()));
}

#[test]
fn code_window_is_one_step_each_side() {
    let secret = "ABCDEFGHIJKLMNOP";
    let t: u64 = 1_700_000_015;
    assert!(check_code(secret, &code_for(secret, t), t));
    assert!(check_code(secret, &code_for(secret, t - 30), t));
    assert!(check_code(secret, &code_for(secret, t + 30), t));
    let far = code_for(secret, t + 60);
    let near = [code_for(secret, t - 30), code_for(secret, t), code_for(secret, t + 30)];
    if !near.contains(&far) {
        assert!(!check_code(secret, &far, t));
    }
    let past = code_for(secret, t - 60);
    if !near.contains(&past) {
        assert!(!check_code(secret, &past, t));
    }
}

#[test]
fn code_before_second_step_is_refused() {
    let secret = "ABCDEFGHIJKLMNOP";
    assert!(!check_code(secret, &code_for(secret, 0), 10));
    assert!(check_code(secret, &code_for(secret, 0), 30));
    assert!(!check_code(secret, &code_for(secret, u64::MAX - 5), u64::MAX - 5));
}

#[test]
fn short_secret_never_matches() {
    assert!(!check_code("short", "000000", 1_700_000_000));
}

#[test]
fn change_password_keeps_secret() {
    let mut st = AuthState::new();
    assert_eq!(change_master_password(&mut st, "x"), Err(AuthError::NotRegistered));
    assert!(register(&mut st, "old-pw").0);
    let before = st.record.clone().unwrap();
    change_master_password(&mut st, "new-pw").unwrap();
    let after = st.record.clone().unwrap();
    assert_eq!(after.secret, before.secret);
    assert_ne!(after.password_hash, before.password_hash);
    let t = now();
    assert!(login(&st, "new-pw", &code_for(&after.secret, t), t));
}
