//! Identity and authentication: one password hash and one one-time-code
//! secret, created once at registration and checked together at login.
use crate::envelope::{all_alphanumeric, bytes_of, lemma_alphanumeric_bytes};
use crate::primitives::{
    argon2_accepts, argon2_phc, argon2_phc_of, argon2_verify, random_alphanumeric, random_salt,
    totp_check, totp_code_of, totp_provisioning_url, totp_url_of,
};
use vstd::prelude::*;

verus! {

/// Length of the one-time-code shared secret, in characters (and bytes).
pub const SECRET_LEN: usize = 16;

/// Length of one time step of the one-time code, in seconds.
pub const STEP_SECS: u64 = 30;

/// The single identity of the vault.
#[derive(Clone, Debug)]
pub struct IdentityRecord {
    /// Argon2 PHC string of the master password.
    pub password_hash: String,
    /// Shared secret of the one-time code, fixed at registration.
    pub secret: String,
}

/// Registration state: `None` until `register` succeeds, then the identity.
#[derive(Clone, Debug)]
pub struct AuthState {
    pub record: Option<IdentityRecord>,
}

/// Why a change of master password did not happen.
#[derive(PartialEq, Eq, Structural, Clone, Copy, Debug)]
pub enum AuthError {
    /// No identity has been registered yet.
    NotRegistered,
    /// The password hash could not be computed.
    HashFailure,
}

/// The time steps whose code is accepted at `now`: the current one and one on
/// either side.
pub open spec fn step_in_window(now: u64, step: int) -> bool {
    let current = now as int / STEP_SECS as int;
    current - 1 <= step <= current + 1
}

/// Timestamps at which the window of three steps can be checked: from the
/// second step on, and while the next step still fits in a `u64` timestamp.
pub open spec fn checkable_time(now: u64) -> bool {
    now >= STEP_SECS && now / STEP_SECS + 1 <= u64::MAX / STEP_SECS
}

/// `code` is the one-time code of `secret` for the current, previous or next
/// time step (at a checkable time).
pub open spec fn code_accepted(secret: Seq<char>, code: Seq<char>, now: u64) -> bool {
    &&& checkable_time(now)
    &&& bytes_of(secret).len() >= SECRET_LEN
    &&& exists|step: int| step_in_window(now, step) && code == totp_code_of(bytes_of(secret), step)
}

/// What `login` answers: an identity exists, the password matches its hash,
/// and the code matches one of the accepted time steps.
pub open spec fn login_ok(state: AuthState, password: Seq<char>, code: Seq<char>, now: u64) -> bool {
    match state.record {
        None => false,
        Some(rec) => argon2_accepts(password, rec.password_hash@) && code_accepted(rec.secret@, code, now),
    }
}

/// Codes outside the window are refused: a code that differs from the codes of
/// the previous, current and next time steps (one from two steps away, say) is
/// not accepted.
pub proof fn lemma_code_outside_window_refused(secret: Seq<char>, code: Seq<char>, now: u64)
    requires
        forall|step: int| step_in_window(now, step) ==> code != totp_code_of(bytes_of(secret), step),
    ensures
        !code_accepted(secret, code, now),
{
}

impl AuthState {
    /// A vault with no identity yet.
    pub fn new() -> (r: AuthState)
        ensures
            r.record is None,
    {
        AuthState { record: None }
    }
}

/// Checks a one-time code against the steps around `now`, one step of clock
/// skew allowed on either side. Outside checkable times no code is accepted.
pub fn check_code(secret: &str, code: &str, now: u64) -> (r: bool)
    ensures
        r == code_accepted(secret@, code@, now),
{
    if now < STEP_SECS || now / STEP_SECS + 1 > u64::MAX / STEP_SECS {
        return false;
    }
    let r = totp_check(secret, code, now);
    proof {
        if r {
            let step = choose|step: int| now as int / 30 - 1 <= step <= now as int / 30 + 1
                && code@ == #[trigger] totp_code_of(bytes_of(secret@), step);
            assert(step_in_window(now, step));
        }
    }
    r
}

/// Creates the identity: an Argon2 hash of `password` under a fresh salt and a
/// fresh 16-character one-time-code secret. On a vault with no identity it
/// succeeds and returns `(true, url)` with the provisioning URL of the secret;
/// when an identity already exists it returns `(false, "")` and changes nothing.
pub fn register(state: &mut AuthState, password: &str) -> (r: (bool, String))
    ensures
        old(state).record is Some ==> !r.0 && r.1@.len() == 0 && final(state).record == old(state).record,
        old(state).record is None ==> r.0,
        r.0 ==> (final(state).record matches Some(rec) && argon2_accepts(password@, rec.password_hash@)
            && r.1@ == totp_url_of(bytes_of(rec.secret@))),
        !r.0 ==> r.1@.len() == 0 && final(state).record == old(state).record,
        r.0 ==> old(state).record is None && r.1@.len() > 0 && (final(state).record matches Some(rec)
            && (exists|salt: Seq<char>| argon2_phc_of(password@, salt) == Some(rec.password_hash@))
            && rec.secret@.len() == SECRET_LEN && all_alphanumeric(rec.secret@)),
{
    if state.record.is_some() {
        return (false, String::new());
    }
    let salt = random_salt();
    let hash = match argon2_phc(password, salt.as_str()) {
        Some(h) => h,
        None => return (false, String::new()),
    };
    let secret = random_alphanumeric(SECRET_LEN);
    proof {
        lemma_alphanumeric_bytes(secret@);
    }
    let url = match totp_provisioning_url(secret.as_str()) {
        Some(u) => u,
        None => return (false, String::new()),
    };
    state.record = Some(IdentityRecord { password_hash: hash, secret });
    (true, url)
}

/// Succeeds exactly when an identity exists, `password` matches its hash, and
/// `code` is its one-time code for the step of `now` or a neighbouring step.
pub fn login(state: &AuthState, password: &str, code: &str, now: u64) -> (r: bool)
    ensures
        r == login_ok(*state, password@, code@, now),
{
    match &state.record {
        None => false,
        Some(rec) => {
            let pass_ok = argon2_verify(password, rec.password_hash.as_str());
            let code_ok = check_code(rec.secret.as_str(), code, now);
            pass_ok && code_ok
        },
    }
}

/// Replaces the stored hash with an Argon2 hash of `password` under a fresh
/// salt, which then accepts `password`; the one-time-code secret stays as it
/// is. Existing envelopes are not re-wrapped. Without an identity it is
/// `NotRegistered`.
pub fn change_master_password(state: &mut AuthState, password: &str) -> (r: Result<(), AuthError>)
    ensures
        old(state).record is None ==> r == Err::<(), AuthError>(AuthError::NotRegistered),
        old(state).record is Some ==> r is Ok,
        r is Ok ==> (final(state).record matches Some(rec) && argon2_accepts(password@, rec.password_hash@)),
        r is Err ==> final(state).record == old(state).record,
        r matches Err(e) ==> (e == AuthError::NotRegistered) == (old(state).record is None),
        r is Ok ==> old(state).record is Some && (final(state).record matches Some(rec)
            && rec.secret == old(state).record->0.secret
            && (exists|salt: Seq<char>| argon2_phc_of(password@, salt) == Some(rec.password_hash@))),
{
    match &mut state.record {
        None => Err(AuthError::NotRegistered),
        Some(rec) => {
            let salt = random_salt();
            match argon2_phc(password, salt.as_str()) {
                Some(h) => {
                    rec.password_hash = h;
                    Ok(())
                },
                None => Err(AuthError::HashFailure),
            }
        },
    }
}

} // verus!
