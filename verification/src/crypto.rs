//! Credential hashing: salted memory-hard password hashes in the standard
//! PHC text encoding, structural validity checking, verification, and
//! one-time-code generation. The argon2 calls stand behind trusted wrappers;
//! everything around them is verified.

use argon2::password_hash::rand_core::OsRng;
use argon2::password_hash::{PasswordHash, PasswordHasher, PasswordVerifier, SaltString};
use argon2::Argon2;
use rand::Rng;
use vstd::prelude::*;

verus! {

/// Whether a string parses as a well-formed PHC-encoded salted hash.
pub uninterp spec fn phc_parses(s: Seq<char>) -> bool;

/// Whether a salt string is accepted for hashing: it decodes as b64 and its
/// decoded length lies within the lengths argon2 accepts.
pub uninterp spec fn salt_accepted(s: Seq<char>) -> bool;

/// The PHC serialization of the argon2id hash (default parameters) of a
/// password under a salt; a function of the two arguments alone.
pub uninterp spec fn argon_hash(pw: Seq<char>, salt: Seq<char>) -> Seq<char>;

/// Whether a password matches a PHC-encoded hash under the parameters the
/// encoding embeds; a function of the two arguments alone.
pub uninterp spec fn argon_verifies(pw: Seq<char>, h: Seq<char>) -> bool;

/// What password verification returns: the stored value must parse as a PHC
/// string and the password must match it.
pub open spec fn verify_spec(pw: Seq<char>, h: Seq<char>) -> bool {
    phc_parses(h) && argon_verifies(pw, h)
}

/// Passwords above this byte length are rejected by the hash primitive.
pub const PW_LEN_MAX: u64 = 0xFFFF_FFFF;

/// Whether a password's utf-8 encoding stays within the hash primitive's
/// length cap; every realistic password does.
pub open spec fn within_len_cap(pw: Seq<char>) -> bool {
    vstd::utf8::encode_utf8(pw).len() <= PW_LEN_MAX
}

/// Relies on password_hash::PasswordHash::new: Ok exactly when the argument
/// is a well-formed PHC string; never panics. Used to tell already-hashed
/// values from plaintext.
#[verifier::external_body]
pub fn is_hashed_password(pw_hash: &str) -> (r: bool)
    ensures
        r == phc_parses(pw_hash@),
{
    PasswordHash::new(pw_hash).is_ok()
}

/// Relies on password_hash::SaltString::generate: a fresh random salt of the
/// recommended length (16 bytes), b64-encoded. Every such salt decodes back
/// and its length lies within what argon2 accepts; nothing else is stated of
/// a random value.
#[verifier::external_body]
pub fn get_new_salt() -> (r: String)
    ensures
        salt_accepted(r@),
{
    let salt = SaltString::generate(&mut OsRng);
    salt.to_string()
}

/// Relies on password_hash::SaltString::from_b64 and Argon2::hash_password
/// with default parameters: hashing succeeds exactly when the salt is
/// accepted and the password is not over the primitive's length cap; the
/// result is the PHC serialization of the hash, a function of password and
/// salt alone, which parses as a PHC string and verifies against the same
/// password (the crate's hash-then-verify round trip).
#[verifier::external_body]
fn argon2_hash_phc(pw: &str, salt: &str) -> (r: Option<String>)
    ensures
        r is Some <==> (salt_accepted(salt@) && within_len_cap(pw@)),
        r matches Some(h) ==> h@ == argon_hash(pw@, salt@) && phc_parses(h@) && argon_verifies(
            pw@,
            h@,
        ) && h@.len() > 0,
{
    let saltstr = match SaltString::from_b64(salt) {
        Ok(s) => s,
        Err(_) => return None,
    };
    match Argon2::default().hash_password(pw.as_bytes(), saltstr.as_salt()) {
        Ok(hash) => Some(hash.serialize().as_str().to_string()),
        Err(_) => None,
    }
}

/// Relies on password_hash::PasswordHash::new and Argon2::verify_password:
/// the outcome is a function of password and stored hash alone; never
/// panics.
#[verifier::external_body]
fn argon2_check(pw: &str, pw_hash: &str) -> (r: bool)
    requires
        phc_parses(pw_hash@),
    ensures
        r == argon_verifies(pw@, pw_hash@),
{
    let parsed_hash = match PasswordHash::new(pw_hash) {
        Ok(h) => h,
        Err(_) => return false,
    };
    Argon2::default().verify_password(pw.as_bytes(), &parsed_hash).is_ok()
}

/// Derive the PHC-encoded hash of `pw` under `salt`; the empty string when
/// the salt is not validly encoded (or the password is over the length cap).
/// Never panics.
pub fn get_password_hash(pw: &str, salt: &str) -> (r: String)
    ensures
        salt_accepted(salt@) && within_len_cap(pw@) ==> r@ == argon_hash(pw@, salt@)
            && phc_parses(r@) && argon_verifies(pw@, r@) && r@.len() > 0,
        !(salt_accepted(salt@) && within_len_cap(pw@)) ==> r@ == Seq::<char>::empty(),
{
    match argon2_hash_phc(pw, salt) {
        Some(h) => h,
        None => String::new(),
    }
}

/// Hash under a fresh random salt; `None` exactly when the primitive
/// rejects the password for being over the length cap.
pub fn hash_password_fresh(pw: &str) -> (r: Option<String>)
    ensures
        r matches Some(h) ==> phc_parses(h@) && argon_verifies(pw@, h@) && verify_spec(pw@, h@),
        r is Some <==> within_len_cap(pw@),
{
    let salt = get_new_salt();
    argon2_hash_phc(pw, salt.as_str())
}

/// True exactly when `pw_hash` parses as a PHC string and `pw` matches it.
/// A malformed stored hash — a legacy plaintext value, for instance — gives
/// `false`; never panics.
pub fn verify_password(pw: &str, pw_hash: &str) -> (r: bool)
    ensures
        r == verify_spec(pw@, pw_hash@),
{
    if !is_hashed_password(pw_hash) {
        return false;
    }
    argon2_check(pw, pw_hash)
}

/// A stored value that does not parse as a PHC-format hash never verifies,
/// whatever the password.
pub proof fn lemma_unparsable_hash_never_verifies(pw: Seq<char>, h: Seq<char>)
    requires
        !phc_parses(h),
    ensures
        !verify_spec(pw, h),
{
}

/// Relies on rand's thread_rng and gen_range, and on decimal formatting of
/// integers: a number drawn from 100000000..999999999 prints as exactly nine
/// decimal digits; the upper end is exclusive, so the largest nine-digit
/// string never comes out. Nothing more is stated of a random value.
#[verifier::external_body]
pub fn get_otp_code() -> (r: String)
    ensures
        r@.len() == 9,
        forall|i: int| 0 <= i < 9 ==> 48 <= (#[trigger] r@[i] as u32) <= 57,
        49 <= (r@[0] as u32),
        r@ != "999999999"@,
{
    let num = rand::thread_rng().gen_range(100000000..999999999);
    num.to_string()
}

} // verus!
