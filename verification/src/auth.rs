//! The credential subsystem: passwords are stored only as salted one-way
//! hashes, derived on registration and checked on login.

use vstd::prelude::*;

use crate::store::{
    find_by_username, tbl_put, user_key, Database, User, UserV,
};

verus! {

/// The error type of the outside hashing library, opaque to the store.
#[verifier::external_type_specification]
#[verifier::external_body]
pub struct ExBcryptError(bcrypt::BcryptError);

/// Whether a password matches a stored hash: the (deterministic) outcome of
/// recomputing the hash with the salt and cost carried inside `hashed` and
/// comparing. Pinned down only through the trusted items below.
pub uninterp spec fn bcrypt_matches(password: Seq<char>, hashed: Seq<char>) -> bool;

/// Whether a stored hash string is one that verification can process at
/// all: sixty ASCII bytes in the bcrypt format, with a cost in range. A
/// property of the hash string alone; pinned down only through the trusted
/// items below.
pub uninterp spec fn bcrypt_hash_wf(hashed: Seq<char>) -> bool;

/// The 72-byte key stream a password is actually hashed under: the UTF-8
/// encoding is truncated to 72 bytes (a terminating NUL is appended when it
/// is shorter), and that prepared key enters the cipher's key schedule only
/// through its cyclic extension to 72 bytes. Two passwords whose streams
/// agree are indistinguishable to the algorithm.
pub open spec fn bcrypt_key_stream(b: Seq<u8>) -> Seq<u8> {
    let padded = if b.len() >= 72 {
        b.take(72)
    } else {
        b.push(0)
    };
    Seq::new(72, |i: int| padded[i % (padded.len() as int)])
}

/// What a successful registration stores: a hash that verification can
/// process, that the registered password matches, and that only passwords
/// hashed under the registered one's key stream match — the one-way pair's
/// documented guarantee, true-only-on-match, at the granularity the
/// implementation keys on.
pub open spec fn sound_hash_for(password: Seq<char>, h: Seq<char>) -> bool {
    &&& bcrypt_hash_wf(h)
    &&& bcrypt_matches(password, h)
    &&& forall|p: Seq<char>| #[trigger]
        bcrypt_matches(p, h) ==> bcrypt_key_stream(vstd::utf8::encode_utf8(p))
            == bcrypt_key_stream(vstd::utf8::encode_utf8(password))
}

/// Relies on bcrypt::hash: derives a salted one-way hash of `password` at
/// the library's default cost. The salt is drawn fresh from the OS, so the
/// hash string itself is promised nothing beyond the pair's documented
/// contract: it is well formed, bcrypt::verify accepts the original
/// password against it, and accepts a password only when it is hashed
/// under the same 72-byte cyclic key stream.
#[verifier::external_body]
fn hash_password(password: &str) -> (r: Result<String, bcrypt::BcryptError>)
    ensures
        r matches Ok(h) ==> sound_hash_for(password@, h@),
{
    bcrypt::hash(password, bcrypt::DEFAULT_COST)
}

/// Relies on bcrypt::verify: recomputes the hash of `password` from the
/// salt and cost inside `hashed` and compares; the `Ok` outcome is a
/// function of the two arguments alone. It returns `Ok` exactly when the
/// hash string parses and carries a cost in range — a predicate of the hash
/// alone — and `Err` otherwise.
#[verifier::external_body]
fn verify_password(password: &str, hashed: &str) -> (r: Result<bool, bcrypt::BcryptError>)
    ensures
        r matches Ok(b) ==> b == bcrypt_matches(password@, hashed@),
        r is Ok <==> bcrypt_hash_wf(hashed@),
{
    bcrypt::verify(password, hashed)
}

/// A registration failure: hashing did not produce a hash. Fatal for the
/// request, never for the process.
#[derive(Clone, Copy, Debug, PartialEq, Eq, Structural)]
pub enum CredentialError {
    HashingFailed,
}

/// The outcome of a login attempt. The two rejection categories — unknown
/// user and wrong password — stay distinguishable, as does a verification
/// fault on a malformed stored hash.
#[derive(Clone, Copy, Debug, PartialEq, Eq, Structural)]
pub enum LoginOutcome {
    Success,
    UnknownUser,
    WrongPassword,
    CredentialFault,
}

/// The outcome the login state machine owes for a given store, username and
/// password: unknown user when nobody carries the username; otherwise a
/// credential fault when the stored hash cannot be processed, acceptance
/// when the password matches it, and a wrong-password rejection when it
/// does not.
pub open spec fn login_outcome_of(
    users: Seq<UserV>,
    username: Seq<char>,
    password: Seq<char>,
) -> LoginOutcome {
    match find_by_username(users, username) {
        Some(u) => if !bcrypt_hash_wf(u.password) {
            LoginOutcome::CredentialFault
        } else if bcrypt_matches(password, u.password) {
            LoginOutcome::Success
        } else {
            LoginOutcome::WrongPassword
        },
        None => LoginOutcome::UnknownUser,
    }
}

/// Maps a verification outcome to the login outcome: a clean match accepts,
/// a clean mismatch is a wrong password, a verification fault is its own
/// rejection, never a crash.
pub fn login_verdict(v: Result<bool, bcrypt::BcryptError>) -> (r: LoginOutcome)
    ensures
        r == (match v {
            Ok(true) => LoginOutcome::Success,
            Ok(false) => LoginOutcome::WrongPassword,
            Err(_) => LoginOutcome::CredentialFault,
        }),
{
    match v {
        Ok(true) => LoginOutcome::Success,
        Ok(false) => LoginOutcome::WrongPassword,
        Err(_) => LoginOutcome::CredentialFault,
    }
}

impl Database {
    /// Registers a user: hashes the plaintext password and stores the user
    /// record with the hash in the password field, overwriting any prior
    /// user with the same id.
    pub fn register(&mut self, id: u64, username: String, password: &str) -> (r: Result<
        (),
        CredentialError,
    >)
        ensures
            r is Ok ==> exists|h: Seq<char>|
                #[trigger] sound_hash_for(password@, h) && final(self)@.users == tbl_put(
                    old(self)@.users,
                    user_key(),
                    UserV { id, username: username@, password: h },
                ),
            r is Ok ==> final(self)@.tasks == old(self)@.tasks,
            r is Err ==> final(self)@ == old(self)@,
    {
        match hash_password(password) {
            Ok(hashed) => {
                let ghost h = hashed@;
                let user = User { id, username, password: hashed };
                self.insert_user(user);
                proof {
                    assert(sound_hash_for(password@, h) && self@.users == tbl_put(
                        old(self)@.users,
                        user_key(),
                        UserV { id, username: user@.username, password: h },
                    ));
                }
                Ok(())
            },
            Err(_) => Err(CredentialError::HashingFailed),
        }
    }

    /// A stateless login check: looks the username up and verifies the
    /// password against the stored hash. Unknown user and wrong password are
    /// rejected distinguishably; a malformed stored hash is rejected as a
    /// credential fault, never a crash.
    pub fn login(&self, username: &String, password: &str) -> (r: LoginOutcome)
        ensures
            r == login_outcome_of(self@.users, username@, password@),
    {
        match self.get_user_by_name(username) {
            Some(stored) => login_verdict(verify_password(password, stored.password.as_str())),
            None => LoginOutcome::UnknownUser,
        }
    }
}

} // verus!
