//! Authenticator: a registry of users, each holding a hex-encoded salt, an
//! iteration count, and a hex-encoded reference hash. Verification recomputes
//! the salted, iterated hash of the supplied password and compares it with
//! the reference. Like a map loaded from the configuration, a username that
//! occurs twice in the registry resolves to its last occurrence.
use vstd::prelude::*;
use vstd::string::StringSliceAdditionalSpecFns;

verus! {

/// One hex digit (of either case).
pub open spec fn is_hex_digit(c: char) -> bool {
    (48 <= c as u32 && c as u32 <= 57) || (97 <= c as u32 && c as u32 <= 102) || (65 <= c as u32
        && c as u32 <= 70)
}

/// The numeric value of a hex digit.
pub open spec fn hex_digit_val(c: char) -> int {
    if 48 <= c as u32 && c as u32 <= 57 {
        c as u32 - 48
    } else if 97 <= c as u32 && c as u32 <= 102 {
        c as u32 - 87
    } else {
        c as u32 - 55
    }
}

/// A decodable hex string: even length, hex digits throughout.
pub open spec fn valid_hex(s: Seq<char>) -> bool {
    &&& s.len() % 2 == 0
    &&& forall|i: int| 0 <= i < s.len() ==> is_hex_digit(s[i])
}

/// The bytes a hex string decodes to, one per digit pair.
pub open spec fn bytes_of_hex(s: Seq<char>) -> Seq<u8>
    decreases s.len(),
{
    if s.len() < 2 {
        Seq::empty()
    } else {
        seq![((hex_digit_val(s[0]) * 16 + hex_digit_val(s[1])) % 256) as u8] + bytes_of_hex(
            s.skip(2),
        )
    }
}

/// The lower-case hex digit for a value below sixteen.
pub open spec fn hex_char_of(v: u8) -> char {
    if v < 10 {
        ((48 + v) as u8) as char
    } else {
        ((87 + v) as u8) as char
    }
}

/// The lower-case hex encoding of a byte string: two digits per byte, high
/// digit first.
pub open spec fn hex_of_bytes(b: Seq<u8>) -> Seq<char>
    decreases b.len(),
{
    if b.len() == 0 {
        Seq::empty()
    } else {
        seq![hex_char_of(b[0] / 16), hex_char_of(b[0] % 16)] + hex_of_bytes(b.drop_first())
    }
}

/// Relies on hex::decode: it succeeds exactly on even-length strings of hex
/// digits, decoding each digit pair to one byte, high digit first.
#[verifier::external_body]
fn hex_decode(s: &String) -> (r: Option<Vec<u8>>)
    ensures
        match r {
            Some(b) => valid_hex(s@) && b@ == bytes_of_hex(s@),
            None => !valid_hex(s@),
        },
{
    hex::decode(s.as_str()).ok()
}

/// Relies on hex::encode: two lower-case hex digits for each byte, in order.
#[verifier::external_body]
fn hex_encode(b: &Vec<u8>) -> (r: String)
    ensures
        r@ == hex_of_bytes(b@),
{
    hex::encode(b.as_slice())
}

/// What the salted, iterated PBKDF2-HMAC-SHA256 key derivation returns: a
/// function of the password, salt, and iteration count alone.
pub uninterp spec fn pbkdf2_sha256_of(pw: Seq<u8>, salt: Seq<u8>, iters: int) -> Seq<u8>;

/// Relies on openssl::pkcs5::pbkdf2_hmac with SHA-256: it fills the 32-byte
/// key buffer with a digest that depends on the password, the salt, and the
/// iteration count alone; absent only if OpenSSL reports an internal error.
/// The binding narrows the iteration count and the password and salt lengths
/// to a C int and panics above its range, so all three are kept within it.
#[verifier::external_body]
fn pbkdf2_sha256(password: &[u8], salt: &Vec<u8>, iters: u32) -> (r: Option<Vec<u8>>)
    requires
        iters <= 0x7fff_ffff,
        password@.len() <= 0x7fff_ffff,
        salt@.len() <= 0x7fff_ffff,
    ensures
        r matches Some(h) ==> h@ == pbkdf2_sha256_of(password@, salt@, iters as int) && h@.len()
            == 32,
{
    let mut hash = [0u8; 32];
    match openssl::pkcs5::pbkdf2_hmac(
        password,
        salt.as_slice(),
        iters as usize,
        openssl::hash::MessageDigest::sha256(),
        &mut hash,
    ) {
        Ok(()) => Some(hash.to_vec()),
        Err(_) => None,
    }
}

/// One user of the registry.
pub struct User {
    pub username: String,
    pub salt_hex: String,
    pub hash_hex: String,
    pub iters: u32,
}

impl User {
    /// The iteration count and the salt length fit the C int the key
    /// derivation takes.
    pub open spec fn wf(&self) -> bool {
        self.iters <= 0x7fff_ffff && self.salt_hex@.len() <= 0x7fff_ffff
    }
}

/// A hex string decodes to at most as many bytes as it has digits (one byte
/// per digit pair).
pub proof fn lemma_bytes_of_hex_len(s: Seq<char>)
    ensures
        bytes_of_hex(s).len() <= s.len(),
    decreases s.len(),
{
    if s.len() >= 2 {
        lemma_bytes_of_hex_len(s.skip(2));
    }
}

/// The user a username resolves to: its last occurrence in the registry.
pub open spec fn latest_user(s: Seq<User>, name: Seq<char>) -> Option<User>
    decreases s.len(),
{
    if s.len() == 0 {
        None
    } else if s.last().username@ == name {
        Some(s.last())
    } else {
        latest_user(s.drop_last(), name)
    }
}

/// A user's reference hash matches a password hashed with the user's salt
/// and iteration count.
pub open spec fn good_password(u: User, pw: Seq<u8>) -> bool {
    &&& valid_hex(u.salt_hex@)
    &&& hex_of_bytes(pbkdf2_sha256_of(pw, bytes_of_hex(u.salt_hex@), u.iters as int))
        == u.hash_hex@
}

/// Whether a password verifies against a registry: the username resolves to
/// a user whose reference hash matches the recomputed salted iterated hash.
pub open spec fn spec_verify(users: Seq<User>, name: Seq<char>, pw: Seq<u8>) -> bool {
    match latest_user(users, name) {
        None => false,
        Some(u) => good_password(u, pw),
    }
}

/// The authenticator's registry of users.
pub struct AuthDB {
    pub users: Vec<User>,
}

impl AuthDB {
    /// Every user's iteration count fits the key derivation's C int.
    pub open spec fn wf(&self) -> bool {
        forall|k: int| 0 <= k < self.users@.len() ==> (#[trigger] self.users@[k]).wf()
    }
}

/// Whether a derived key matches a user's reference hash: the key's
/// lower-case hex encoding must equal the stored hash string.
pub fn password_matches(u: &User, derived: &Vec<u8>) -> (r: bool)
    ensures
        r == (hex_of_bytes(derived@) == u.hash_hex@),
{
    let encoded = hex_encode(derived);
    encoded == u.hash_hex
}

impl AuthDB {
    /// A registry over the given users.
    pub fn new(users: Vec<User>) -> (r: AuthDB)
        ensures
            r.users == users,
    {
        AuthDB { users }
    }

    /// The position of the user a username resolves to.
    fn find_user(&self, name: &String) -> (r: Option<usize>)
        ensures
            match r {
                Some(i) => 0 <= i < self.users@.len() && latest_user(self.users@, name@) == Some(
                    self.users@[i as int],
                ),
                None => latest_user(self.users@, name@) is None,
            },
    {
        let mut j = self.users.len();
        proof {
            assert(self.users@.take(j as int) =~= self.users@);
        }
        while j > 0
            invariant
                j <= self.users@.len(),
                latest_user(self.users@, name@) == latest_user(
                    self.users@.take(j as int),
                    name@,
                ),
            decreases j,
        {
            j = j - 1;
            if self.users[j].username == *name {
                proof {
                    assert(self.users@.take(j + 1).last() == self.users@[j as int]);
                }
                return Some(j);
            }
            proof {
                assert(self.users@.take(j + 1).drop_last() =~= self.users@.take(j as int));
            }
        }
        None
    }

    /// Verify a password: look the username up, decode the user's salt,
    /// derive the salted iterated hash of the supplied password, and compare
    /// its hex form with the stored reference hash. An unknown username or an
    /// undecodable salt verifies nothing; the answer is absent only when the
    /// key derivation itself reported failure.
    pub fn verify(&self, username: &str, password: &str) -> (r: Option<bool>)
        requires
            self.wf(),
            password.spec_bytes().len() <= 0x7fff_ffff,
        ensures
            r matches Some(m) ==> m == spec_verify(
                self.users@,
                username@,
                password.spec_bytes(),
            ),
            r is None ==> (latest_user(self.users@, username@) matches Some(u) && valid_hex(
                u.salt_hex@,
            )),
    {
        let uname: String = username.to_owned();
        let i = match self.find_user(&uname) {
            Some(i) => i,
            None => {
                return Some(false);
            },
        };
        let salt = match hex_decode(&self.users[i].salt_hex) {
            Some(s) => s,
            None => {
                return Some(false);
            },
        };
        proof {
            lemma_bytes_of_hex_len(self.users@[i as int].salt_hex@);
        }
        let derived = match pbkdf2_sha256(password.as_bytes(), &salt, self.users[i].iters) {
            Some(d) => d,
            None => {
                return None;
            },
        };
        Some(password_matches(&self.users[i], &derived))
    }
}

} // verus!
