//! Session data and the small computations the authentication layer rests
//! on: the clock, random session keys, and the residency rules.

use vstd::prelude::*;

use crate::records::User;
use crate::text::chars_to_string;

verus! {

/// Relies on `std::time::SystemTime`: the seconds elapsed since the Unix
/// epoch, nonnegative on a clock set at or after the epoch. A clock set
/// before the epoch stops the program here, since no nonnegative count
/// exists to return.
#[verifier::external_body]
fn system_now_seconds() -> (r: i64)
    ensures
        r >= 0,
{
    std::time::SystemTime::now()
        .duration_since(std::time::SystemTime::UNIX_EPOCH)
        .expect("time is after epoch")
        .as_secs() as i64
}

/// The current Unix time, in whole seconds.
pub fn now() -> (r: i64)
    ensures
        r >= 0,
{
    system_now_seconds()
}

/// An ASCII letter or digit.
pub open spec fn is_alphanumeric_char(c: char) -> bool {
    ||| '0' as int <= c as int <= '9' as int
    ||| 'A' as int <= c as int <= 'Z' as int
    ||| 'a' as int <= c as int <= 'z' as int
}

/// Relies on rand's `Alphanumeric` distribution: one uniformly random ASCII
/// letter or digit.
#[verifier::external_body]
fn random_alphanumeric_char() -> (c: char)
    ensures
        is_alphanumeric_char(c),
{
    char::from(rand::Rng::sample(&mut rand::thread_rng(), rand::distributions::Alphanumeric))
}

/// A random alphanumeric string of exactly `size` characters, for session
/// keys.
pub fn rand_string(size: usize) -> (r: String)
    ensures
        r@.len() == size as int,
        forall|i: int| 0 <= i < r@.len() ==> is_alphanumeric_char(#[trigger] r@[i]),
{
    let mut out: Vec<char> = Vec::new();
    while out.len() < size
        invariant
            out@.len() <= size,
            forall|i: int| 0 <= i < out@.len() ==> is_alphanumeric_char(#[trigger] out@[i]),
        decreases size - out@.len(),
    {
        out.push(random_alphanumeric_char());
    }
    chars_to_string(&out)
}

/// A logged-in user's session data, as the cookie carries it.
#[derive(Clone, Debug)]
pub struct Session {
    /// The Unix time, in seconds, at which the user logged in.
    pub time_stamp: i64,
    /// The user id as the store holds it.
    pub id: i32,
    pub username: String,
    /// A random authentication token key.
    pub auth_key: String,
}

/// A login request: a username and the password to check.
#[derive(Clone)]
pub struct Login {
    pub username: String,
    pub password: String,
}

/// A user who lives in the household: only residents may be admitted, and
/// only from a user record with the resident flag.
#[derive(Clone)]
pub struct Resident(pub User);

impl Resident {
    /// Admits a user as a resident exactly when their record carries the
    /// resident flag.
    pub fn from_user(user: User) -> (r: Result<Resident, User>)
        ensures
            match r {
                Ok(res) => user.resident && res.0 == user,
                Err(u) => !user.resident && u == user,
            },
    {
        if user.resident {
            Ok(Resident(user))
        } else {
            Err(user)
        }
    }

    /// The underlying user record.
    pub fn user(&self) -> (r: &User)
        ensures
            r == self.0,
    {
        &self.0
    }
}

/// Whether a stored session secret authenticates a session: there must be a
/// stored secret and it must equal the session's own key.
pub fn key_matches(stored: Option<String>, session: &Session) -> (r: bool)
    ensures
        r == (stored is Some && stored.unwrap()@ == session.auth_key@),
{
    match stored {
        Option::Some(k) => k == session.auth_key,
        Option::None => false,
    }
}

/// A maximal '|'-free run of `s`, from `i` (inclusive) to `j` (exclusive).
pub open spec fn segment_at(s: Seq<char>, i: int, j: int) -> bool {
    &&& 0 <= i <= j <= s.len()
    &&& (i == 0 || s[i - 1] == '|')
    &&& (j == s.len() || s[j] == '|')
    &&& forall|k: int| i <= k < j ==> s[k] != '|'
}

/// Whether `t` is one of the '|'-separated entries of `s`.
pub open spec fn group_listed(s: Seq<char>, t: Seq<char>) -> bool {
    exists|i: int, j: int| segment_at(s, i, j) && s.subrange(i, j) == t
}

/// A segment's end determines its start.
proof fn lemma_segment_start_unique(s: Seq<char>, i1: int, i2: int, j: int)
    requires
        segment_at(s, i1, j),
        segment_at(s, i2, j),
    ensures
        i1 == i2,
{
    if i1 < i2 {
        assert(s[i2 - 1] == '|');
        assert(s[i2 - 1] != '|');
    } else if i2 < i1 {
        assert(s[i1 - 1] == '|');
        assert(s[i1 - 1] != '|');
    }
}

/// Whether the characters of `s` from `from` to `to` spell `t`.
fn span_equals(s: &str, from: usize, to: usize, t: &str) -> (r: bool)
    requires
        from <= to <= s@.len(),
    ensures
        r == (s@.subrange(from as int, to as int) == t@),
{
    let m = t.unicode_len();
    if to - from != m {
        proof {
            assert(s@.subrange(from as int, to as int).len() != t@.len());
        }
        return false;
    }
    let mut k: usize = 0;
    while k < m
        invariant
            from <= to <= s@.len(),
            to - from == m == t@.len(),
            k <= m,
            forall|x: int| 0 <= x < k ==> s@[from + x] == t@[x],
        decreases m - k,
    {
        if s.get_char(from + k) != t.get_char(k) {
            proof {
                assert(s@.subrange(from as int, to as int)[k as int] == s@[from + k]);
            }
            return false;
        }
        k = k + 1;
    }
    proof {
        assert(s@.subrange(from as int, to as int) =~= t@);
    }
    true
}

/// Whether the '|'-separated group list names the target group: this is the
/// residency decision made from the identity proxy's groups header.
pub fn group_list_contains(groups: &str, target: &str) -> (r: bool)
    ensures
        r == group_listed(groups@, target@),
{
    let n = groups.unicode_len();
    let mut seg_start: usize = 0;
    let mut p: usize = 0;
    while p < n
        invariant
            n == groups@.len(),
            p <= n,
            seg_start <= p,
            seg_start == 0 || groups@[seg_start - 1] == '|',
            forall|k: int| seg_start <= k < p ==> (#[trigger] groups@[k]) != '|',
            forall|i: int, j: int|
                segment_at(groups@, i, j) && j < p ==> #[trigger] groups@.subrange(i, j) != target@,
        decreases n - p,
    {
        if groups.get_char(p) == '|' {
            proof {
                assert(segment_at(groups@, seg_start as int, p as int));
            }
            if span_equals(groups, seg_start, p, target) {
                proof {
                    assert(group_listed(groups@, target@));
                }
                return true;
            }
            proof {
                assert forall|i: int, j: int|
                    segment_at(groups@, i, j) && j < p + 1 implies #[trigger] groups@.subrange(
                    i,
                    j,
                ) != target@ by {
                    if j == p {
                        lemma_segment_start_unique(groups@, i, seg_start as int, p as int);
                    }
                }
            }
            seg_start = p + 1;
        }
        p = p + 1;
    }
    proof {
        assert(segment_at(groups@, seg_start as int, n as int));
    }
    if span_equals(groups, seg_start, n, target) {
        proof {
            assert(group_listed(groups@, target@));
        }
        return true;
    }
    proof {
        assert forall|i: int, j: int|
            segment_at(groups@, i, j) implies #[trigger] groups@.subrange(i, j) != target@ by {
            if j == n {
                lemma_segment_start_unique(groups@, i, seg_start as int, n as int);
            }
        }
        assert(!group_listed(groups@, target@));
    }
    false
}

/// The failures of a login attempt.
#[derive(Clone, Copy, Debug, PartialEq, Eq, Structural)]
pub enum AuthError {
    /// No user has the requested username.
    UserNotFound,
    /// The user exists but has no password set.
    MissingPassword,
    /// The password check rejected the supplied password.
    PasswordRejected,
}

/// The decision a login attempt comes down to, once the store has looked the
/// user up and the password has been checked: a session for the user, keyed
/// by the fresh auth key and stamped with the login time, or the exact
/// failure.
pub fn login_outcome(user: Option<User>, password_ok: bool, auth_key: String, timestamp: i64) -> (r:
    Result<Session, AuthError>)
    ensures
        match r {
            Ok(session) => {
                &&& user is Some
                &&& user.unwrap().password is Some
                &&& password_ok
                &&& session.id == user.unwrap().id
                &&& session.username == user.unwrap().username
                &&& session.auth_key == auth_key
                &&& session.time_stamp == timestamp
            },
            Err(AuthError::UserNotFound) => user is None,
            Err(AuthError::MissingPassword) => user is Some && user.unwrap().password is None,
            Err(AuthError::PasswordRejected) => {
                &&& user is Some
                &&& user.unwrap().password is Some
                &&& !password_ok
            },
        },
{
    match user {
        Option::None => Err(AuthError::UserNotFound),
        Option::Some(u) => {
            match u.password {
                Option::None => Err(AuthError::MissingPassword),
                Option::Some(_) => {
                    if password_ok {
                        Ok(
                            Session {
                                time_stamp: timestamp,
                                id: u.id,
                                username: u.username,
                                auth_key,
                            },
                        )
                    } else {
                        Err(AuthError::PasswordRejected)
                    }
                },
            }
        },
    }
}

} // verus!
