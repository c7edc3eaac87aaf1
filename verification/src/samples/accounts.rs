//! Users, a user service that keeps them in a list, and sessions that expire a day
//! after they were created.

use vstd::prelude::*;

verus! {

#[derive(Debug)]
pub struct User {
    pub id: u64,
    pub name: String,
    pub email: String,
}

pub struct UserModel {
    pub id: u64,
    pub name: Seq<char>,
    pub email: Seq<char>,
}

impl View for User {
    type V = UserModel;

    open spec fn view(&self) -> UserModel {
        UserModel { id: self.id, name: self.name@, email: self.email@ }
    }
}

pub open spec fn user_models(users: Seq<User>) -> Seq<UserModel> {
    Seq::new(users.len(), |i: int| users[i]@)
}

/// The first user at or after `from` whose id is `id`.
pub open spec fn first_with_id(users: Seq<UserModel>, id: u64, from: int) -> Option<UserModel>
    decreases users.len() - from,
{
    if from < 0 || from >= users.len() {
        None
    } else if users[from].id == id {
        Some(users[from])
    } else {
        first_with_id(users, id, from + 1)
    }
}

impl User {
    pub fn new(id: u64, name: String, email: String) -> (u: User)
        ensures
            u.id == id,
            u.name == name,
            u.email == email,
    {
        User { id, name, email }
    }

    /// Accepts any password that is not empty.
    pub fn authenticate(&self, password: &str) -> (r: bool)
        ensures
            r == (password@.len() > 0),
    {
        self.check_password(password)
    }

    pub fn check_password(&self, password: &str) -> (r: bool)
        ensures
            r == (password@.len() > 0),
    {
        !password.is_empty()
    }
}

#[derive(Clone, Copy, Debug, PartialEq, Eq, Structural)]
pub enum Error {
    NotFound,
    InvalidInput,
}

pub trait UserService {
    /// The users the service holds, in the order they were created.
    spec fn users(&self) -> Seq<UserModel>;

    /// The first user created with this id.
    fn get_user(&self, id: u64) -> (r: Option<User>)
        ensures
            match r {
                Some(u) => first_with_id(self.users(), id, 0) == Some(u@),
                None => first_with_id(self.users(), id, 0) is None,
            },
    ;

    /// Adds a user at the end. Always succeeds.
    fn create_user(&mut self, user: User) -> (r: Result<(), Error>)
        ensures
            r is Ok,
            final(self).users() == old(self).users().push(user@),
    ;
}

#[derive(Debug)]
pub struct UserServiceImpl {
    pub users: Vec<User>,
}

impl UserService for UserServiceImpl {
    open spec fn users(&self) -> Seq<UserModel> {
        user_models(self.users@)
    }

    fn get_user(&self, id: u64) -> (r: Option<User>) {
        let mut i: usize = 0;
        while i < self.users.len()
            invariant
                i <= self.users.len(),
                first_with_id(self.users(), id, 0) == first_with_id(self.users(), id, i as int),
            decreases self.users.len() - i,
        {
            let u = &self.users[i];
            if u.id == id {
                return Some(User { id: u.id, name: u.name.clone(), email: u.email.clone() });
            }
            i = i + 1;
        }
        None
    }

    fn create_user(&mut self, user: User) -> (r: Result<(), Error>) {
        self.users.push(user);
        proof {
            assert(user_models(self.users@) =~= user_models(old(self).users@).push(user@));
        }
        Ok(())
    }
}

/// Looks a user up where none is kept: the answer is always `NotFound`.
pub fn fetch_user(id: u64) -> (r: Result<User, Error>)
    ensures
        r is Err,
        r->Err_0 == Error::NotFound,
{
    Err(Error::NotFound)
}

#[verifier::external_type_specification]
#[verifier::external_body]
pub struct ExInstant(std::time::Instant);

/// `std::time::Instant::now`: the current reading of the monotonic clock. Nothing
/// is claimed of it.
#[verifier::external_body]
fn now() -> std::time::Instant {
    std::time::Instant::now()
}

/// `std::time::Instant::elapsed`: the time since `since`. Nothing is claimed of it.
#[verifier::external_body]
fn elapsed(since: &std::time::Instant) -> std::time::Duration {
    since.elapsed()
}

/// `std::time::Duration::as_secs`: the whole seconds of a duration. Nothing is
/// claimed of it.
#[verifier::external_body]
fn whole_seconds(d: &std::time::Duration) -> u64 {
    d.as_secs()
}

/// How long a session stays valid, in seconds: one day.
pub const SESSION_SECONDS: u64 = 86400;

/// Whether a session is still valid that many whole seconds after it was created.
pub fn valid_after(seconds: u64) -> (r: bool)
    ensures
        r == (seconds < SESSION_SECONDS),
{
    seconds < SESSION_SECONDS
}

#[derive(Debug)]
pub struct Session {
    pub user_id: u64,
    pub created_at: std::time::Instant,
}

impl Session {
    /// A session for `user_id` that begins now.
    pub fn new(user_id: u64) -> (s: Session)
        ensures
            s.user_id == user_id,
    {
        Session { user_id, created_at: now() }
    }

    /// Whether less than a day has passed since the session was created. The clock
    /// decides; `valid_after` says what is answered for each reading of it.
    pub fn is_valid(&self) -> bool {
        let passed = elapsed(&self.created_at);
        valid_after(whole_seconds(&passed))
    }
}

pub fn create_session(user: &User) -> (s: Session)
    ensures
        s.user_id == user.id,
{
    Session::new(user.id)
}

} // verus!
