use vstd::prelude::*;

verus! {

/// Whether remote caching is available for a team.
#[derive(Clone, Copy, Debug, PartialEq, Eq, Structural)]
pub enum CachingStatus {
    Disabled,
    Enabled,
    OverLimit,
    Paused,
}

/// Membership is the relationship between the logged-in user and a particular
/// team.
#[derive(Clone)]
pub struct Membership {
    role: String,
}

impl Membership {
    pub closed spec fn role_view(&self) -> Seq<char> {
        self.role@
    }

    pub fn new(role: String) -> (m: Membership)
        ensures
            m.role_view() == role@,
    {
        Membership { role }
    }
}

/// A team, with its creation time as seconds since the Unix epoch.
#[derive(Clone)]
pub struct Team {
    pub id: String,
    pub slug: String,
    pub name: String,
    pub created_at: u64,
    pub created: i64,
    pub membership: Membership,
}

impl Team {
    pub fn is_owner(&self) -> (r: bool)
        ensures
            r == (self.membership.role_view() == "OWNER"@),
    {
        let owner: String = String::from_str("OWNER");
        self.membership.role == owner
    }
}

#[derive(Clone)]
pub struct TeamsResponse {
    pub teams: Vec<Team>,
}

#[derive(Clone)]
pub struct User {
    pub id: String,
    pub username: String,
    pub email: String,
    pub name: Option<String>,
    pub created_at: u64,
}

#[derive(Clone)]
pub struct UserResponse {
    pub user: User,
}

/// Whether a failed request with the given HTTP status is worth retrying:
/// too many requests, or a server error other than "not implemented". A
/// failure that carries no status is not retried.
pub fn should_retry_request(status: Option<u16>) -> (r: bool)
    ensures
        r == (status matches Some(code) && (code == 429 || (code >= 500 && code != 501))),
{
    match status {
        Some(code) => code == 429 || (code >= 500 && code != 501),
        None => false,
    }
}

} // verus!
