use vstd::prelude::*;
use vstd::string::StringExecFns;
use vstd::utf8::encode_utf8;

verus! {

/// The byte that separates the identity provider from the subject in a user id.
pub const ID_SEPARATOR: u8 = 126;

/// Kind of principal a user record describes.
#[derive(Clone, Copy, Debug, PartialEq, Eq, Structural)]
pub enum UserType {
    Application,
    Human,
}

/// Entry point that last wrote a user record.
#[derive(Clone, Copy, Debug, PartialEq, Eq, Structural)]
pub enum UserLastUpdatedWith {
    CreateEndpoint,
    ConfigCallCreation,
    UpdateEndpoint,
}

/// Storage encoding of `UserType`.
#[derive(Clone, Copy, Debug, PartialEq, Eq, Structural)]
pub enum DbUserType {
    Application,
    Human,
}

/// Storage encoding of `UserLastUpdatedWith`.
#[derive(Clone, Copy, Debug, PartialEq, Eq, Structural)]
pub enum DbUserLastUpdatedWith {
    CreateEndpoint,
    ConfigCallCreation,
    UpdateEndpoint,
}

pub open spec fn user_type_of_db(t: DbUserType) -> UserType {
    match t {
        DbUserType::Application => UserType::Application,
        DbUserType::Human => UserType::Human,
    }
}

pub open spec fn db_of_user_type(t: UserType) -> DbUserType {
    match t {
        UserType::Application => DbUserType::Application,
        UserType::Human => DbUserType::Human,
    }
}

pub open spec fn last_updated_with_of_db(t: DbUserLastUpdatedWith) -> UserLastUpdatedWith {
    match t {
        DbUserLastUpdatedWith::CreateEndpoint => UserLastUpdatedWith::CreateEndpoint,
        DbUserLastUpdatedWith::ConfigCallCreation => UserLastUpdatedWith::ConfigCallCreation,
        DbUserLastUpdatedWith::UpdateEndpoint => UserLastUpdatedWith::UpdateEndpoint,
    }
}

pub open spec fn db_of_last_updated_with(t: UserLastUpdatedWith) -> DbUserLastUpdatedWith {
    match t {
        UserLastUpdatedWith::CreateEndpoint => DbUserLastUpdatedWith::CreateEndpoint,
        UserLastUpdatedWith::ConfigCallCreation => DbUserLastUpdatedWith::ConfigCallCreation,
        UserLastUpdatedWith::UpdateEndpoint => DbUserLastUpdatedWith::UpdateEndpoint,
    }
}

impl From<DbUserType> for UserType {
    fn from(db_user_type: DbUserType) -> (r: UserType)
        ensures
            r == user_type_of_db(db_user_type),
    {
        match db_user_type {
            DbUserType::Application => UserType::Application,
            DbUserType::Human => UserType::Human,
        }
    }
}

impl vstd::std_specs::convert::FromSpecImpl<DbUserType> for UserType {
    open spec fn obeys_from_spec() -> bool {
        true
    }

    open spec fn from_spec(v: DbUserType) -> UserType {
        user_type_of_db(v)
    }
}

impl From<UserType> for DbUserType {
    fn from(user_type: UserType) -> (r: DbUserType)
        ensures
            r == db_of_user_type(user_type),
    {
        match user_type {
            UserType::Application => DbUserType::Application,
            UserType::Human => DbUserType::Human,
        }
    }
}

impl vstd::std_specs::convert::FromSpecImpl<UserType> for DbUserType {
    open spec fn obeys_from_spec() -> bool {
        true
    }

    open spec fn from_spec(v: UserType) -> DbUserType {
        db_of_user_type(v)
    }
}

impl From<DbUserLastUpdatedWith> for UserLastUpdatedWith {
    fn from(t: DbUserLastUpdatedWith) -> (r: UserLastUpdatedWith)
        ensures
            r == last_updated_with_of_db(t),
    {
        match t {
            DbUserLastUpdatedWith::CreateEndpoint => UserLastUpdatedWith::CreateEndpoint,
            DbUserLastUpdatedWith::ConfigCallCreation => UserLastUpdatedWith::ConfigCallCreation,
            DbUserLastUpdatedWith::UpdateEndpoint => UserLastUpdatedWith::UpdateEndpoint,
        }
    }
}

impl vstd::std_specs::convert::FromSpecImpl<DbUserLastUpdatedWith> for UserLastUpdatedWith {
    open spec fn obeys_from_spec() -> bool {
        true
    }

    open spec fn from_spec(v: DbUserLastUpdatedWith) -> UserLastUpdatedWith {
        last_updated_with_of_db(v)
    }
}

impl From<UserLastUpdatedWith> for DbUserLastUpdatedWith {
    fn from(t: UserLastUpdatedWith) -> (r: DbUserLastUpdatedWith)
        ensures
            r == db_of_last_updated_with(t),
    {
        match t {
            UserLastUpdatedWith::CreateEndpoint => DbUserLastUpdatedWith::CreateEndpoint,
            UserLastUpdatedWith::ConfigCallCreation => DbUserLastUpdatedWith::ConfigCallCreation,
            UserLastUpdatedWith::UpdateEndpoint => DbUserLastUpdatedWith::UpdateEndpoint,
        }
    }
}

impl vstd::std_specs::convert::FromSpecImpl<UserLastUpdatedWith> for DbUserLastUpdatedWith {
    open spec fn obeys_from_spec() -> bool {
        true
    }

    open spec fn from_spec(v: UserLastUpdatedWith) -> DbUserLastUpdatedWith {
        db_of_last_updated_with(v)
    }
}

/// Errors of the repository operations.
#[derive(Debug)]
pub enum UserStoreError {
    /// A pagination token is malformed or carries an unsupported version.
    InvalidToken,
    /// A stored id does not parse into a `UserId`.
    Mapping,
    /// The backing store failed; the message says which operation.
    Store { message: String },
}

/// The characters of an optional string.
pub open spec fn opt_view(o: Option<String>) -> Option<Seq<char>> {
    match o {
        Some(s) => Some(s@),
        None => None,
    }
}

/// The UTF-8 form of a string.
pub open spec fn bytes_of(s: Seq<char>) -> Seq<u8> {
    encode_utf8(s)
}

/// Index of the first separator byte at or after `from`, or `b.len()` when there is none.
pub open spec fn first_separator_from(b: Seq<u8>, from: int) -> int
    decreases b.len() - from,
{
    if from >= b.len() || from < 0 {
        b.len() as int
    } else if b[from] == ID_SEPARATOR {
        from
    } else {
        first_separator_from(b, from + 1)
    }
}

/// A stored id is `<idp>~<subject>`: the identity provider part is non-empty and
/// holds no separator, and the subject part is non-empty.
pub open spec fn valid_user_id(b: Seq<u8>) -> bool {
    let p = first_separator_from(b, 0);
    0 < p && p < b.len() - 1
}

/// Composite user identifier: identity provider and subject.
#[derive(Debug)]
pub struct UserId {
    value: String,
}

impl UserId {
    pub closed spec fn view_string(&self) -> Seq<char> {
        self.value@
    }

    pub open spec fn wf(&self) -> bool {
        valid_user_id(bytes_of(self.view_string()))
    }

    /// Builds `<idp>~<subject>` without checking its parts.
    pub fn new_unchecked(idp: &str, subject: &str) -> (r: UserId)
        ensures
            r.view_string() == idp@ + seq!['~'] + subject@,
    {
        UserId { value: join_with_separator(idp, subject) }
    }

    /// Parses a stored id; fails with `Mapping` where it is not `<idp>~<subject>`.
    pub fn parse(value: String) -> (r: Result<UserId, UserStoreError>)
        ensures
            valid_user_id(bytes_of(value@)) ==> (r matches Ok(id) && id.view_string() == value@),
            !valid_user_id(bytes_of(value@)) ==> (r matches Err(UserStoreError::Mapping)),
    {
        let b = value.as_str().as_bytes();
        let mut i: usize = 0;
        while i < b.len() && b[i] != ID_SEPARATOR
            invariant
                b@ == bytes_of(value@),
                0 <= i <= b@.len(),
                first_separator_from(b@, 0) == first_separator_from(b@, i as int),
            decreases b.len() - i,
        {
            i = i + 1;
        }
        if 0 < i && i < b.len() && b.len() - i > 1 {
            Ok(UserId { value })
        } else {
            Err(UserStoreError::Mapping)
        }
    }

    pub fn as_string(&self) -> (r: &String)
        ensures
            r@ == self.view_string(),
    {
        &self.value
    }
}

impl Clone for UserId {
    fn clone(&self) -> (r: UserId)
        ensures
            r.view_string() == self.view_string(),
    {
        UserId { value: self.value.clone() }
    }
}

impl PartialEq for UserId {
    fn eq(&self, other: &UserId) -> (r: bool) {
        self.value == other.value
    }
}

impl vstd::std_specs::cmp::PartialEqSpecImpl for UserId {
    open spec fn obeys_eq_spec() -> bool {
        true
    }

    open spec fn eq_spec(&self, other: &UserId) -> bool {
        self.view_string() == other.view_string()
    }
}

/// Joins the parts with the separator character.
fn join_with_separator(idp: &str, subject: &str) -> (r: String)
    ensures
        r@ == idp@ + seq!['~'] + subject@,
{
    let mut s = idp.to_owned();
    s.append("~");
    proof {
        reveal_strlit("~");
    }
    s.append(subject);
    s
}

} // verus!
