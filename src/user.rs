use vstd::prelude::*;
use crate::types::{
    bytes_of, last_updated_with_of_db, opt_view, user_type_of_db, valid_user_id, DbUserLastUpdatedWith,
    DbUserType, UserId, UserLastUpdatedWith, UserStoreError, UserType,
};

verus! {

/// A user record as the store holds it.
pub struct UserRow {
    pub id: String,
    pub name: String,
    pub email: Option<String>,
    pub last_updated_with: DbUserLastUpdatedWith,
    pub user_type: DbUserType,
    /// Microseconds since the Unix epoch.
    pub created_at: i64,
    pub updated_at: Option<i64>,
}

/// A directory entry.
pub struct User {
    pub id: UserId,
    pub name: String,
    pub email: Option<String>,
    pub user_type: UserType,
    pub last_updated_with: UserLastUpdatedWith,
    /// Microseconds since the Unix epoch.
    pub created_at: i64,
    pub updated_at: Option<i64>,
}

/// A search hit.
pub struct SearchUser {
    pub id: UserId,
    pub name: String,
    pub email: Option<String>,
    pub user_type: UserType,
}

/// `u` is the domain form of the stored row `row`.
pub open spec fn user_of_row(u: User, row: UserRow) -> bool {
    &&& u.id.view_string() == row.id@
    &&& u.name@ == row.name@
    &&& opt_view(u.email) == opt_view(row.email)
    &&& u.user_type == user_type_of_db(row.user_type)
    &&& u.last_updated_with == last_updated_with_of_db(row.last_updated_with)
    &&& u.created_at == row.created_at
    &&& u.updated_at == row.updated_at
}

/// `u` is the search hit form of the stored row `row`.
pub open spec fn search_user_of_row(u: SearchUser, row: UserRow) -> bool {
    &&& u.id.view_string() == row.id@
    &&& u.name@ == row.name@
    &&& opt_view(u.email) == opt_view(row.email)
    &&& u.user_type == user_type_of_db(row.user_type)
}

impl User {
    /// Maps a stored row to a user; fails with `Mapping` where the stored id does not parse.
    pub fn from_row(row: UserRow) -> (r: Result<User, UserStoreError>)
        ensures
            valid_user_id(bytes_of(row.id@)) <==> r is Ok,
            r matches Ok(u) ==> user_of_row(u, row),
            r matches Err(e) ==> e is Mapping,
    {
        let UserRow { id, name, email, last_updated_with, user_type, created_at, updated_at } =
            row;
        match UserId::parse(id) {
            Ok(id) => Ok(User {
                id,
                name,
                email,
                user_type: UserType::from(user_type),
                last_updated_with: UserLastUpdatedWith::from(last_updated_with),
                created_at,
                updated_at,
            }),
            Err(e) => Err(e),
        }
    }
}

impl SearchUser {
    /// Maps a stored row to a search hit; fails with `Mapping` where the stored id does not parse.
    pub fn from_row(row: UserRow) -> (r: Result<SearchUser, UserStoreError>)
        ensures
            valid_user_id(bytes_of(row.id@)) <==> r is Ok,
            r matches Ok(u) ==> search_user_of_row(u, row),
            r matches Err(e) ==> e is Mapping,
    {
        let UserRow { id, name, email, user_type, .. } = row;
        match UserId::parse(id) {
            Ok(id) => Ok(SearchUser { id, name, email, user_type: UserType::from(user_type) }),
            Err(e) => Err(e),
        }
    }
}

} // verus!
