use vstd::prelude::*;
use crate::types::{
    bytes_of, db_of_last_updated_with, db_of_user_type, opt_view, DbUserLastUpdatedWith,
    DbUserType, UserId, UserLastUpdatedWith, UserStoreError, UserType, valid_user_id,
};
use crate::order::{cursor_key, is_page, keys_of, select_page, Key, SortKey};
use crate::text::{contains_str, lower_of, lowercase, name_accepted, name_matches, seq_contains};
use crate::token::{decode_token, encode_token, lemma_token_bytes_injective, token_bytes};
use crate::user::{search_user_of_row, user_of_row, SearchUser, User, UserRow};
use vstd::utf8::encode_utf8_decode_utf8;

verus! {

/// Name written over a soft-deleted record.
pub const DELETED_USER_NAME: &'static str = "Deleted User";

/// A stored record: the row and its soft-delete marker.
pub struct StoredUser {
    pub row: UserRow,
    /// Set when the record is soft-deleted.
    pub deleted_at: Option<i64>,
}

/// Outcome of an upsert.
pub enum CreateOrUpdateUserResponse {
    /// No record with the id existed before the call.
    Created(User),
    /// A record with the id existed, active or soft-deleted.
    Updated(User),
}

/// The users table held in memory: at most one record per id, in insertion order. It is
/// the reference model of the statements that a relational store runs for the same
/// operations: upsert keyed by id, soft delete, keyset-paged listing and search.
pub struct UserTable {
    rows: Vec<StoredUser>,
}

/// Records of `rows` hold pairwise different ids.
pub open spec fn ids_unique(rows: Seq<StoredUser>) -> bool {
    forall|i: int, j: int|
        0 <= i < rows.len() && 0 <= j < rows.len() && i != j ==> rows[i].row.id@ != rows[j].row.id@
}

/// Some record of `rows` has the id `id`.
pub open spec fn has_id(rows: Seq<StoredUser>, id: Seq<char>) -> bool {
    exists|k: int| 0 <= k < rows.len() && rows[k].row.id@ == id
}

/// The record an upsert writes over an existing one: new content, `updated_at` set,
/// the soft-delete marker cleared; id and `created_at` kept.
pub open spec fn upserted(
    old: StoredUser,
    new: StoredUser,
    name: Seq<char>,
    email: Option<Seq<char>>,
    last_updated_with: UserLastUpdatedWith,
    user_type: UserType,
    now: i64,
) -> bool {
    &&& new.row.id@ == old.row.id@
    &&& new.row.name@ == name
    &&& opt_view(new.row.email) == email
    &&& new.row.last_updated_with == db_of_last_updated_with(last_updated_with)
    &&& new.row.user_type == db_of_user_type(user_type)
    &&& new.row.created_at == old.row.created_at
    &&& new.row.updated_at == Some(now)
    &&& new.deleted_at is None
}

/// The record an upsert inserts for an id not seen before.
pub open spec fn inserted(
    new: StoredUser,
    id: Seq<char>,
    name: Seq<char>,
    email: Option<Seq<char>>,
    last_updated_with: UserLastUpdatedWith,
    user_type: UserType,
    now: i64,
) -> bool {
    &&& new.row.id@ == id
    &&& new.row.name@ == name
    &&& opt_view(new.row.email) == email
    &&& new.row.last_updated_with == db_of_last_updated_with(last_updated_with)
    &&& new.row.user_type == db_of_user_type(user_type)
    &&& new.row.created_at == now
    &&& new.row.updated_at is None
    &&& new.deleted_at is None
}

/// The record a delete leaves: name scrubbed, email cleared, marker set; the rest kept.
pub open spec fn scrubbed(old: StoredUser, new: StoredUser, now: i64) -> bool {
    &&& new.row.id@ == old.row.id@
    &&& new.row.name@ == DELETED_USER_NAME@
    &&& new.row.email is None
    &&& new.row.last_updated_with == old.row.last_updated_with
    &&& new.row.user_type == old.row.user_type
    &&& new.row.created_at == old.row.created_at
    &&& new.row.updated_at == old.row.updated_at
    &&& new.deleted_at == Some(now)
}

/// `new` has the length of `old` and the same records but, perhaps, the one at `k`.
pub open spec fn same_except(old: Seq<StoredUser>, new: Seq<StoredUser>, k: int) -> bool {
    &&& new.len() == old.len()
    &&& forall|i: int| 0 <= i < old.len() && i != k ==> new[i] == old[i]
}

/// Most hits a search returns.
pub const SEARCH_LIMIT: usize = 10;

/// Page size policy: the size used when a request names none, and the largest allowed.
pub struct PageConfig {
    pub default_size: u32,
    pub max_size: u32,
}

impl PageConfig {
    pub open spec fn wf(&self) -> bool {
        1 <= self.default_size <= self.max_size
    }
}

/// A page request: the token of the previous page, if any, and the wanted size.
pub struct PaginationQuery {
    pub page_token: Option<String>,
    pub page_size: Option<i64>,
}

/// One page of users and the token of the next page.
pub struct ListUsersResponse {
    pub users: Vec<User>,
    pub next_page_token: Option<String>,
}

/// The best matches of a search, closest first.
pub struct SearchUserResponse {
    pub users: Vec<SearchUser>,
}

/// The size a page gets: the default where none is asked, else the request clamped
/// to `1..=max_size`.
pub open spec fn effective_page_size(config: PageConfig, requested: Option<i64>) -> int {
    match requested {
        None => config.default_size as int,
        Some(n) => if n < 1 {
            1
        } else if n > config.max_size {
            config.max_size as int
        } else {
            n as int
        },
    }
}

/// Resolves the page size of a request.
pub fn page_size_or_max(config: &PageConfig, requested: Option<i64>) -> (r: u32)
    requires
        config.wf(),
    ensures
        r == effective_page_size(*config, requested),
        1 <= r,
{
    match requested {
        None => config.default_size,
        Some(n) => if n < 1 {
            1
        } else if n > config.max_size as i64 {
            config.max_size
        } else {
            n as u32
        },
    }
}

/// The page order of records: creation time, then id.
pub open spec fn row_key(u: StoredUser) -> Key {
    (u.row.created_at as int, bytes_of(u.row.id@))
}

pub open spec fn table_keys(rows: Seq<StoredUser>) -> Seq<Key> {
    rows.map_values(|u: StoredUser| row_key(u))
}

pub open spec fn ids_view(ids: Option<Vec<UserId>>) -> Option<Seq<UserId>> {
    match ids {
        Some(v) => Some(v@),
        None => None,
    }
}

/// A record that `list` shows under the given filters: not soft-deleted, its name
/// accepted by the name filter and its id among the given ids.
pub open spec fn listed(u: StoredUser, ids: Option<Seq<UserId>>, name: Option<Seq<char>>) -> bool {
    &&& u.deleted_at is None
    &&& match name {
        None => true,
        Some(f) => name_accepted(u.row.name@, f),
    }
    &&& match ids {
        None => true,
        Some(v) => id_in(v, u.row.id@),
    }
}

/// Some id of `ids` is `id`.
pub open spec fn id_in(ids: Seq<UserId>, id: Seq<char>) -> bool {
    exists|k: int| 0 <= k < ids.len() && #[trigger] ids[k].view_string() == id
}

pub open spec fn table_listed(
    rows: Seq<StoredUser>,
    ids: Option<Seq<UserId>>,
    name: Option<Seq<char>>,
) -> Seq<bool> {
    rows.map_values(|u: StoredUser| listed(u, ids, name))
}

/// The string is a token that `encode_token` produces.
pub open spec fn token_valid(t: Seq<char>) -> bool {
    exists|c: i64, id: Seq<char>| bytes_of(t) == token_bytes(c, id)
}

/// The key of the row a valid token was made from.
pub open spec fn token_key(t: Seq<char>) -> Key {
    let (c, id) = choose|c: i64, id: Seq<char>| bytes_of(t) == token_bytes(c, id);
    (c as int, bytes_of(id))
}

/// Where a page starts: after the row of the token, or at the beginning.
pub open spec fn request_cursor(token: Option<String>) -> Option<Key> {
    match token {
        None => None,
        Some(t) => Some(token_key(t@)),
    }
}

pub open spec fn token_accepted(token: Option<String>) -> bool {
    match token {
        None => true,
        Some(t) => token_valid(t@),
    }
}

/// `r` is what `list` returns for the selected records `out` of `rows`: their users and
/// the token of the last one, or `Mapping` where a stored id does not parse.
pub open spec fn list_outcome(
    rows: Seq<StoredUser>,
    out: Seq<usize>,
    r: Result<ListUsersResponse, UserStoreError>,
) -> bool {
    if forall|j: int| 0 <= j < out.len() ==> valid_user_id(bytes_of(#[trigger] rows[out[j] as int].row.id@)) {
        &&& r matches Ok(resp)
        &&& resp.users@.len() == out.len()
        &&& forall|j: int| 0 <= j < out.len() ==> user_of_row(#[trigger] resp.users@[j], rows[out[j] as int].row)
        &&& out.len() == 0 ==> resp.next_page_token is None
        &&& out.len() > 0 ==> (resp.next_page_token matches Some(t) && bytes_of(t@) == token_bytes(
            rows[out.last() as int].row.created_at,
            rows[out.last() as int].row.id@,
        ))
    } else {
        r matches Err(e) && e is Mapping
    }
}

/// Rank of a record for a search term: 0 where the lower-case term occurs in the lower-case
/// name or email, 1 otherwise. It stands in for the similarity distance that a relational
/// store computes between `name || ' ' || email` and the term.
pub open spec fn search_rank(u: StoredUser, term: Seq<char>) -> int {
    if seq_contains(lower_of(u.row.name@), lower_of(term)) || (match u.row.email {
        Some(e) => seq_contains(lower_of(e@), lower_of(term)),
        None => false,
    }) {
        0
    } else {
        1
    }
}

/// The search order of records: rank, then id.
pub open spec fn search_keys(rows: Seq<StoredUser>, term: Seq<char>) -> Seq<Key> {
    rows.map_values(|u: StoredUser| (search_rank(u, term), bytes_of(u.row.id@)))
}

pub open spec fn all_eligible(n: nat) -> Seq<bool> {
    Seq::new(n, |i: int| true)
}

/// `r` is what `search` returns for the selected records `out` of `rows`.
pub open spec fn search_outcome(
    rows: Seq<StoredUser>,
    out: Seq<usize>,
    r: Result<SearchUserResponse, UserStoreError>,
) -> bool {
    if forall|j: int| 0 <= j < out.len() ==> valid_user_id(bytes_of(#[trigger] rows[out[j] as int].row.id@)) {
        &&& r matches Ok(resp)
        &&& resp.users@.len() == out.len()
        &&& forall|j: int| 0 <= j < out.len() ==> search_user_of_row(#[trigger] resp.users@[j], rows[out[j] as int].row)
    } else {
        r matches Err(e) && e is Mapping
    }
}

proof fn lemma_bytes_of_injective(a: Seq<char>, b: Seq<char>)
    requires
        a != b,
    ensures
        bytes_of(a) != bytes_of(b),
{
    encode_utf8_decode_utf8(a);
    encode_utf8_decode_utf8(b);
}

fn id_listed(id: &String, ids: &Option<Vec<UserId>>) -> (r: bool)
    ensures
        r == match ids_view(*ids) {
            None => true,
            Some(v) => id_in(v, id@),
        },
{
    match ids {
        None => true,
        Some(v) => {
            let mut k: usize = 0;
            while k < v.len()
                invariant
                    ids_view(*ids) == Some(v@),
                    0 <= k <= v@.len(),
                    forall|m: int| 0 <= m < k ==> #[trigger] v@[m].view_string() != id@,
                decreases v.len() - k,
            {
                if *v[k].as_string() == *id {
                    assert(v@[k as int].view_string() == id@);
                    assert(id_in(v@, id@));
                    return true;
                }
                k = k + 1;
            }
            false
        },
    }
}

fn clone_opt_string(o: &Option<String>) -> (r: Option<String>)
    ensures
        opt_view(r) == opt_view(*o),
{
    match o {
        Some(s) => Some(s.clone()),
        None => None,
    }
}

fn opt_str_to_string(o: Option<&str>) -> (r: Option<String>)
    ensures
        opt_view(r) == match o {
            Some(s) => Some(s@),
            None => None::<Seq<char>>,
        },
{
    match o {
        Some(s) => Some(s.to_owned()),
        None => None,
    }
}

/// Two rows hold the same values.
pub open spec fn same_row(a: UserRow, b: UserRow) -> bool {
    &&& a.id@ == b.id@
    &&& a.name@ == b.name@
    &&& opt_view(a.email) == opt_view(b.email)
    &&& a.last_updated_with == b.last_updated_with
    &&& a.user_type == b.user_type
    &&& a.created_at == b.created_at
    &&& a.updated_at == b.updated_at
}

/// Every stored id of `rows` parses.
pub open spec fn rows_valid(rows: Seq<UserRow>) -> bool {
    forall|j: int| 0 <= j < rows.len() ==> valid_user_id(bytes_of(#[trigger] rows[j].id@))
}

/// Turns the rows of one page, in page order, into the page: their users and the token
/// of the last row, absent exactly when there are no rows. Fails with `Mapping` where a
/// stored id does not parse.
pub fn page_from_rows(rows: Vec<UserRow>) -> (r: Result<ListUsersResponse, UserStoreError>)
    ensures
        rows_valid(rows@) ==> {
            &&& r matches Ok(resp)
            &&& resp.users@.len() == rows@.len()
            &&& forall|j: int| 0 <= j < rows@.len() ==> user_of_row(#[trigger] resp.users@[j], rows@[j])
            &&& rows@.len() == 0 ==> resp.next_page_token is None
            &&& rows@.len() > 0 ==> (resp.next_page_token matches Some(t) && bytes_of(t@)
                == token_bytes(rows@.last().created_at, rows@.last().id@))
        },
        !rows_valid(rows@) ==> (r matches Err(e) && e is Mapping),
{
    let mut users: Vec<User> = Vec::new();
    let mut j: usize = 0;
    while j < rows.len()
        invariant
            0 <= j <= rows@.len(),
            users@.len() == j,
            forall|m: int| 0 <= m < j ==> user_of_row(#[trigger] users@[m], rows@[m]),
            forall|m: int| 0 <= m < j ==> valid_user_id(bytes_of(#[trigger] rows@[m].id@)),
        decreases rows.len() - j,
    {
        match User::from_row(clone_row(&rows[j])) {
            Ok(u) => {
                users.push(u);
            },
            Err(e) => {
                assert(!valid_user_id(bytes_of(rows@[j as int].id@)));
                return Err(e);
            },
        }
        j = j + 1;
    }
    let next_page_token = if users.len() == 0 {
        None
    } else {
        let last = &users[users.len() - 1];
        Some(encode_token(last.created_at, last.id.as_string()))
    };
    Ok(ListUsersResponse { users, next_page_token })
}

/// Turns search rows, best match first, into the response: the users of the first
/// `SEARCH_LIMIT` rows. Fails with `Mapping` where one of their stored ids does not parse.
pub fn search_from_rows(rows: Vec<UserRow>) -> (r: Result<SearchUserResponse, UserStoreError>)
    ensures
        ({
            let n = if rows@.len() < SEARCH_LIMIT { rows@.len() as int } else { SEARCH_LIMIT as int };
            &&& rows_valid(rows@.take(n)) ==> {
                &&& r matches Ok(resp)
                &&& resp.users@.len() == n
                &&& forall|j: int| 0 <= j < n ==> search_user_of_row(#[trigger] resp.users@[j], rows@[j])
            }
            &&& !rows_valid(rows@.take(n)) ==> (r matches Err(e) && e is Mapping)
        }),
{
    let n: usize = if rows.len() < SEARCH_LIMIT { rows.len() } else { SEARCH_LIMIT };
    let mut users: Vec<SearchUser> = Vec::new();
    let mut j: usize = 0;
    while j < n
        invariant
            n <= rows@.len(),
            n == if rows@.len() < SEARCH_LIMIT { rows@.len() as int } else { SEARCH_LIMIT as int },
            0 <= j <= n,
            users@.len() == j,
            forall|m: int| 0 <= m < j ==> search_user_of_row(#[trigger] users@[m], rows@[m]),
            forall|m: int| 0 <= m < j ==> valid_user_id(bytes_of(#[trigger] rows@[m].id@)),
        decreases n - j,
    {
        match SearchUser::from_row(clone_row(&rows[j])) {
            Ok(u) => {
                users.push(u);
            },
            Err(e) => {
                assert(rows@.take(n as int)[j as int] == rows@[j as int]);
                assert(!valid_user_id(bytes_of(rows@.take(n as int)[j as int].id@)));
                return Err(e);
            },
        }
        j = j + 1;
    }
    assert forall|m: int| 0 <= m < n implies valid_user_id(bytes_of(#[trigger] rows@.take(n as int)[m].id@)) by {
        assert(rows@.take(n as int)[m] == rows@[m]);
    }
    Ok(SearchUserResponse { users })
}

/// The outcome of a store upsert: `Created` where the store reports that it inserted the
/// row, `Updated` where it reports a conflict or reports nothing. Fails with `Mapping` where
/// the stored id does not parse.
pub fn upsert_response(created: Option<bool>, row: UserRow) -> (r: Result<
    CreateOrUpdateUserResponse,
    UserStoreError,
>)
    ensures
        valid_user_id(bytes_of(row.id@)) ==> match r {
            Ok(CreateOrUpdateUserResponse::Created(u)) => created == Some(true) && user_of_row(u, row),
            Ok(CreateOrUpdateUserResponse::Updated(u)) => created != Some(true) && user_of_row(u, row),
            Err(_) => false,
        },
        !valid_user_id(bytes_of(row.id@)) ==> (r matches Err(e) && e is Mapping),
{
    let user = match User::from_row(row) {
        Ok(u) => u,
        Err(e) => {
            return Err(e);
        },
    };
    let is_created = match created {
        Some(c) => c,
        None => false,
    };
    if is_created {
        Ok(CreateOrUpdateUserResponse::Created(user))
    } else {
        Ok(CreateOrUpdateUserResponse::Updated(user))
    }
}

/// The outcome of a store delete: `Some` where it matched a row, `None` where it matched none.
pub fn delete_outcome(rows_affected: u64) -> (r: Option<()>)
    ensures
        r is Some <==> rows_affected > 0,
{
    if rows_affected == 0 {
        None
    } else {
        Some(())
    }
}

/// Copies a row field by field.
pub fn clone_row(row: &UserRow) -> (r: UserRow)
    ensures
        same_row(r, *row),
{
    UserRow {
        id: row.id.clone(),
        name: row.name.clone(),
        email: clone_opt_string(&row.email),
        last_updated_with: row.last_updated_with,
        user_type: row.user_type,
        created_at: row.created_at,
        updated_at: row.updated_at,
    }
}

impl UserTable {
    pub closed spec fn view_rows(&self) -> Seq<StoredUser> {
        self.rows@
    }

    pub open spec fn wf(&self) -> bool {
        ids_unique(self.view_rows())
    }

    /// An empty table.
    pub fn new() -> (r: UserTable)
        ensures
            r.wf(),
            r.view_rows().len() == 0,
    {
        UserTable { rows: Vec::new() }
    }

    /// Number of records, soft-deleted ones included.
    pub fn len(&self) -> (r: usize)
        ensures
            r == self.view_rows().len(),
    {
        self.rows.len()
    }

    fn position_of(&self, id: &String) -> (r: Option<usize>)
        requires
            self.wf(),
        ensures
            match r {
                Some(k) => k < self.view_rows().len() && self.view_rows()[k as int].row.id@ == id@,
                None => !has_id(self.view_rows(), id@),
            },
    {
        let mut i: usize = 0;
        while i < self.rows.len()
            invariant
                0 <= i <= self.rows@.len(),
                forall|k: int| 0 <= k < i ==> self.rows@[k].row.id@ != id@,
            decreases self.rows.len() - i,
        {
            if self.rows[i].row.id == *id {
                return Some(i);
            }
            i = i + 1;
        }
        None
    }

    /// Inserts a record for `id`, or overwrites the existing one, soft-deleted or not, and
    /// undoes its soft delete. The outcome says which of the two happened.
    pub fn create_or_update(
        &mut self,
        id: &UserId,
        name: &str,
        email: Option<&str>,
        last_updated_with: UserLastUpdatedWith,
        user_type: UserType,
        now: i64,
    ) -> (r: CreateOrUpdateUserResponse)
        requires
            old(self).wf(),
        ensures
            final(self).wf(),
            has_id(final(self).view_rows(), id.view_string()),
            !has_id(old(self).view_rows(), id.view_string()) ==> {
                &&& final(self).view_rows().len() == old(self).view_rows().len() + 1
                &&& final(self).view_rows().subrange(0, old(self).view_rows().len() as int)
                    == old(self).view_rows()
                &&& inserted(
                    final(self).view_rows().last(),
                    id.view_string(),
                    name@,
                    match email {
                        Some(e) => Some(e@),
                        None => None,
                    },
                    last_updated_with,
                    user_type,
                    now,
                )
                &&& r matches CreateOrUpdateUserResponse::Created(u) && user_of_row(
                    u,
                    final(self).view_rows().last().row,
                )
            },
            has_id(old(self).view_rows(), id.view_string()) ==> exists|k: int|
                {
                    &&& 0 <= k < old(self).view_rows().len()
                    &&& old(self).view_rows()[k].row.id@ == id.view_string()
                    &&& same_except(old(self).view_rows(), final(self).view_rows(), k)
                    &&& upserted(
                        old(self).view_rows()[k],
                        final(self).view_rows()[k],
                        name@,
                        match email {
                            Some(e) => Some(e@),
                            None => None,
                        },
                        last_updated_with,
                        user_type,
                        now,
                    )
                    &&& r matches CreateOrUpdateUserResponse::Updated(u) && user_of_row(
                        u,
                        final(self).view_rows()[k].row,
                    )
                },
    {
        let pos = self.position_of(id.as_string());
        let email_value = opt_str_to_string(email);
        match pos {
            Some(k) => {
                let created_at = self.rows[k].row.created_at;
                let row = UserRow {
                    id: self.rows[k].row.id.clone(),
                    name: name.to_owned(),
                    email: email_value,
                    last_updated_with: DbUserLastUpdatedWith::from(last_updated_with),
                    user_type: DbUserType::from(user_type),
                    created_at,
                    updated_at: Some(now),
                };
                let user = User {
                    id: id.clone(),
                    name: name.to_owned(),
                    email: clone_opt_string(&row.email),
                    user_type,
                    last_updated_with,
                    created_at,
                    updated_at: Some(now),
                };
                let ghost old_rows = self.rows@;
                self.rows.set(k, StoredUser { row, deleted_at: None });
                proof {
                    assert(same_except(old_rows, self.rows@, k as int));
                    assert forall|i: int, j: int|
                        0 <= i < self.rows@.len() && 0 <= j < self.rows@.len() && i != j
                        implies self.rows@[i].row.id@ != self.rows@[j].row.id@ by {
                        assert(old_rows[i].row.id@ != old_rows[j].row.id@);
                    }
                }
                assert(self.rows@[k as int].row.id@ == id.view_string());
                CreateOrUpdateUserResponse::Updated(user)
            },
            None => {
                let row = UserRow {
                    id: id.as_string().clone(),
                    name: name.to_owned(),
                    email: email_value,
                    last_updated_with: DbUserLastUpdatedWith::from(last_updated_with),
                    user_type: DbUserType::from(user_type),
                    created_at: now,
                    updated_at: None,
                };
                let user = User {
                    id: id.clone(),
                    name: name.to_owned(),
                    email: clone_opt_string(&row.email),
                    user_type,
                    last_updated_with,
                    created_at: now,
                    updated_at: None,
                };
                let ghost old_rows = self.rows@;
                self.rows.push(StoredUser { row, deleted_at: None });
                proof {
                    assert(self.rows@.subrange(0, old_rows.len() as int) =~= old_rows);
                    assert forall|i: int, j: int|
                        0 <= i < self.rows@.len() && 0 <= j < self.rows@.len() && i != j
                        implies self.rows@[i].row.id@ != self.rows@[j].row.id@ by {
                        if i < old_rows.len() && j < old_rows.len() {
                            assert(old_rows[i].row.id@ != old_rows[j].row.id@);
                        } else if i < old_rows.len() {
                            assert(old_rows[i].row.id@ != id.view_string());
                        } else {
                            assert(old_rows[j].row.id@ != id.view_string());
                        }
                    }
                }
                assert(self.rows@[old_rows.len() as int].row.id@ == id.view_string());
                CreateOrUpdateUserResponse::Created(user)
            },
        }
    }

    /// One page of the records that are not soft-deleted and pass the filters, in
    /// `(created_at, id)` order, starting after the row of the page token. The next token
    /// names the last row of the page, and is absent exactly when the page is empty.
    pub fn list(
        &self,
        filter_user_id: Option<Vec<UserId>>,
        filter_name: Option<String>,
        query: PaginationQuery,
        config: &PageConfig,
    ) -> (r: Result<ListUsersResponse, UserStoreError>)
        requires
            self.wf(),
            config.wf(),
        ensures
            !token_accepted(query.page_token) ==> (r matches Err(e) && e is InvalidToken),
            token_accepted(query.page_token) ==> exists|out: Seq<usize>|
                {
                    &&& is_page(
                        table_keys(self.view_rows()),
                        table_listed(self.view_rows(), ids_view(filter_user_id), opt_view(filter_name)),
                        request_cursor(query.page_token),
                        effective_page_size(*config, query.page_size),
                        out,
                    )
                    &&& list_outcome(self.view_rows(), out, r)
                },
    {
        let ghost rows = self.rows@;
        let ghost ids = ids_view(filter_user_id);
        let ghost name = opt_view(filter_name);
        let size = page_size_or_max(config, query.page_size);
        let cursor: Option<SortKey> = match &query.page_token {
            None => None,
            Some(t) => match decode_token(t.as_str()) {
                Ok((c, id)) => {
                    proof {
                        let (c2, id2) = choose|c2: i64, id2: Seq<char>|
                            bytes_of(t@) == token_bytes(c2, id2);
                        lemma_token_bytes_injective(c, id@, c2, id2);
                    }
                    Some(SortKey { primary: c, name: id })
                },
                Err(e) => {
                    return Err(e);
                },
            },
        };
        assert(token_accepted(query.page_token));
        assert(cursor_key(cursor) == request_cursor(query.page_token));
        let mut keys: Vec<SortKey> = Vec::new();
        let mut elig: Vec<bool> = Vec::new();
        let mut i: usize = 0;
        while i < self.rows.len()
            invariant
                rows == self.rows@,
                ids == ids_view(filter_user_id),
                name == opt_view(filter_name),
                token_accepted(query.page_token),
                cursor_key(cursor) == request_cursor(query.page_token),
                size as int == effective_page_size(*config, query.page_size),
                1 <= size,
                0 <= i <= rows.len(),
                keys@.len() == i,
                elig@.len() == i,
                forall|k: int| 0 <= k < i ==> (#[trigger] keys@[k]).key() == row_key(rows[k]),
                forall|k: int| 0 <= k < i ==> #[trigger] elig@[k] == listed(rows[k], ids, name),
            decreases rows.len() - i,
        {
            let row = &self.rows[i].row;
            let name_ok = match &filter_name {
                None => true,
                Some(f) => name_matches(row.name.as_str(), f.as_str()),
            };
            let ok = self.rows[i].deleted_at.is_none() && name_ok && id_listed(&row.id, &filter_user_id);
            keys.push(SortKey { primary: row.created_at, name: row.id.clone() });
            elig.push(ok);
            i = i + 1;
        }
        proof {
            assert(keys_of(keys@) =~= table_keys(rows));
            assert(elig@ =~= table_listed(rows, ids, name));
            assert forall|a: int, b: int|
                0 <= a < rows.len() && 0 <= b < rows.len() && a != b && elig@[a] && elig@[b]
                implies keys_of(keys@)[a] != keys_of(keys@)[b] by {
                lemma_bytes_of_injective(rows[a].row.id@, rows[b].row.id@);
            }
        }
        let out = select_page(&keys, &elig, &cursor, size as usize);
        let mut selected: Vec<UserRow> = Vec::new();
        let mut j: usize = 0;
        while j < out.len()
            invariant
                rows == self.rows@,
                forall|m: int| 0 <= m < out@.len() ==> out@[m] < rows.len(),
                0 <= j <= out@.len(),
                selected@.len() == j,
                forall|m: int| 0 <= m < j ==> same_row(#[trigger] selected@[m], rows[out@[m] as int].row),
            decreases out.len() - j,
        {
            selected.push(clone_row(&self.rows[out[j]].row));
            j = j + 1;
        }
        let ghost sel = selected@;
        let r = page_from_rows(selected);
        proof {
            assert(rows == self.view_rows());
            if forall|m: int| 0 <= m < out.len() ==> valid_user_id(bytes_of(#[trigger] rows[out@[m] as int].row.id@)) {
                assert forall|m: int| 0 <= m < sel.len() implies valid_user_id(bytes_of(#[trigger] sel[m].id@)) by {
                    assert(same_row(sel[m], rows[out@[m] as int].row));
                }
            } else {
                let m = choose|m: int| 0 <= m < out.len() && !valid_user_id(bytes_of(#[trigger] rows[out@[m] as int].row.id@));
                assert(same_row(sel[m], rows[out@[m] as int].row));
                assert(!rows_valid(sel));
            }
            assert(list_outcome(rows, out@, r));
        }
        r
    }

    /// The records, soft-deleted ones included, that best match `term`, at most
    /// `SEARCH_LIMIT` of them: those whose name or email holds the term, case-insensitively,
    /// before the others, and by id within each group. This containment rank stands in for
    /// the store's similarity distance, which only the store computes.
    pub fn search(&self, term: &str) -> (r: Result<SearchUserResponse, UserStoreError>)
        requires
            self.wf(),
        ensures
            exists|out: Seq<usize>|
                {
                    &&& is_page(
                        search_keys(self.view_rows(), term@),
                        all_eligible(self.view_rows().len()),
                        None,
                        SEARCH_LIMIT as int,
                        out,
                    )
                    &&& search_outcome(self.view_rows(), out, r)
                },
    {
        let ghost rows = self.rows@;
        let term_folded = lowercase(term);
        let mut keys: Vec<SortKey> = Vec::new();
        let mut elig: Vec<bool> = Vec::new();
        let mut i: usize = 0;
        while i < self.rows.len()
            invariant
                rows == self.rows@,
                term_folded@ == lower_of(term@),
                0 <= i <= rows.len(),
                keys@.len() == i,
                elig@.len() == i,
                forall|k: int| 0 <= k < i ==> (#[trigger] keys@[k]).key() == (search_rank(rows[k], term@), bytes_of(rows[k].row.id@)),
                forall|k: int| 0 <= k < i ==> #[trigger] elig@[k],
            decreases rows.len() - i,
        {
            let row = &self.rows[i].row;
            let name_folded = lowercase(row.name.as_str());
            let in_name = contains_str(name_folded.as_str(), term_folded.as_str());
            let in_email = match &row.email {
                Some(e) => {
                    let email_folded = lowercase(e.as_str());
                    contains_str(email_folded.as_str(), term_folded.as_str())
                },
                None => false,
            };
            let rank: i64 = if in_name || in_email { 0 } else { 1 };
            keys.push(SortKey { primary: rank, name: row.id.clone() });
            elig.push(true);
            i = i + 1;
        }
        proof {
            assert(keys_of(keys@) =~= search_keys(rows, term@));
            assert(elig@ =~= all_eligible(rows.len()));
            assert forall|a: int, b: int|
                0 <= a < rows.len() && 0 <= b < rows.len() && a != b && elig@[a] && elig@[b]
                implies keys_of(keys@)[a] != keys_of(keys@)[b] by {
                lemma_bytes_of_injective(rows[a].row.id@, rows[b].row.id@);
            }
        }
        let out = select_page(&keys, &elig, &None, SEARCH_LIMIT);
        let mut selected: Vec<UserRow> = Vec::new();
        let mut j: usize = 0;
        while j < out.len()
            invariant
                rows == self.rows@,
                forall|m: int| 0 <= m < out@.len() ==> out@[m] < rows.len(),
                0 <= j <= out@.len(),
                selected@.len() == j,
                forall|m: int| 0 <= m < j ==> same_row(#[trigger] selected@[m], rows[out@[m] as int].row),
            decreases out.len() - j,
        {
            selected.push(clone_row(&self.rows[out[j]].row));
            j = j + 1;
        }
        let ghost sel = selected@;
        let r = search_from_rows(selected);
        proof {
            assert(rows == self.view_rows());
            assert(sel.take(sel.len() as int) =~= sel);
            if forall|m: int| 0 <= m < out.len() ==> valid_user_id(bytes_of(#[trigger] rows[out@[m] as int].row.id@)) {
                assert forall|m: int| 0 <= m < sel.len() implies valid_user_id(bytes_of(#[trigger] sel[m].id@)) by {
                    assert(same_row(sel[m], rows[out@[m] as int].row));
                }
            } else {
                let m = choose|m: int| 0 <= m < out.len() && !valid_user_id(bytes_of(#[trigger] rows[out@[m] as int].row.id@));
                assert(same_row(sel[m], rows[out@[m] as int].row));
                assert(!rows_valid(sel));
            }
            assert(search_outcome(rows, out@, r));
        }
        r
    }

    /// Soft-deletes the record for `id`, active or already deleted: scrubs its name and
    /// email and sets its marker. `None` where no record has that id.
    pub fn delete(&mut self, id: &UserId, now: i64) -> (r: Option<()>)
        requires
            old(self).wf(),
        ensures
            final(self).wf(),
            has_id(final(self).view_rows(), id.view_string()) == has_id(
                old(self).view_rows(),
                id.view_string(),
            ),
            !has_id(old(self).view_rows(), id.view_string()) ==> (r is None) && final(self).view_rows()
                == old(self).view_rows(),
            has_id(old(self).view_rows(), id.view_string()) ==> (r is Some) && exists|k: int|
                {
                    &&& 0 <= k < old(self).view_rows().len()
                    &&& old(self).view_rows()[k].row.id@ == id.view_string()
                    &&& same_except(old(self).view_rows(), final(self).view_rows(), k)
                    &&& scrubbed(old(self).view_rows()[k], final(self).view_rows()[k], now)
                },
    {
        let pos = self.position_of(id.as_string());
        match pos {
            None => None,
            Some(k) => {
                let old_row = clone_row(&self.rows[k].row);
                let row = UserRow {
                    id: old_row.id,
                    name: DELETED_USER_NAME.to_owned(),
                    email: None,
                    last_updated_with: old_row.last_updated_with,
                    user_type: old_row.user_type,
                    created_at: old_row.created_at,
                    updated_at: old_row.updated_at,
                };
                let ghost old_rows = self.rows@;
                self.rows.set(k, StoredUser { row, deleted_at: Some(now) });
                proof {
                    assert(same_except(old_rows, self.rows@, k as int));
                    assert forall|i: int, j: int|
                        0 <= i < self.rows@.len() && 0 <= j < self.rows@.len() && i != j
                        implies self.rows@[i].row.id@ != self.rows@[j].row.id@ by {
                        assert(old_rows[i].row.id@ != old_rows[j].row.id@);
                    }
                    assert(old_rows == old(self).view_rows());
                    assert(self.rows@ == self.view_rows());
                    assert(self.rows@[k as int].row.id@ == id.view_string());
                }
                Some(())
            },
        }
    }
}

} // verus!
