use user_directory::table::{
    page_size_or_max, CreateOrUpdateUserResponse, PageConfig, PaginationQuery, UserTable,
    DELETED_USER_NAME, SEARCH_LIMIT,
};
use user_directory::text::{name_matches, name_matches_folded};
use user_directory::token::{decode_token, encode_token};
use user_directory::types::{
    DbUserLastUpdatedWith, DbUserType, UserId, UserLastUpdatedWith, UserStoreError, UserType,
};
use user_directory::user::{User, UserRow};

fn config() -> PageConfig {
    PageConfig { default_size: 100, max_size: 1000 }
}

fn page(token: Option<String>, size: Option<i64>) -> PaginationQuery {
    PaginationQuery { page_token: token, page_size: size }
}

fn add(table: &mut UserTable, sub: &str, name: &str, email: Option<&str>, now: i64) -> bool {
    let id = UserId::new_unchecked("oidc", sub);
    matches!(
        table.create_or_update(
            &id,
            name,
            email,
            UserLastUpdatedWith::CreateEndpoint,
            UserType::Human,
            now,
        ),
        CreateOrUpdateUserResponse::Created(_)
    )
}

fn names(table: &UserTable) -> Vec<String> {
    let r = table.list(None, None, page(None, Some(1000)), &config()).unwrap();
    r.users.into_iter().map(|u| u.name).collect()
}

#[test]
fn round_trip_keeps_all_fields() {
    let mut table = UserTable::new();
    let id = UserId::new_unchecked("oidc", "alice");
    let r = table.create_or_update(
        &id,
        "Alice",
        Some("alice@example.com"),
        UserLastUpdatedWith::ConfigCallCreation,
        UserType::Application,
        42,
    );
    match r {
        CreateOrUpdateUserResponse::Created(u) => {
            assert!(u.id == id);
            assert_eq!(u.created_at, 42);
            assert_eq!(u.updated_at, None);
        }
        CreateOrUpdateUserResponse::Updated(_) => panic!("expected Created"),
    }
    let users = table.list(None, None, page(None, None), &config()).unwrap().users;
    assert_eq!(users.len(), 1);
    assert!(users[0].id == id);
    assert_eq!(users[0].name, "Alice");
    assert_eq!(users[0].email, Some("alice@example.com".to_string()));
    assert_eq!(users[0].user_type, UserType::Application);
    assert_eq!(users[0].last_updated_with, UserLastUpdatedWith::ConfigCallCreation);
}

#[test]
fn update_keeps_id_and_created_at() {
    let mut table = UserTable::new();
    assert!(add(&mut table, "bob", "Bob", None, 10));
    let id = UserId::new_unchecked("oidc", "bob");
    match table.create_or_update(
        &id,
        "Robert",
        Some("r@example.com"),
        UserLastUpdatedWith::UpdateEndpoint,
        UserType::Human,
        20,
    ) {
        CreateOrUpdateUserResponse::Updated(u) => {
            assert!(u.id == id);
            assert_eq!(u.name, "Robert");
            assert_eq!(u.created_at, 10);
            assert_eq!(u.updated_at, Some(20));
            assert_eq!(u.last_updated_with, UserLastUpdatedWith::UpdateEndpoint);
        }
        CreateOrUpdateUserResponse::Created(_) => panic!("expected Updated"),
    }
    assert_eq!(table.len(), 1);
}

#[test]
fn pagination_visits_every_user_once_in_order() {
    let mut table = UserTable::new();
    // Two users share a creation time: the id breaks the tie.
    let subs = ["g", "b", "a", "f", "c", "e", "d"];
    let times = [5, 1, 1, 4, 2, 3, 3];
    for k in 0..7 {
        assert!(add(&mut table, subs[k], subs[k], None, times[k]));
    }
    let mut seen: Vec<String> = Vec::new();
    let mut token: Option<String> = None;
    let mut non_empty = 0;
    loop {
        let r = table.list(None, None, page(token.clone(), Some(3)), &config()).unwrap();
        if r.users.is_empty() {
            assert!(r.next_page_token.is_none());
            break;
        }
        non_empty += 1;
        assert!(r.next_page_token.is_some());
        seen.extend(r.users.into_iter().map(|u| u.name));
        token = r.next_page_token;
    }
    assert_eq!(non_empty, 3);
    assert_eq!(seen, vec!["a", "b", "c", "d", "e", "f", "g"]);
}

#[test]
fn soft_delete_hides_and_lowers_count() {
    let mut table = UserTable::new();
    add(&mut table, "u1", "One", Some("one@example.com"), 1);
    add(&mut table, "u2", "Two", None, 2);
    add(&mut table, "u3", "Three", None, 3);
    assert_eq!(names(&table).len(), 3);
    assert_eq!(table.delete(&UserId::new_unchecked("oidc", "u2"), 4), Some(()));
    assert_eq!(names(&table), vec!["One", "Three"]);
    assert_eq!(table.len(), 3);
}

#[test]
fn delete_twice_and_missing() {
    let mut table = UserTable::new();
    add(&mut table, "u1", "One", None, 1);
    let id = UserId::new_unchecked("oidc", "u1");
    assert_eq!(table.delete(&id, 2), Some(()));
    assert_eq!(table.delete(&id, 3), Some(()));
    assert_eq!(table.delete(&UserId::new_unchecked("oidc", "nobody"), 4), None);
}

#[test]
fn deleted_record_is_scrubbed_but_searchable() {
    let mut table = UserTable::new();
    add(&mut table, "u1", "Secret Name", Some("secret@example.com"), 1);
    table.delete(&UserId::new_unchecked("oidc", "u1"), 2);
    let hits = table.search("anything").unwrap().users;
    assert_eq!(hits.len(), 1);
    assert_eq!(hits[0].name, DELETED_USER_NAME);
    assert_eq!(hits[0].name, "Deleted User");
    assert_eq!(hits[0].email, None);
}

#[test]
fn resurrection_is_an_update() {
    let mut table = UserTable::new();
    add(&mut table, "u1", "One", None, 1);
    let id = UserId::new_unchecked("oidc", "u1");
    table.delete(&id, 2);
    assert!(names(&table).is_empty());
    let r = table.create_or_update(
        &id,
        "One Again",
        None,
        UserLastUpdatedWith::UpdateEndpoint,
        UserType::Human,
        3,
    );
    match r {
        CreateOrUpdateUserResponse::Updated(u) => assert_eq!(u.created_at, 1),
        CreateOrUpdateUserResponse::Created(_) => panic!("expected Updated"),
    }
    assert_eq!(names(&table), vec!["One Again"]);
    assert_eq!(table.len(), 1);
}

#[test]
fn search_ranks_match_first_and_caps_results() {
    let mut table = UserTable::new();
    add(&mut table, "a_other", "Other Person", None, 1);
    add(&mut table, "z_test", "Test User 1", None, 2);
    let hits = table.search("Test").unwrap().users;
    assert_eq!(hits.len(), 2);
    assert_eq!(hits[0].name, "Test User 1");
    assert_eq!(hits[1].name, "Other Person");

    for k in 0..15 {
        add(&mut table, &format!("more_{k:02}"), &format!("Person {k}"), None, 10 + k);
    }
    let hits = table.search("test").unwrap().users;
    assert_eq!(hits.len(), SEARCH_LIMIT);
    assert_eq!(hits.len(), 10);
    assert_eq!(hits[0].name, "Test User 1");
}

#[test]
fn search_matches_email_case_insensitively() {
    let mut table = UserTable::new();
    add(&mut table, "a", "Alpha", None, 1);
    add(&mut table, "b", "Beta", Some("Beta@Example.COM"), 2);
    let hits = table.search("example.com").unwrap().users;
    assert_eq!(hits[0].name, "Beta");
}

#[test]
fn name_filter_is_case_insensitive_substring() {
    let mut table = UserTable::new();
    add(&mut table, "a", "Alice Smith", None, 1);
    add(&mut table, "b", "Bob Jones", None, 2);
    add(&mut table, "c", "SMITHERS", None, 3);
    let r = table
        .list(None, Some("smith".to_string()), page(None, None), &config())
        .unwrap();
    let got: Vec<String> = r.users.into_iter().map(|u| u.name).collect();
    assert_eq!(got, vec!["Alice Smith", "SMITHERS"]);
    let r = table.list(None, Some(String::new()), page(None, None), &config()).unwrap();
    assert_eq!(r.users.len(), 3);
}

#[test]
fn id_filter_restricts_to_given_ids() {
    let mut table = UserTable::new();
    add(&mut table, "a", "A", None, 1);
    add(&mut table, "b", "B", None, 2);
    add(&mut table, "c", "C", None, 3);
    let ids = vec![UserId::new_unchecked("oidc", "c"), UserId::new_unchecked("oidc", "a")];
    let r = table.list(Some(ids), None, page(None, None), &config()).unwrap();
    let got: Vec<String> = r.users.into_iter().map(|u| u.name).collect();
    assert_eq!(got, vec!["A", "C"]);
    let r = table.list(Some(Vec::new()), None, page(None, None), &config()).unwrap();
    assert!(r.users.is_empty());
    assert!(r.next_page_token.is_none());
}

#[test]
fn page_size_is_clamped() {
    let c = PageConfig { default_size: 7, max_size: 20 };
    assert_eq!(page_size_or_max(&c, None), 7);
    assert_eq!(page_size_or_max(&c, Some(0)), 1);
    assert_eq!(page_size_or_max(&c, Some(-5)), 1);
    assert_eq!(page_size_or_max(&c, Some(12)), 12);
    assert_eq!(page_size_or_max(&c, Some(21)), 20);
    let mut table = UserTable::new();
    for k in 0..5 {
        add(&mut table, &format!("u{k}"), "x", None, k);
    }
    let small = PageConfig { default_size: 2, max_size: 3 };
    assert_eq!(table.list(None, None, page(None, None), &small).unwrap().users.len(), 2);
    assert_eq!(table.list(None, None, page(None, Some(50)), &small).unwrap().users.len(), 3);
    assert_eq!(table.list(None, None, page(None, Some(0)), &small).unwrap().users.len(), 1);
}

#[test]
fn token_has_exact_form_and_round_trips() {
    let t = encode_token(0, &"a".to_string());
    assert_eq!(t, "01000000000000000061");
    let t = encode_token(258, &"oidc~x".to_string());
    assert_eq!(t, "010000000000000102" .to_string() + "6f6964637e78");
    let (c, id) = decode_token(&t).unwrap();
    assert_eq!(c, 258);
    assert_eq!(id, "oidc~x");
    let t = encode_token(-1, &"é~ü".to_string());
    let (c, id) = decode_token(&t).unwrap();
    assert_eq!(c, -1);
    assert_eq!(id, "é~ü");
}

#[test]
fn malformed_tokens_are_rejected() {
    for bad in ["", "0", "zz", "0100000000000000", "0200000000000000006", "02000000000000000061", "01000000000000000ff"] {
        assert!(matches!(decode_token(bad), Err(UserStoreError::InvalidToken)), "{bad}");
    }
    // Valid hex and version, but the id is not UTF-8.
    assert!(matches!(decode_token("01000000000000000fff"), Err(UserStoreError::InvalidToken)));
    let table = UserTable::new();
    let r = table.list(None, None, page(Some("not-a-token".to_string()), None), &config());
    assert!(matches!(r, Err(UserStoreError::InvalidToken)));
}

#[test]
fn unparseable_stored_id_is_a_mapping_error() {
    let mut table = UserTable::new();
    let bad = UserId::new_unchecked("", "orphan");
    table.create_or_update(&bad, "x", None, UserLastUpdatedWith::CreateEndpoint, UserType::Human, 1);
    let r = table.list(None, None, page(None, None), &config());
    assert!(matches!(r, Err(UserStoreError::Mapping)));
    assert!(matches!(table.search("x"), Err(UserStoreError::Mapping)));
}

#[test]
fn user_id_parse() {
    assert!(UserId::parse("oidc~abc".to_string()).is_ok());
    assert!(UserId::parse("oidc~a~b".to_string()).is_ok());
    for bad in ["", "oidc", "~abc", "oidc~", "~"] {
        assert!(matches!(UserId::parse(bad.to_string()), Err(UserStoreError::Mapping)), "{bad}");
    }
    let id = UserId::parse("kubernetes~sa".to_string()).unwrap();
    assert!(id == UserId::new_unchecked("kubernetes", "sa"));
    assert_eq!(id.as_string(), "kubernetes~sa");
}

#[test]
fn row_maps_to_user() {
    let row = UserRow {
        id: "oidc~u".to_string(),
        name: "U".to_string(),
        email: Some("u@x".to_string()),
        last_updated_with: DbUserLastUpdatedWith::ConfigCallCreation,
        user_type: DbUserType::Application,
        created_at: 5,
        updated_at: Some(6),
    };
    let u = User::from_row(row).unwrap();
    assert_eq!(u.user_type, UserType::Application);
    assert_eq!(u.last_updated_with, UserLastUpdatedWith::ConfigCallCreation);
    assert_eq!(u.updated_at, Some(6));
}

#[test]
fn enum_mappings_are_inverse() {
    assert_eq!(UserType::from(DbUserType::Human), UserType::Human);
    assert_eq!(DbUserType::from(UserType::Application), DbUserType::Application);
    assert_eq!(
        DbUserLastUpdatedWith::from(UserLastUpdatedWith::UpdateEndpoint),
        DbUserLastUpdatedWith::UpdateEndpoint
    );
    assert_eq!(
        UserLastUpdatedWith::from(DbUserLastUpdatedWith::CreateEndpoint),
        UserLastUpdatedWith::CreateEndpoint
    );
}

#[test]
fn name_filter_helpers() {
    assert!(name_matches("Alice", "LIC"));
    assert!(!name_matches("Alice", "bob"));
    assert!(name_matches("Alice", ""));
    assert!(name_matches_folded("X", "alice", "lic"));
    assert!(!name_matches_folded("X", "alice", "LIC"));
    assert!(name_matches_folded("", "alice", "zzz"));
}

#[test]
fn upsert_response_follows_created_flag() {
    let row = || UserRow {
        id: "oidc~u".to_string(),
        name: "U".to_string(),
        email: None,
        last_updated_with: DbUserLastUpdatedWith::CreateEndpoint,
        user_type: DbUserType::Human,
        created_at: 1,
        updated_at: None,
    };
    assert!(matches!(
        user_directory::table::upsert_response(Some(true), row()),
        Ok(CreateOrUpdateUserResponse::Created(_))
    ));
    assert!(matches!(
        user_directory::table::upsert_response(Some(false), row()),
        Ok(CreateOrUpdateUserResponse::Updated(_))
    ));
    assert!(matches!(
        user_directory::table::upsert_response(None, row()),
        Ok(CreateOrUpdateUserResponse::Updated(_))
    ));
    let mut bad = row();
    bad.id = "nosep".to_string();
    assert!(matches!(
        user_directory::table::upsert_response(Some(true), bad),
        Err(UserStoreError::Mapping)
    ));
}

#[test]
fn delete_outcome_from_rows_affected() {
    assert_eq!(user_directory::table::delete_outcome(0), None);
    assert_eq!(user_directory::table::delete_outcome(1), Some(()));
    assert_eq!(user_directory::table::delete_outcome(3), Some(()));
}
