use user_directory::table::{
    CreateOrUpdateUserResponse, ListUsersResponse, PageConfig, PaginationQuery, UserTable,
    DELETED_USER_NAME,
};
use user_directory::types::{UserId, UserLastUpdatedWith, UserStoreError, UserType};

const T0: i64 = 1_700_000_000_000_000;

fn config() -> PageConfig {
    PageConfig { default_size: 100, max_size: 1000 }
}

fn page(token: Option<String>, size: Option<i64>) -> PaginationQuery {
    PaginationQuery { page_token: token, page_size: size }
}

fn list_all(table: &UserTable, size: i64) -> ListUsersResponse {
    table.list(None, None, page(None, Some(size)), &config()).unwrap()
}

#[test]
fn test_create_or_update_user() {
    let mut table = UserTable::new();
    let user_id = UserId::new_unchecked("oidc", "test_user_1");
    let user_name = "Test User 1";

    let r = table.create_or_update(
        &user_id,
        user_name,
        None,
        UserLastUpdatedWith::CreateEndpoint,
        UserType::Human,
        T0,
    );
    assert!(matches!(r, CreateOrUpdateUserResponse::Created(_)));

    let users = list_all(&table, 10);
    assert_eq!(users.users.len(), 1);
    assert_eq!(users.users[0].id, user_id);
    assert_eq!(users.users[0].name, user_name);
    assert_eq!(users.users[0].email, None);
    assert_eq!(users.users[0].user_type, UserType::Human);

    let user_name = "Test User 1 Updated";
    let r = table.create_or_update(
        &user_id,
        user_name,
        None,
        UserLastUpdatedWith::CreateEndpoint,
        UserType::Human,
        T0 + 1,
    );
    assert!(matches!(r, CreateOrUpdateUserResponse::Updated(_)));

    let users = list_all(&table, 10);
    assert_eq!(users.users.len(), 1);
    assert_eq!(users.users[0].id, user_id);
    assert_eq!(users.users[0].name, user_name);
    assert_eq!(users.users[0].email, None);
}

#[test]
fn test_search_user() {
    let mut table = UserTable::new();
    let user_id = UserId::new_unchecked("kubernetes", "test_user_1");
    let user_name = "Test User 1";

    table.create_or_update(
        &user_id,
        user_name,
        None,
        UserLastUpdatedWith::UpdateEndpoint,
        UserType::Application,
        T0,
    );

    let search_result = table.search("Test").unwrap();
    assert_eq!(search_result.users.len(), 1);
    assert_eq!(search_result.users[0].id, user_id);
    assert_eq!(search_result.users[0].name, user_name);
    assert_eq!(search_result.users[0].user_type, UserType::Application);
}

#[test]
fn test_delete_user() {
    let mut table = UserTable::new();
    let user_id = UserId::new_unchecked("oidc", "test_user_1");
    let user_name = "Test User 1";

    table.create_or_update(
        &user_id,
        user_name,
        None,
        UserLastUpdatedWith::ConfigCallCreation,
        UserType::Application,
        T0,
    );

    assert_eq!(table.delete(&user_id, T0 + 1), Some(()));

    let users = list_all(&table, 10);
    assert_eq!(users.users.len(), 0);

    let user_id = UserId::new_unchecked("oidc", "test_user_2");
    let result = table.delete(&user_id, T0 + 2);
    assert_eq!(result, None);
}

#[test]
fn test_paginate_user() {
    let mut table = UserTable::new();
    for i in 0..10 {
        let user_id = UserId::new_unchecked("oidc", &format!("test_user_{i}"));
        let user_name = &format!("test user {i}");
        table.create_or_update(
            &user_id,
            user_name,
            None,
            UserLastUpdatedWith::ConfigCallCreation,
            UserType::Application,
            T0 + i,
        );
    }
    let users = list_all(&table, 10);
    assert_eq!(users.users.len(), 10);

    let users = list_all(&table, 5);
    assert_eq!(users.users.len(), 5);
    for (uidx, u) in users.users.iter().enumerate() {
        let user_id = UserId::new_unchecked("oidc", &format!("test_user_{uidx}"));
        let user_name = format!("test user {uidx}");
        assert_eq!(u.id, user_id);
        assert_eq!(u.name, user_name);
    }

    let users = table
        .list(None, None, page(users.next_page_token, Some(5)), &config())
        .unwrap();
    assert_eq!(users.users.len(), 5);
    for (uidx, u) in users.users.iter().enumerate() {
        let uidx = uidx + 5;
        let user_id = UserId::new_unchecked("oidc", &format!("test_user_{uidx}"));
        let user_name = format!("test user {uidx}");
        assert_eq!(u.id, user_id);
        assert_eq!(u.name, user_name);
    }

    let users = table
        .list(None, None, page(users.next_page_token, Some(5)), &config())
        .unwrap();
    assert_eq!(users.users.len(), 0);
    assert!(users.next_page_token.is_none());
}
