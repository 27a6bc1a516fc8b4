use dungeon_router_api::storage::{
    nonempty_parent, sqlite_file, sqlite_parent_path, DEFAULT_DATABASE_URL,
};

#[test]
fn sqlite_files_are_read_from_urls() {
    assert_eq!(sqlite_file(DEFAULT_DATABASE_URL).as_deref(), Some("data/dungeon-router.db"));
    assert_eq!(sqlite_file("sqlite://:memory:"), None);
    assert_eq!(sqlite_file("sqlite://?mode=memory"), None);
    assert_eq!(sqlite_file("postgres://db"), None);
}

#[test]
fn parent_directories_are_created_only_when_named() {
    assert_eq!(sqlite_parent_path(DEFAULT_DATABASE_URL).as_deref(), Some("data"));
    assert_eq!(sqlite_parent_path("sqlite://a/b/c.db").as_deref(), Some("a/b"));
    assert_eq!(
        sqlite_parent_path("sqlite:///app/data/dungeon-router.db?mode=rwc").as_deref(),
        Some("/app/data")
    );
    assert_eq!(sqlite_parent_path("sqlite:///db.sqlite").as_deref(), Some("/"));
    assert_eq!(sqlite_parent_path("sqlite://local.db"), None);
    assert_eq!(sqlite_parent_path("sqlite::memory:"), None);
    assert_eq!(nonempty_parent(Some(String::new())), None);
    assert_eq!(nonempty_parent(None), None);
}
