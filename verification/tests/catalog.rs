use iumenu::app::{extend_apps, insert_app, merge_apps, AppCatalog, DesktopApp};

fn app(id: &str, name: &str) -> DesktopApp {
    DesktopApp::new(
        id.to_string(),
        name.to_string(),
        String::new(),
        String::new(),
        String::new(),
        "Application".to_string(),
        String::new(),
        String::new(),
        false,
        String::new(),
    )
}

#[test]
fn new_keeps_every_field() {
    let a = DesktopApp::new(
        "id".to_string(),
        "name".to_string(),
        "comment".to_string(),
        "cmd".to_string(),
        "kw".to_string(),
        "Application".to_string(),
        "cat".to_string(),
        "icon".to_string(),
        true,
        "KDE;".to_string(),
    );
    assert_eq!(a.id, "id");
    assert_eq!(a.name, "name");
    assert_eq!(a.comment, "comment");
    assert_eq!(a.command, "cmd");
    assert_eq!(a.keywords, "kw");
    assert_eq!(a.app_type, "Application");
    assert_eq!(a.categories, "cat");
    assert_eq!(a.icon, "icon");
    assert!(a.no_display);
    assert_eq!(a.only_show_in, "KDE;");
}

#[test]
fn insert_replaces_the_same_id() {
    let mut apps = Vec::new();
    insert_app(&mut apps, app("a", "first"));
    insert_app(&mut apps, app("b", "other"));
    insert_app(&mut apps, app("a", "second"));
    assert_eq!(apps.len(), 2);
    assert_eq!(apps.iter().find(|x| x.id == "a").unwrap().name, "second");
}

#[test]
fn extend_inserts_in_order() {
    let mut apps = vec![app("a", "old")];
    extend_apps(&mut apps, vec![app("b", "b1"), app("a", "new"), app("b", "b2")]);
    assert_eq!(apps.len(), 2);
    assert_eq!(apps.iter().find(|x| x.id == "a").unwrap().name, "new");
    assert_eq!(apps.iter().find(|x| x.id == "b").unwrap().name, "b2");
}

#[test]
fn merge_of_empty_sources_is_empty() {
    assert!(merge_apps(Vec::new(), Vec::new(), Vec::new()).is_empty());
}

#[test]
fn catalogue_keeps_one_app_per_id() {
    let mut c = AppCatalog::new();
    c.insert(app("a", "first"));
    c.insert(app("b", "b"));
    c.insert(app("a", "second"));
    let apps = c.into_apps();
    assert_eq!(apps.len(), 2);
    assert_eq!(apps.iter().find(|x| x.id == "a").unwrap().name, "second");
    assert!(AppCatalog::new().into_apps().is_empty());
}
