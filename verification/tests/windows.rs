use iumenu::windows::app_finder::{
    clean_icon_path, clean_windows_path, get_available_apps, get_registry_apps, is_exe_path,
    is_lnk_file,
    parse_lnk_file, parse_registry_app, RegistryAppError, RegistryEntry,
};
use iumenu::app::DesktopApp;

fn entry(key: &str) -> RegistryEntry {
    RegistryEntry {
        key_name: key.to_string(),
        display_name: Some(format!("{} app", key)),
        display_icon: None,
        install_location: None,
        publisher: None,
        uninstall_string: None,
    }
}

#[test]
fn windows_path_without_quotes_and_arguments() {
    assert_eq!(
        clean_windows_path("  \"C:\\Program Files\\App\\app.exe\" --uninstall "),
        "C:\\Program Files\\App\\app.exe"
    );
    assert_eq!(clean_windows_path("C:\\a.exe,0"), "C:\\a.exe");
    assert_eq!(clean_windows_path(" \"C:\\tool\\run.bat\" "), "C:\\tool\\run.bat");
    assert_eq!(clean_windows_path("C:\\APP.EXE"), "C:\\APP.EXE");
}

#[test]
fn windows_path_exe_found_in_any_case() {
    assert_eq!(clean_windows_path("\"C:/APP/UNINST.EXE\" /S"), "C:/APP/UNINST.EXE");
    assert_eq!(clean_windows_path("\"C:/App/Setup.Exe\" --remove"), "C:/App/Setup.Exe");
    assert_eq!(clean_windows_path("MsiExec.exe /X{1234}"), "MsiExec.exe");
}

#[test]
fn icon_path_without_index() {
    assert_eq!(clean_icon_path("\"C:\\x\\app.exe\",0"), "C:\\x\\app.exe");
    assert_eq!(clean_icon_path("\"C:/App/app.exe\",0"), "C:/App/app.exe");
    assert_eq!(clean_icon_path(" \"C:\\x\\app.ico\" , 2"), "C:\\x\\app.ico");
    assert_eq!(clean_icon_path("C:\\x\\app.exe,0"), "C:\\x\\app.exe");
    assert_eq!(clean_icon_path(" C:\\x\\app.ico "), "C:\\x\\app.ico");
}

#[test]
fn exe_check_is_on_lowercased_text() {
    assert!(is_exe_path("c:\\a.exe"));
    assert!(!is_exe_path("c:\\a.EXE"));
}

#[test]
fn registry_entry_without_name() {
    let mut e = entry("k");
    e.display_name = None;
    e.uninstall_string = Some("C:\\u.exe".to_string());
    assert_eq!(parse_registry_app(&e).err(), Some(RegistryAppError::MissingDisplayName));
}

#[test]
fn registry_entry_without_command() {
    let e = entry("k");
    assert_eq!(parse_registry_app(&e).err(), Some(RegistryAppError::MissingRequiredFields));
    let mut blank = entry("k");
    blank.display_name = Some(String::new());
    blank.install_location = Some("C:\\App".to_string());
    assert_eq!(parse_registry_app(&blank).err(), Some(RegistryAppError::MissingRequiredFields));
}

#[test]
fn registry_command_from_executable_icon() {
    let mut e = entry("App");
    e.display_icon = Some(" C:\\App\\APP.EXE".to_string());
    e.uninstall_string = Some("C:\\App\\uninstall.exe /S".to_string());
    e.publisher = Some("Vendor".to_string());
    let a = parse_registry_app(&e).ok().unwrap();
    assert_eq!(a.command, "C:\\App\\APP.EXE");
    assert_eq!(a.icon, "C:\\App\\APP.EXE");
    assert_eq!(a.comment, "Vendor");
    assert_eq!(a.id, "App");
    assert_eq!(a.name, "App app");
    assert_eq!(a.app_type, "Application");
}

#[test]
fn registry_icon_with_index_is_not_an_executable() {
    let mut e = entry("App");
    e.display_icon = Some("\"C:\\App\\app.exe\",0".to_string());
    e.uninstall_string = Some("C:\\App\\uninstall.exe /S".to_string());
    let a = parse_registry_app(&e).ok().unwrap();
    assert_eq!(a.command, "C:\\App\\uninstall.exe");
    assert_eq!(a.icon, "C:\\App\\app.exe");
}

#[test]
fn registry_command_from_uninstall_string() {
    let mut e = entry("App");
    e.display_icon = Some("C:\\App\\app.ico".to_string());
    e.uninstall_string = Some("\"C:\\App\\uninstall.exe\" /S".to_string());
    let a = parse_registry_app(&e).ok().unwrap();
    assert_eq!(a.command, "C:\\App\\uninstall.exe");
    assert_eq!(a.icon, "C:\\App\\app.ico");
}

#[test]
fn registry_command_from_icon_or_install_location() {
    let mut e = entry("App");
    e.display_icon = Some("C:\\App\\app.ico".to_string());
    e.install_location = Some("C:\\App".to_string());
    assert_eq!(parse_registry_app(&e).ok().unwrap().command, "C:\\App\\app.ico");
    let mut f = entry("App");
    f.install_location = Some("C:\\App".to_string());
    let a = parse_registry_app(&f).ok().unwrap();
    assert_eq!(a.command, "C:\\App");
    assert_eq!(a.icon, "");
}

#[test]
fn user_registry_overrides_machine() {
    let mut m = entry("k");
    m.install_location = Some("C:\\machine".to_string());
    let mut u = entry("k");
    u.install_location = Some("C:\\user".to_string());
    let mut other = entry("o");
    other.install_location = Some("C:\\other".to_string());
    let apps = get_registry_apps(&vec![m, other], &vec![u, entry("skipped")]);
    assert_eq!(apps.len(), 2);
    assert_eq!(apps.iter().find(|a| a.id == "k").unwrap().command, "C:\\user");
}

#[test]
fn shortcut_needs_a_target() {
    let none = parse_lnk_file("C:\\l.lnk".to_string(), "l".to_string(), None, Some(String::new()), None);
    assert!(none.is_none());
    let a = parse_lnk_file(
        "C:\\l.lnk".to_string(),
        "l".to_string(),
        Some("desc".to_string()),
        Some("C:\\l.exe".to_string()),
        None,
    )
    .unwrap();
    assert_eq!(a.id, "C:\\l.lnk");
    assert_eq!(a.name, "l");
    assert_eq!(a.comment, "desc");
    assert_eq!(a.command, "C:\\l.exe");
    assert_eq!(a.icon, "");
}

#[test]
fn windows_sources_merge_in_order() {
    let mk = |id: &str, name: &str| {
        DesktopApp::new(
            id.to_string(),
            name.to_string(),
            String::new(),
            String::new(),
            String::new(),
            "Application".to_string(),
            String::new(),
            String::new(),
            false,
            String::new(),
        )
    };
    let apps = get_available_apps(vec![mk("a", "reg")], vec![mk("a", "start")], vec![mk("b", "user")]);
    assert_eq!(apps.len(), 2);
    assert_eq!(apps.iter().find(|x| x.id == "a").unwrap().name, "start");
}

#[test]
fn cleaned_icon_paths_hold_no_comma() {
    for icon in ["a,b,c", "\"x\",1", ",", "plain", " \"q,\" "] {
        assert!(!clean_icon_path(icon).contains(','));
    }
}

#[test]
fn registry_apps_are_complete() {
    let mut e = entry("Key");
    e.uninstall_string = Some("C:\\u.exe".to_string());
    let a = parse_registry_app(&e).ok().unwrap();
    assert_eq!(a.id, "Key");
    assert!(!a.name.is_empty());
    assert!(!a.command.is_empty());
    assert_eq!(a.app_type, "Application");
    assert!(!a.no_display);
}

#[test]
fn shortcut_files_have_the_lnk_extension() {
    assert!(is_lnk_file("Firefox.lnk"));
    assert!(is_lnk_file("a.b.lnk"));
    assert!(!is_lnk_file(".lnk"));
    assert!(!is_lnk_file("x.LNK"));
    assert!(!is_lnk_file("x.lnk.bak"));
    assert!(!is_lnk_file("lnk"));
}
