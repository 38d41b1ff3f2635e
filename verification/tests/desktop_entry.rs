use iumenu::freedesktop::desktop_entry::{
    clean_exec, desktop_file_id, get_available_apps, is_in_show_in, parse_desktop_file,
    read_desktop_directory, read_desktop_files, should_show, DesktopApp, DesktopFile, ListedFile,
};

fn app(id: &str, name: &str) -> DesktopApp {
    DesktopApp::new(
        id.to_string(),
        name.to_string(),
        String::new(),
        id.to_string(),
        String::new(),
        "Application".to_string(),
        String::new(),
        String::new(),
        false,
        String::new(),
    )
}

fn name_of<'a>(apps: &'a [DesktopApp], id: &str) -> Option<&'a str> {
    apps.iter().find(|a| a.id == id).map(|a| a.name.as_str())
}

const FIREFOX: &str = "[Desktop Entry]
Name=Firefox
Comment=Browse the Web
Exec=firefox %u
Icon=firefox
Type=Application
Categories=Network;WebBrowser;
Keywords=web;browser;
";

#[test]
fn clean_exec_drops_field_codes_and_trims() {
    assert_eq!(clean_exec("firefox %u"), "firefox");
    assert_eq!(clean_exec(" code --open %F %k "), "code --open");
    assert_eq!(clean_exec("app %U %f %i %c"), "app");
    assert_eq!(clean_exec("app %d %n"), "app %d %n");
    assert_eq!(clean_exec(""), "");
}

#[test]
fn clean_exec_removes_each_code_once_in_order() {
    // "%%UU" loses its inner "%U" and keeps the one that appears.
    assert_eq!(clean_exec("%%UU"), "%U");
    // "%u" is removed before "%F", so "%%uF" becomes "%F", which is removed next.
    assert_eq!(clean_exec("x %%uF"), "x");
}

#[test]
fn parse_desktop_file_reads_the_entry() {
    let a = parse_desktop_file(FIREFOX, "firefox".to_string()).unwrap();
    assert_eq!(a.id, "firefox");
    assert_eq!(a.name, "Firefox");
    assert_eq!(a.comment, "Browse the Web");
    assert_eq!(a.command, "firefox");
    assert_eq!(a.icon, "firefox");
    assert_eq!(a.app_type, "Application");
    assert_eq!(a.categories, "Network;WebBrowser;");
    assert_eq!(a.keywords, "web;browser;");
    assert_eq!(a.only_show_in, "");
    assert!(!a.no_display);
}

#[test]
fn parse_desktop_file_defaults() {
    let a = parse_desktop_file("[Desktop Entry]\nType=Application\n", "x".to_string()).unwrap();
    assert_eq!(a.name, "Unknown");
    assert_eq!(a.categories, "Unknown");
    assert_eq!(a.comment, "");
    assert_eq!(a.command, "");
    assert_eq!(a.icon, "");
    assert!(!a.no_display);
}

#[test]
fn parse_desktop_file_no_display_only_when_true() {
    let hidden = parse_desktop_file("[Desktop Entry]\nNoDisplay=true\n", "h".to_string()).unwrap();
    assert!(hidden.no_display);
    let shown = parse_desktop_file("[Desktop Entry]\nNoDisplay=True\n", "s".to_string()).unwrap();
    assert!(!shown.no_display);
}

#[test]
fn parse_desktop_file_without_entry_section() {
    assert!(parse_desktop_file("[Other]\nName=x\n", "x".to_string()).is_none());
    assert!(parse_desktop_file("", "x".to_string()).is_none());
}

#[test]
fn parse_desktop_file_rejects_malformed_ini() {
    assert!(parse_desktop_file("[Desktop Entry]\n=value\n", "x".to_string()).is_none());
}

#[test]
fn parse_desktop_file_first_section_and_first_value() {
    let text = "[Desktop Entry]\nName=First\nName=Second\n[Desktop Entry]\nName=Third\n";
    let a = parse_desktop_file(text, "x".to_string()).unwrap();
    assert_eq!(a.name, "First");
}

#[test]
fn only_show_in_lists_desktops() {
    let s = "GNOME;KDE;".to_string();
    assert!(is_in_show_in(&s, &Some("KDE".to_string())));
    assert!(is_in_show_in(&s, &Some("GNOME".to_string())));
    assert!(!is_in_show_in(&s, &Some("XFCE".to_string())));
    assert!(!is_in_show_in(&s, &Some("GNOME;KDE".to_string())));
    assert!(!is_in_show_in(&s, &Some(String::new())));
    assert!(is_in_show_in(&s, &None));
}

#[test]
fn empty_only_show_in_admits_every_desktop() {
    assert!(is_in_show_in(&String::new(), &Some("XFCE".to_string())));
    assert!(is_in_show_in(&";;".to_string(), &Some("XFCE".to_string())));
    assert!(is_in_show_in(&"KDE".to_string(), &Some("KDE".to_string())));
}

#[test]
fn should_show_tells_which_entries_to_skip() {
    let mut a = app("a", "A");
    assert!(!should_show(&a, &None));
    a.app_type = "Link".to_string();
    assert!(should_show(&a, &None));
    let mut b = app("b", "B");
    b.no_display = true;
    assert!(should_show(&b, &None));
    let mut c = app("c", "C");
    c.only_show_in = "KDE;".to_string();
    assert!(should_show(&c, &Some("GNOME".to_string())));
    assert!(!should_show(&c, &Some("KDE".to_string())));
}

#[test]
fn desktop_file_ids_come_from_the_stem() {
    assert_eq!(desktop_file_id("firefox.desktop"), Some("firefox".to_string()));
    assert_eq!(desktop_file_id("org.gnome.Terminal.desktop"), Some("org.gnome.Terminal".to_string()));
    assert_eq!(desktop_file_id("a..desktop"), Some("a.".to_string()));
    assert_eq!(desktop_file_id(".desktop"), None);
    assert_eq!(desktop_file_id("x.desktop.bak"), None);
    assert_eq!(desktop_file_id("readme"), None);
    assert_eq!(desktop_file_id("x.Desktop"), None);
}

#[test]
fn desktop_file_id_and_extension_give_back_the_name() {
    for name in ["firefox.desktop", "a.b.desktop", "é.desktop"] {
        let id = desktop_file_id(name).unwrap();
        assert!(!id.is_empty());
        assert_eq!(format!("{}.desktop", id), name);
    }
}

#[test]
fn read_desktop_files_keeps_shown_entries() {
    let files = vec![
        DesktopFile { id: "firefox".to_string(), content: FIREFOX.to_string() },
        DesktopFile {
            id: "hidden".to_string(),
            content: "[Desktop Entry]\nType=Application\nNoDisplay=true\n".to_string(),
        },
        DesktopFile { id: "link".to_string(), content: "[Desktop Entry]\nType=Link\n".to_string() },
        DesktopFile { id: "broken".to_string(), content: "[Desktop Entry]\n=x\n".to_string() },
        DesktopFile {
            id: "kde".to_string(),
            content: "[Desktop Entry]\nType=Application\nOnlyShowIn=KDE;\n".to_string(),
        },
    ];
    let apps = read_desktop_files(files, &Some("GNOME".to_string()));
    assert_eq!(apps.len(), 1);
    assert_eq!(apps[0].id, "firefox");
    for a in &apps {
        assert!(!should_show(a, &Some("GNOME".to_string())));
    }
}

#[test]
fn read_desktop_files_later_file_wins() {
    let files = vec![
        DesktopFile {
            id: "x".to_string(),
            content: "[Desktop Entry]\nType=Application\nName=One\n".to_string(),
        },
        DesktopFile {
            id: "x".to_string(),
            content: "[Desktop Entry]\nType=Application\nName=Two\n".to_string(),
        },
    ];
    let apps = read_desktop_files(files, &None);
    assert_eq!(apps.len(), 1);
    assert_eq!(apps[0].name, "Two");
}

#[test]
fn later_sources_override_earlier_ones() {
    let system = vec![app("a", "system a"), app("b", "system b"), app("c", "system c")];
    let local = vec![app("b", "local b"), app("d", "local d")];
    let user = vec![app("c", "user c"), app("d", "user d")];
    let apps = get_available_apps(system, local, user);
    assert_eq!(apps.len(), 4);
    assert_eq!(name_of(&apps, "a"), Some("system a"));
    assert_eq!(name_of(&apps, "b"), Some("local b"));
    assert_eq!(name_of(&apps, "c"), Some("user c"));
    assert_eq!(name_of(&apps, "d"), Some("user d"));
}

#[test]
fn cleaned_commands_have_no_surrounding_white_space() {
    for command in ["  firefox %u\t", "%U", " a %F b ", "\u{3000}x %k\u{a0}"] {
        let cleaned = clean_exec(command);
        assert_eq!(cleaned.trim(), cleaned);
    }
}

#[test]
fn directory_catalogue_ids_name_listed_files() {
    let listing = vec![
        ListedFile { file_name: "firefox.desktop".to_string(), content: Some(FIREFOX.to_string()) },
        ListedFile { file_name: "notes.txt".to_string(), content: Some(FIREFOX.to_string()) },
        ListedFile { file_name: "unread.desktop".to_string(), content: None },
        ListedFile {
            file_name: "gimp.desktop".to_string(),
            content: Some("[Desktop Entry]\nType=Application\nName=GIMP\n".to_string()),
        },
    ];
    let names: Vec<String> = listing.iter().map(|f| f.file_name.clone()).collect();
    let apps = read_desktop_directory(listing, &None);
    assert_eq!(apps.len(), 2);
    for a in &apps {
        assert!(names.contains(&format!("{}.desktop", a.id)));
    }
    assert_eq!(apps.iter().find(|a| a.id == "gimp").unwrap().name, "GIMP");
}
