//! Turning registry entries and shortcuts into applications.

use vstd::prelude::*;

use crate::app::{
    AppView, DesktopApp, catalog, insert_app, lemma_catalog_push, merge_apps, unique_ids, views,
};
use vstd::utf8::is_ascii_chars;

use crate::text::{
    range_equals,
    ascii_fold, ends_with, ends_with_str, extension_of, find, find_ignoring_ascii_case,
    lemma_extension_of, lemma_extension_of_shape, lemma_find_ignoring_ascii_case,
    lemma_trim_end_shape, same_ignoring_ascii_case, strip_end, strip_start, trim_end, trim_start,
    is_space,
    find_ignoring_ascii_case_str, find_str, last_index_of_char, lemma_find,
    lemma_last_index_of, lemma_trim_chars, lemma_trim_matches_chars, opt_view, trim, trim_matches,
    trim_matches_str, trim_str,
};

verus! {

/// A path from the registry as an executable path: trimmed, cut after the
/// first `.exe` (ASCII case ignored) when it holds one, which drops the
/// arguments that follow, and without the quotes around it.
pub open spec fn cleaned_windows_path(path: Seq<char>) -> Seq<char> {
    let t = trim(path);
    match find_ignoring_ascii_case(t, ".exe"@) {
        Some(i) => trim_matches(t.take(i + 4), '"'),
        None => trim_matches(t, '"'),
    }
}

/// Cleans up a path from the registry: removes the quotes and, where it
/// names an `.exe`, keeps only the path of the executable.
pub fn clean_windows_path(path: &str) -> (r: String)
    ensures
        r@ == cleaned_windows_path(path@),
{
    let trimmed = trim_str(path);
    let t = trimmed.as_str();
    proof {
        reveal_strlit(".exe");
    }
    let n = t.unicode_len();
    match find_ignoring_ascii_case_str(t, ".exe") {
        Some(i) => {
            assert(i + 4 <= n);
            let exe = t.substring_char(0, i + 4);
            assert(t@.subrange(0, i + 4) =~= t@.take(i + 4));
            trim_matches_str(exe, '"')
        },
        None => trim_matches_str(t, '"'),
    }
}

/// The four characters of `.exe` in some ASCII case.
pub open spec fn is_exe_suffix(exe: Seq<char>) -> bool {
    &&& exe.len() == 4
    &&& exe[0] == '.'
    &&& exe[1] == 'e' || exe[1] == 'E'
    &&& exe[2] == 'x' || exe[2] == 'X'
    &&& exe[3] == 'e' || exe[3] == 'E'
}

/// In text that starts with `lead`, a path `p` without `.` and `.exe` in
/// some case, the first `.exe` found ignoring ASCII case is the one after `p`.
proof fn lemma_exe_found_after(lead: Seq<char>, p: Seq<char>, exe: Seq<char>, t: Seq<char>)
    requires
        lead == Seq::<char>::empty() || lead == seq!['"'],
        forall|i: int| 0 <= i < p.len() ==> p[i] != '.',
        is_exe_suffix(exe),
        t.len() >= lead.len() + p.len() + 4,
        t.take(lead.len() + p.len() + 4int) == lead + p + exe,
    ensures
        find_ignoring_ascii_case(t, ".exe"@) == Some((lead.len() + p.len()) as int),
{
    reveal_strlit(".exe");
    let m: int = (lead.len() + p.len()) as int;
    let q = lead + p + exe;
    assert(".exe"@ =~= seq!['.', 'e', 'x', 'e']);
    lemma_find_ignoring_ascii_case(t, ".exe"@);
    assert(t.subrange(m, m + 4) =~= exe) by {
        assert forall|k: int| 0 <= k < 4 implies t.subrange(m, m + 4)[k] == exe[k] by {
            assert(t.subrange(m, m + 4)[k] == t[m + k]);
            assert(t[m + k] == t.take(m + 4)[m + k]);
            assert(q[m + k] == exe[k]);
        }
    }
    assert(same_ignoring_ascii_case(t.subrange(m, m + 4), ".exe"@));
    let i = find_ignoring_ascii_case(t, ".exe"@).unwrap();
    if i < m {
        assert(same_ignoring_ascii_case(t.subrange(i, i + 4), ".exe"@));
        assert(ascii_fold(t.subrange(i, i + 4)[0]) == ascii_fold('.'));
        assert(t.subrange(i, i + 4)[0] == t[i]);
        assert(t[i] == t.take(m + 4)[i]);
        assert(ascii_fold('.') == 46);
        let c = t[i];
        assert(c as u32 == 46);
        if i < lead.len() {
            assert(q[i] == '"');
            assert(('"' as u32) == 34);
        } else {
            assert(q[i] == p[i - lead.len()]);
            assert(c != '.');
            vstd::utf8::char_u32_cast(c, 46u32);
            vstd::utf8::char_u32_cast('.', 46u32);
        }
        assert(false);
    }
}

/// Law: a registry command that starts with the path of an executable (with
/// no `.` before its `.exe`, which may be in any ASCII case), quoted or not,
/// becomes that path: the arguments after the `.exe` and the quotes are
/// dropped.
pub proof fn lemma_cleaned_windows_path(p: Seq<char>, exe: Seq<char>, rest: Seq<char>)
    requires
        p.len() > 0,
        !is_space(p[0]),
        forall|i: int| 0 <= i < p.len() ==> p[i] != '.' && p[i] != '"',
        is_exe_suffix(exe),
    ensures
        cleaned_windows_path(p + exe + rest) == p + exe,
        cleaned_windows_path(seq!['"'] + p + exe + seq!['"'] + rest) == p + exe,
{
    let pe = p + exe;
    assert(pe[0] == p[0]);
    assert(pe.last() == exe[3]);
    // Unquoted.
    let s = p + exe + rest;
    let n: int = pe.len() as int;
    assert(s[0] == p[0]);
    assert(trim_start(s) == s);
    lemma_trim_end_shape(s);
    let t = trim_end(s);
    assert(s[n - 1] == exe[3]);
    assert(t.len() >= n);
    assert(t.take(n) =~= Seq::<char>::empty() + p + exe);
    lemma_exe_found_after(Seq::<char>::empty(), p, exe, t);
    assert(t.take(p.len() + 4int) =~= pe);
    assert(strip_start(pe, '"') == pe);
    assert(strip_end(pe, '"') == pe);
    // Quoted.
    let lead = seq!['"'];
    let s2 = lead + p + exe + seq!['"'] + rest;
    assert(s2 =~= seq!['"'] + p + exe + seq!['"'] + rest);
    assert(s2[0] == '"');
    assert(trim_start(s2) == s2);
    lemma_trim_end_shape(s2);
    let t2 = trim_end(s2);
    assert(s2[n + 1] == '"');
    assert(t2.len() >= n + 2);
    assert(t2.take(n + 1) =~= lead + p + exe);
    lemma_exe_found_after(lead, p, exe, t2);
    let cut = t2.take(1 + p.len() + 4int);
    assert(cut =~= lead + pe);
    assert(cut[0] == '"');
    assert(cut.skip(1) =~= pe);
    assert(strip_start(cut, '"') == strip_start(pe, '"'));
}

/// An icon location (`path` or `path,index`) as the icon's file: the index
/// after the first comma cut off, then white space and quotes removed from
/// both ends.
pub open spec fn cleaned_icon_path(icon: Seq<char>) -> Seq<char> {
    let p = match find(icon, ","@) {
        Some(i) => icon.take(i),
        None => icon,
    };
    trim_matches(trim(p), '"')
}

/// The file of an icon location, without its index.
pub fn clean_icon_path(icon: &str) -> (r: String)
    ensures
        r@ == cleaned_icon_path(icon@),
{
    proof {
        reveal_strlit(",");
    }
    let n = icon.unicode_len();
    let path = match find_str(icon, ",") {
        Some(i) => {
            assert(i + 1 <= n);
            assert(icon@.subrange(0, i as int) =~= icon@.take(i as int));
            icon.substring_char(0, i)
        },
        None => icon,
    };
    let trimmed = trim_str(path);
    trim_matches_str(trimmed.as_str(), '"')
}

/// Law: a cleaned icon path holds no comma.
pub proof fn lemma_icon_path_has_no_comma(icon: Seq<char>)
    ensures
        forall|k: int| 0 <= k < cleaned_icon_path(icon).len() ==> #[trigger] cleaned_icon_path(
            icon,
        )[k] != ',',
{
    reveal_strlit(",");
    assert(","@ =~= seq![',']);
    lemma_find(icon, ","@);
    let p = match find(icon, ","@) {
        Some(i) => icon.take(i),
        None => icon,
    };
    assert forall|k: int| 0 <= k < p.len() implies #[trigger] p[k] != ',' by {
        assert(icon.subrange(k, k + 1) != ","@);
        assert(icon.subrange(k, k + 1) =~= seq![icon[k]]);
        assert(p[k] == icon[k]);
    }
    lemma_trim_chars(p);
    lemma_trim_matches_chars(trim(p), '"');
    let r = cleaned_icon_path(icon);
    assert forall|k: int| 0 <= k < r.len() implies #[trigger] r[k] != ',' by {
        assert(trim(p).contains(r[k]));
        let j = choose|j: int| 0 <= j < trim(p).len() && trim(p)[j] == r[k];
        assert(p.contains(trim(p)[j]));
    }
}

/// Law: the icon file of a location `path,index` is its path part, and a
/// location without a comma is a path alone; either way white space and
/// then quotes are removed from both ends. So a plain path, or one in
/// quotes, followed by `,` and an index gives back the plain path.
pub proof fn lemma_cleaned_icon_path(p: Seq<char>, index: Seq<char>)
    requires
        forall|i: int| 0 <= i < p.len() ==> p[i] != ',',
    ensures
        cleaned_icon_path(p + seq![','] + index) == trim_matches(trim(p), '"'),
        cleaned_icon_path(p) == trim_matches(trim(p), '"'),
        p.len() > 0 && !is_space(p[0]) && !is_space(p.last()) && (forall|i: int|
            0 <= i < p.len() ==> p[i] != '"') ==> cleaned_icon_path(p + seq![','] + index) == p
            && cleaned_icon_path(seq!['"'] + p + seq!['"'] + seq![','] + index) == p,
{
    reveal_strlit(",");
    assert(","@ =~= seq![',']);
    let s = p + seq![','] + index;
    lemma_find(s, ","@);
    let m = p.len() as int;
    assert(s.subrange(m, m + 1) =~= ","@);
    if let Some(i) = find(s, ","@) {
        if i < m {
            assert(s.subrange(i, i + 1)[0] == s[i]);
            assert(s[i] == p[i]);
        }
    }
    assert(s.take(m) =~= p);
    lemma_find(p, ","@);
    if let Some(i) = find(p, ","@) {
        assert(p.subrange(i, i + 1)[0] == p[i]);
    }
    if p.len() > 0 && !is_space(p[0]) && !is_space(p.last()) && (forall|i: int|
        0 <= i < p.len() ==> p[i] != '"') {
        assert(trim_start(p) == p);
        assert(trim(p) == p);
        assert(strip_start(p, '"') == p);
        assert(strip_end(p, '"') == p);
        let q = seq!['"'] + p + seq!['"'];
        let s2 = q + seq![','] + index;
        assert(s2 =~= seq!['"'] + p + seq!['"'] + seq![','] + index);
        lemma_find(s2, ","@);
        let m2 = q.len() as int;
        assert(s2.subrange(m2, m2 + 1) =~= ","@);
        if let Some(i) = find(s2, ","@) {
            if i < m2 {
                assert(s2.subrange(i, i + 1)[0] == s2[i]);
                assert(s2[i] == q[i]);
                if 0 < i < m2 - 1 {
                    assert(q[i] == p[i - 1]);
                }
            }
        }
        assert(s2.take(m2) =~= q);
        assert(q[0] == '"');
        assert(trim_start(q) == q);
        assert(q.last() == '"');
        assert(trim_end(q) == q);
        assert(q.skip(1) =~= p + seq!['"']);
        assert((p + seq!['"'])[0] == p[0]);
        assert(strip_start(p + seq!['"'], '"') == p + seq!['"']);
        assert((p + seq!['"']).drop_last() =~= p);
        assert(strip_end(p + seq!['"'], '"') == strip_end(p, '"'));
    }
}

/// The text that `str::to_lowercase` makes of `s`.
pub uninterp spec fn lowercase(s: Seq<char>) -> Seq<char>;

/// Lower-cases `s` with `str::to_lowercase`. The contract claims that the
/// result is a function of `s`, named by `lowercase`, and that ASCII text
/// is lower-cased character by character (`A`-`Z` to `a`-`z`, any other
/// ASCII character kept); the Unicode case mapping of other characters is
/// not stated.
#[verifier::external_body]
fn to_lowercase(s: &str) -> (r: String)
    ensures
        r@ == lowercase(s@),
        is_ascii_chars(s@) ==> r@.len() == s@.len() && forall|i: int|
            0 <= i < s@.len() ==> r@[i] as u32 == ascii_fold(s@[i]),
{
    s.to_lowercase()
}

/// Whether a lower-cased path names an executable (ends with `.exe`).
pub fn is_exe_path(lowercased: &str) -> (r: bool)
    ensures
        r == ends_with(lowercased@, ".exe"@),
{
    ends_with_str(lowercased, ".exe")
}

/// Whether a directory entry named `file_name` is a shortcut (extension
/// `lnk`).
pub fn is_lnk_file(file_name: &str) -> (r: bool)
    ensures
        r == (extension_of(file_name@) == Some("lnk"@)),
        forall|stem: Seq<char>|
            stem.len() > 0 && file_name@ == #[trigger] (stem + ".lnk"@) ==> r,
        r ==> file_name@.len() > ".lnk"@.len() && file_name@.skip(
            file_name@.len() - ".lnk"@.len(),
        ) == ".lnk"@,
{
    let n = file_name.unicode_len();
    let j = last_index_of_char(file_name, '.');
    proof {
        lemma_last_index_of(file_name@, '.');
        reveal_strlit(".lnk");
        reveal_strlit("lnk");
        assert(".lnk"@ =~= seq!['.'] + "lnk"@);
        assert forall|stem: Seq<char>|
            stem.len() > 0 && file_name@ == #[trigger] (stem + ".lnk"@) implies extension_of(
            file_name@,
        ) == Some("lnk"@) by {
            assert(stem + ".lnk"@ =~= stem + seq!['.'] + "lnk"@);
            lemma_extension_of(stem, "lnk"@);
        }
        lemma_extension_of_shape(file_name@);
        if extension_of(file_name@) == Some("lnk"@) {
            let m = file_name@.len();
            assert(file_name@.skip(m - 4) =~= seq!['.'] + "lnk"@);
        }
    }
    assert(file_name@.subrange(j as int, n as int) =~= file_name@.skip(j as int));
    j > 1 && range_equals(file_name, j, n, "lnk")
}

/// The values of one uninstall entry of the registry (`None` for a value
/// that is missing or not text).
pub struct RegistryEntry {
    /// The name of the entry's key.
    pub key_name: String,
    pub display_name: Option<String>,
    pub display_icon: Option<String>,
    pub install_location: Option<String>,
    pub publisher: Option<String>,
    pub uninstall_string: Option<String>,
}

/// Why an uninstall entry gives no application.
#[derive(Debug, PartialEq, Eq, Structural)]
pub enum RegistryAppError {
    /// The entry has no display name.
    MissingDisplayName,
    /// The display name is empty or no command could be found.
    MissingRequiredFields,
}

/// The text of an optional value, the empty text when it is missing.
pub open spec fn or_empty(value: Option<Seq<char>>) -> Seq<char> {
    match value {
        Some(v) => v,
        None => Seq::empty(),
    }
}

/// The command of an uninstall entry: the display icon when it names an
/// executable, else the uninstall command, else the display icon, else the
/// install location (each path cleaned), else nothing.
pub open spec fn registry_command(
    display_icon: Option<Seq<char>>,
    uninstall_string: Option<Seq<char>>,
    install_location: Option<Seq<char>>,
) -> Seq<char> {
    let icon = or_empty(display_icon);
    if icon.len() > 0 && ends_with(lowercase(icon), ".exe"@) {
        cleaned_windows_path(icon)
    } else if uninstall_string is Some {
        cleaned_windows_path(uninstall_string.unwrap())
    } else if display_icon is Some {
        cleaned_windows_path(display_icon.unwrap())
    } else if or_empty(install_location).len() > 0 {
        or_empty(install_location)
    } else {
        Seq::empty()
    }
}

/// The application that an uninstall entry describes.
pub open spec fn registry_app(entry: RegistryEntry) -> Result<AppView, RegistryAppError> {
    match entry.display_name {
        None => Err(RegistryAppError::MissingDisplayName),
        Some(name) => {
            let command = registry_command(
                opt_view(entry.display_icon),
                opt_view(entry.uninstall_string),
                opt_view(entry.install_location),
            );
            let icon = or_empty(opt_view(entry.display_icon));
            if name@.len() == 0 || command.len() == 0 {
                Err(RegistryAppError::MissingRequiredFields)
            } else {
                Ok(
                    AppView {
                        id: entry.key_name@,
                        name: name@,
                        comment: or_empty(opt_view(entry.publisher)),
                        command: command,
                        keywords: Seq::empty(),
                        app_type: "Application"@,
                        categories: Seq::empty(),
                        no_display: false,
                        only_show_in: Seq::empty(),
                        icon: if icon.len() > 0 {
                            cleaned_icon_path(icon)
                        } else {
                            Seq::empty()
                        },
                    },
                )
            }
        },
    }
}

/// Law: an application made from an uninstall entry is named and typed
/// `Application`, has a command, and has the entry's key name as its id.
pub proof fn lemma_registry_app_complete(entry: RegistryEntry)
    ensures
        registry_app(entry) matches Ok(app) ==> {
            &&& app.id == entry.key_name@
            &&& app.name.len() > 0
            &&& app.command.len() > 0
            &&& app.app_type == "Application"@
            &&& !app.no_display
        },
{
}

/// Law: what an uninstall entry gives. Without a display name it gives no
/// application, and with an empty one neither. An application has the
/// entry's key name as id, its display name, its publisher as comment and
/// the file of its display icon as icon. Its command is the display icon's
/// path when the icon names an executable; failing that the uninstall
/// command's path; failing that the display icon's path; failing that the
/// install location; an entry with none of these gives no application.
pub proof fn lemma_registry_app_fields(entry: RegistryEntry)
    ensures
        entry.display_name is None ==> registry_app(entry) == Err::<AppView, RegistryAppError>(
            RegistryAppError::MissingDisplayName,
        ),
        entry.display_name matches Some(n) ==> (n@.len() == 0 ==> registry_app(entry) == Err::<
            AppView,
            RegistryAppError,
        >(RegistryAppError::MissingRequiredFields)),
        entry.display_name is Some && entry.display_icon is None && entry.uninstall_string is None
            && (entry.install_location is None || entry.install_location->0@.len() == 0)
            ==> registry_app(entry) is Err,
        registry_app(entry) matches Ok(app) ==> {
            &&& app.id == entry.key_name@
            &&& app.name == entry.display_name->0@
            &&& (entry.publisher matches Some(p) ==> app.comment == p@)
            &&& (entry.publisher is None ==> app.comment.len() == 0)
            &&& (entry.display_icon matches Some(i) ==> (i@.len() > 0 ==> app.icon
                == cleaned_icon_path(i@)))
            &&& (entry.display_icon matches Some(i) ==> (i@.len() == 0 ==> app.icon.len() == 0))
            &&& (entry.display_icon is None ==> app.icon.len() == 0)
            &&& (entry.display_icon matches Some(i) ==> (i@.len() > 0 && ends_with(
                lowercase(i@),
                ".exe"@,
            ) ==> app.command == cleaned_windows_path(i@)))
            &&& (entry.uninstall_string matches Some(u) ==> (!(entry.display_icon is Some
                && entry.display_icon->0@.len() > 0 && ends_with(
                lowercase(entry.display_icon->0@),
                ".exe"@,
            )) ==> app.command == cleaned_windows_path(u@)))
            &&& (entry.display_icon matches Some(i) ==> (entry.uninstall_string is None && !(i@.len()
                > 0 && ends_with(lowercase(i@), ".exe"@)) ==> app.command == cleaned_windows_path(
                i@,
            )))
            &&& (entry.display_icon is None && entry.uninstall_string is None ==> app.command
                == entry.install_location->0@)
            &&& app.command.len() > 0
            &&& app.app_type == "Application"@
            &&& !app.no_display
        },
        entry.display_name matches Some(n) ==> (n@.len() > 0 && entry.display_icon is None
            && entry.uninstall_string is None ==> (entry.install_location matches Some(l) ==> (
        l@.len() > 0 ==> registry_app(entry) is Ok))),
        entry.display_name matches Some(n) ==> (n@.len() > 0 && !(entry.display_icon is Some
            && entry.display_icon->0@.len() > 0 && ends_with(
            lowercase(entry.display_icon->0@),
            ".exe"@,
        )) ==> (entry.uninstall_string matches Some(u) ==> (cleaned_windows_path(u@).len() > 0
            ==> registry_app(entry) is Ok))),
        entry.display_name matches Some(n) ==> (entry.display_icon matches Some(i) ==> (n@.len()
            > 0 && i@.len() > 0 && ends_with(lowercase(i@), ".exe"@) && cleaned_windows_path(
            i@,
        ).len() > 0 ==> registry_app(entry) is Ok)),
{
}

/// The text of an optional value, the empty text when it is missing.
fn value_or_empty(value: &Option<String>) -> (r: String)
    ensures
        r@ == or_empty(opt_view(*value)),
{
    match value {
        Some(v) => v.clone(),
        None => String::new(),
    }
}

/// The application that an uninstall entry of the registry describes, named
/// by the entry's key and using the publisher as its comment.
pub fn parse_registry_app(entry: &RegistryEntry) -> (r: Result<DesktopApp, RegistryAppError>)
    ensures
        match r {
            Ok(app) => registry_app(*entry) == Ok::<AppView, RegistryAppError>(app@),
            Err(e) => registry_app(*entry) == Err::<AppView, RegistryAppError>(e),
        },
{
    let display_name = match &entry.display_name {
        Some(n) => n.clone(),
        None => {
            return Err(RegistryAppError::MissingDisplayName);
        },
    };
    let display_icon = value_or_empty(&entry.display_icon);
    let install_location = value_or_empty(&entry.install_location);
    let publisher = value_or_empty(&entry.publisher);
    let icon_lower = to_lowercase(display_icon.as_str());
    let command = if display_icon.as_str().unicode_len() > 0 && is_exe_path(icon_lower.as_str()) {
        clean_windows_path(display_icon.as_str())
    } else if let Some(uninstall) = &entry.uninstall_string {
        clean_windows_path(uninstall.as_str())
    } else if let Some(icon_value) = &entry.display_icon {
        clean_windows_path(icon_value.as_str())
    } else if install_location.as_str().unicode_len() > 0 {
        install_location.clone()
    } else {
        String::new()
    };
    if display_name.as_str().unicode_len() == 0 || command.as_str().unicode_len() == 0 {
        return Err(RegistryAppError::MissingRequiredFields);
    }
    let icon = if display_icon.as_str().unicode_len() > 0 {
        clean_icon_path(display_icon.as_str())
    } else {
        String::new()
    };
    let app = DesktopApp::new(
        entry.key_name.clone(),
        display_name,
        publisher,
        command,
        String::new(),
        "Application".to_owned(),
        String::new(),
        icon,
        false,
        String::new(),
    );
    Ok(app)
}

/// The applications that the uninstall entries describe, in order.
pub open spec fn registry_apps(entries: Seq<RegistryEntry>) -> Seq<AppView>
    decreases entries.len(),
{
    if entries.len() == 0 {
        Seq::empty()
    } else {
        let before = registry_apps(entries.drop_last());
        match registry_app(entries.last()) {
            Ok(app) => before.push(app),
            Err(_) => before,
        }
    }
}

/// Law: the applications of uninstall entries are, in the entries' order,
/// exactly those that the entries describe; entries that describe none are
/// skipped.
pub proof fn lemma_registry_apps_filter(entries: Seq<RegistryEntry>)
    ensures
        registry_apps(entries) == entries.filter_map(
            |e: RegistryEntry|
                match registry_app(e) {
                    Ok(app) => Some(app),
                    Err(_) => None,
                },
        ),
    decreases entries.len(),
{
    if entries.len() > 0 {
        lemma_registry_apps_filter(entries.drop_last());
        let before = registry_apps(entries.drop_last());
        match registry_app(entries.last()) {
            Ok(app) => {
                assert(before.push(app) =~= before + seq![app]);
            },
            Err(_) => {},
        }
    }
}

/// Law: the catalogue filled with the applications of uninstall entries, in
/// order, holds an application under a name exactly when some entry with
/// that key name describes one; under that name it holds the application of
/// the last such entry.
#[verifier::spinoff_prover]
#[verifier::rlimit(40)]
pub proof fn lemma_registry_catalog(entries: Seq<RegistryEntry>)
    ensures
        forall|k: Seq<char>| #[trigger]
            catalog(registry_apps(entries)).contains_key(k) <==> exists|i: int|
                0 <= i < entries.len() && registry_app(#[trigger] entries[i]) is Ok
                    && entries[i].key_name@ == k,
        forall|i: int|
            0 <= i < entries.len() ==> match registry_app(#[trigger] entries[i]) {
                Ok(app) => (forall|j: int|
                    i < j < entries.len() && registry_app(#[trigger] entries[j]) is Ok
                        ==> entries[j].key_name@ != entries[i].key_name@) ==> catalog(
                    registry_apps(entries),
                ).contains_key(entries[i].key_name@) && catalog(registry_apps(entries))[entries[i].key_name@]
                    == app,
                Err(_) => true,
            },
    decreases entries.len(),
{
    if entries.len() > 0 {
        let n = entries.len() - 1;
        let init = entries.drop_last();
        let last = entries.last();
        assert(entries[n] == last);
        lemma_registry_catalog(init);
        let before = registry_apps(init);
        let m0 = catalog(before);
        let m = catalog(registry_apps(entries));
        match registry_app(last) {
            Ok(app) => {
                lemma_catalog_push(before, app);
                assert(m == m0.insert(last.key_name@, app));
            },
            Err(_) => {
                assert(m == m0);
            },
        }
        assert forall|k: Seq<char>| #[trigger] m.contains_key(k) <==> exists|i: int|
            0 <= i < entries.len() && registry_app(#[trigger] entries[i]) is Ok
                && entries[i].key_name@ == k by {
            if m.contains_key(k) {
                if !(registry_app(last) is Ok && last.key_name@ == k) {
                    assert(m0.contains_key(k));
                    let i = choose|i: int|
                        0 <= i < init.len() && registry_app(#[trigger] init[i]) is Ok
                            && init[i].key_name@ == k;
                    assert(entries[i] == init[i]);
                }
            }
            if exists|i: int|
                0 <= i < entries.len() && registry_app(#[trigger] entries[i]) is Ok
                    && entries[i].key_name@ == k {
                let i = choose|i: int|
                    0 <= i < entries.len() && registry_app(#[trigger] entries[i]) is Ok
                        && entries[i].key_name@ == k;
                if i < n {
                    assert(init[i] == entries[i]);
                }
            }
        }
        assert forall|i: int| 0 <= i < entries.len() implies match registry_app(
            #[trigger] entries[i],
        ) {
            Ok(app) => (forall|j: int|
                i < j < entries.len() && registry_app(#[trigger] entries[j]) is Ok
                    ==> entries[j].key_name@ != entries[i].key_name@) ==> m.contains_key(
                entries[i].key_name@,
            ) && m[entries[i].key_name@] == app,
            Err(_) => true,
        } by {
            if i < n {
                assert(init[i] == entries[i]);
                if registry_app(entries[i]) is Ok && (forall|j: int|
                    i < j < entries.len() && registry_app(#[trigger] entries[j]) is Ok
                        ==> entries[j].key_name@ != entries[i].key_name@) {
                    assert forall|j: int|
                        i < j < init.len() && registry_app(#[trigger] init[j]) is Ok implies init[j].key_name@
                            != init[i].key_name@ by {
                        assert(init[j] == entries[j]);
                    }
                }
            }
        }
    }
}

/// The catalogue of the applications that the uninstall entries of the
/// machine and then of the user describe; a later entry with the same key
/// name replaces an earlier one.
pub fn get_registry_apps(machine: &Vec<RegistryEntry>, user: &Vec<RegistryEntry>) -> (r: Vec<
    DesktopApp,
>)
    ensures
        unique_ids(views(r@)),
        catalog(views(r@)) == catalog(registry_apps(machine@ + user@)),
        forall|k: Seq<char>| #[trigger]
            catalog(views(r@)).contains_key(k) <==> exists|i: int|
                0 <= i < machine@.len() + user@.len() && registry_app(
                    #[trigger] (machine@ + user@)[i],
                ) is Ok && (machine@ + user@)[i].key_name@ == k,
        forall|i: int|
            0 <= i < machine@.len() + user@.len() ==> match registry_app(
                #[trigger] (machine@ + user@)[i],
            ) {
                Ok(app) => (forall|j: int|
                    i < j < machine@.len() + user@.len() && registry_app(
                        #[trigger] (machine@ + user@)[j],
                    ) is Ok ==> (machine@ + user@)[j].key_name@ != (machine@
                        + user@)[i].key_name@) ==> catalog(views(r@)).contains_key(
                    (machine@ + user@)[i].key_name@,
                ) && catalog(views(r@))[(machine@ + user@)[i].key_name@] == app,
                Err(_) => true,
            },
{
    let mut apps: Vec<DesktopApp> = Vec::new();
    let ghost all = machine@ + user@;
    assert(views(apps@) =~= Seq::<AppView>::empty());
    assert(all.take(0) =~= Seq::<RegistryEntry>::empty());
    let mut i: usize = 0;
    while i < machine.len()
        invariant
            i <= machine@.len(),
            all == machine@ + user@,
            unique_ids(views(apps@)),
            catalog(views(apps@)) == catalog(registry_apps(all.take(i as int))),
        decreases machine@.len() - i,
    {
        assert(all.take(i + 1).drop_last() =~= all.take(i as int));
        assert(all.take(i + 1).last() == machine@[i as int]);
        match parse_registry_app(&machine[i]) {
            Ok(app) => {
                proof {
                    lemma_catalog_push(registry_apps(all.take(i as int)), app@);
                }
                insert_app(&mut apps, app);
            },
            Err(_) => {},
        }
        i = i + 1;
    }
    let mut j: usize = 0;
    while j < user.len()
        invariant
            j <= user@.len(),
            i == machine@.len(),
            all == machine@ + user@,
            unique_ids(views(apps@)),
            catalog(views(apps@)) == catalog(registry_apps(all.take(i + j))),
        decreases user@.len() - j,
    {
        assert(all.take(i + j + 1).drop_last() =~= all.take(i + j));
        assert(all.take(i + j + 1).last() == user@[j as int]);
        match parse_registry_app(&user[j]) {
            Ok(app) => {
                proof {
                    lemma_catalog_push(registry_apps(all.take(i + j)), app@);
                }
                insert_app(&mut apps, app);
            },
            Err(_) => {},
        }
        j = j + 1;
    }
    assert(all.take(i + j) =~= all);
    proof {
        lemma_registry_catalog(all);
    }
    apps
}

/// The application that a Start Menu shortcut describes: `None` when it
/// has no target; otherwise the target is its command, and a missing
/// description or icon location is the empty text.
pub open spec fn shortcut_app(
    id: Seq<char>,
    name: Seq<char>,
    description: Option<Seq<char>>,
    target: Option<Seq<char>>,
    icon: Option<Seq<char>>,
) -> Option<AppView> {
    if or_empty(target).len() == 0 {
        None
    } else {
        Some(
            AppView {
                id: id,
                name: name,
                comment: or_empty(description),
                command: or_empty(target),
                keywords: Seq::empty(),
                app_type: "Application"@,
                categories: Seq::empty(),
                no_display: false,
                only_show_in: Seq::empty(),
                icon: or_empty(icon),
            },
        )
    }
}

/// The application that a Start Menu shortcut describes, given the path of
/// the shortcut file (its id), the file's name without extension, and the
/// shortcut's description, target path and icon location.
pub fn parse_lnk_file(
    path: String,
    name: String,
    description: Option<String>,
    target: Option<String>,
    icon: Option<String>,
) -> (r: Option<DesktopApp>)
    ensures
        match r {
            Some(app) => shortcut_app(
                path@,
                name@,
                opt_view(description),
                opt_view(target),
                opt_view(icon),
            ) == Some(app@),
            None => shortcut_app(
                path@,
                name@,
                opt_view(description),
                opt_view(target),
                opt_view(icon),
            ) is None,
        },
        r is None <==> (target is None || target->0@.len() == 0),
        r matches Some(app) ==> {
            &&& app.id@ == path@
            &&& app.name@ == name@
            &&& app.command@ == target->0@
            &&& (icon matches Some(i) ==> app.icon@ == i@)
            &&& (icon is None ==> app.icon@.len() == 0)
            &&& (description matches Some(d) ==> app.comment@ == d@)
            &&& (description is None ==> app.comment@.len() == 0)
            &&& app.app_type@ == "Application"@
            &&& !app.no_display
        },
{
    let command = value_or_empty(&target);
    if command.as_str().unicode_len() == 0 {
        return None;
    }
    let icon_location = value_or_empty(&icon);
    let comment = value_or_empty(&description);
    Some(
        DesktopApp::new(
            path,
            name,
            comment,
            command,
            String::new(),
            "Application".to_owned(),
            String::new(),
            icon_location,
            false,
            String::new(),
        ),
    )
}

/// Law: a shortcut gives an application exactly when it has a non-empty
/// target. The application then has the shortcut's path as its id, the
/// shortcut's name, the target as its command, the icon location as its icon
/// and the description as its comment (each the empty text when the
/// shortcut has none), and it is a displayed `Application`.
pub proof fn lemma_shortcut_app(
    id: Seq<char>,
    name: Seq<char>,
    description: Option<Seq<char>>,
    target: Option<Seq<char>>,
    icon: Option<Seq<char>>,
)
    ensures
        shortcut_app(id, name, description, target, icon) is None <==> (target is None
            || target.unwrap().len() == 0),
        shortcut_app(id, name, description, target, icon) matches Some(app) ==> {
            &&& app.id == id
            &&& app.name == name
            &&& app.command == target.unwrap()
            &&& app.icon == (if icon is Some {
                icon.unwrap()
            } else {
                Seq::<char>::empty()
            })
            &&& app.comment == (if description is Some {
                description.unwrap()
            } else {
                Seq::<char>::empty()
            })
            &&& app.app_type == "Application"@
            &&& !app.no_display
        },
{
}

/// The catalogue of all Windows applications: the registry's, then those of
/// the Start Menu for all users, then the user's Start Menu, a later source
/// replacing an application of an earlier one that has the same id.
pub fn get_available_apps(
    registry: Vec<DesktopApp>,
    start_menu: Vec<DesktopApp>,
    user_start_menu: Vec<DesktopApp>,
) -> (r: Vec<DesktopApp>)
    ensures
        unique_ids(views(r@)),
        catalog(views(r@)) == catalog(views(registry@)).union_prefer_right(
            catalog(views(start_menu@)),
        ).union_prefer_right(catalog(views(user_start_menu@))),
{
    merge_apps(registry, start_menu, user_start_menu)
}

} // verus!
