//! Reading desktop entries and choosing which applications to show.

use vstd::prelude::*;

pub use crate::app::DesktopApp;
use crate::app::{
    AppView, catalog, insert_app, lemma_catalog_entries, lemma_catalog_push, merge_apps, unique_ids,
    views,
};
use crate::freedesktop::ini_doc::{
    find_section, first_section, first_value, ini_sections, lemma_first_section, load_ini,
    property_or, sections_view, value_or, IniSection,
};
use crate::text::{
    is_space, last_index_of, last_index_of_char, lemma_last_index_of, lemma_last_index_of_append,
    lemma_remove_all_absent, lemma_remove_all_first, lemma_trim_edges, opt_view, range_equals, remove_all, remove_all_str, str_equals, trim,
    trim_str,
};

verus! {

/// `command` with the field codes `%U %u %F %f %i %c %k` removed, one code
/// after the other (each as `str::replace(code, "")` removes it).
pub open spec fn without_field_codes(command: Seq<char>) -> Seq<char> {
    let s = remove_all(command, "%U"@);
    let s = remove_all(s, "%u"@);
    let s = remove_all(s, "%F"@);
    let s = remove_all(s, "%f"@);
    let s = remove_all(s, "%i"@);
    let s = remove_all(s, "%c"@);
    remove_all(s, "%k"@)
}

/// `command` without its field codes, then trimmed.
pub open spec fn cleaned_exec(command: Seq<char>) -> Seq<char> {
    trim(without_field_codes(command))
}

/// The command line of an `Exec` value without its field codes and without
/// surrounding white space.
pub fn clean_exec(command: &str) -> (r: String)
    ensures
        r@ == cleaned_exec(command@),
{
    proof {
        reveal_strlit("%U");
        reveal_strlit("%u");
        reveal_strlit("%F");
        reveal_strlit("%f");
        reveal_strlit("%i");
        reveal_strlit("%c");
        reveal_strlit("%k");
    }
    let cleaned = remove_all_str(command, "%U");
    let cleaned = remove_all_str(cleaned.as_str(), "%u");
    let cleaned = remove_all_str(cleaned.as_str(), "%F");
    let cleaned = remove_all_str(cleaned.as_str(), "%f");
    let cleaned = remove_all_str(cleaned.as_str(), "%i");
    let cleaned = remove_all_str(cleaned.as_str(), "%c");
    let cleaned = remove_all_str(cleaned.as_str(), "%k");
    trim_str(cleaned.as_str())
}

/// Law: a cleaned command line has no white space at either end.
pub proof fn lemma_cleaned_exec_trimmed(command: Seq<char>)
    ensures
        cleaned_exec(command).len() > 0 ==> !is_space(cleaned_exec(command)[0]) && !is_space(
            cleaned_exec(command).last(),
        ),
        trim(cleaned_exec(command)) == cleaned_exec(command),
{
    lemma_trim_edges(without_field_codes(command));
}

/// Removing one two-character code that starts with `%` from text in which
/// no other `%` stands.
proof fn lemma_remove_code(a: Seq<char>, code: Seq<char>, b: Seq<char>, pat: Seq<char>)
    requires
        forall|k: int| 0 <= k < a.len() ==> a[k] != '%',
        forall|k: int| 0 <= k < b.len() ==> b[k] != '%',
        code.len() == 2 && code[0] == '%' && code[1] != '%',
        pat.len() == 2 && pat[0] == '%',
    ensures
        remove_all(a + code + b, pat) == (if code == pat {
            a + b
        } else {
            a + code + b
        }),
        remove_all(a + b, pat) == a + b,
{
    let ab = a + b;
    assert forall|i: int| 0 <= i <= ab.len() - pat.len() implies #[trigger] ab.subrange(
        i,
        i + pat.len(),
    ) != pat by {
        assert(ab.subrange(i, i + pat.len())[0] == ab[i]);
        if i < a.len() {
            assert(ab[i] == a[i]);
        } else {
            assert(ab[i] == b[i - a.len()]);
        }
    }
    lemma_remove_all_absent(ab, pat);
    if code == pat {
        lemma_remove_all_first(a, pat, b);
        assert forall|i: int| 0 <= i <= b.len() - pat.len() implies #[trigger] b.subrange(
            i,
            i + pat.len(),
        ) != pat by {
            assert(b.subrange(i, i + pat.len())[0] == b[i]);
        }
        lemma_remove_all_absent(b, pat);
    } else {
        let s = a + code + b;
        assert forall|i: int| 0 <= i <= s.len() - pat.len() implies #[trigger] s.subrange(
            i,
            i + pat.len(),
        ) != pat by {
            assert(s.subrange(i, i + pat.len())[0] == s[i]);
            if i < a.len() {
                assert(s[i] == a[i]);
            } else if i == a.len() {
                assert(s.subrange(i, i + pat.len()) =~= code);
            } else if i == a.len() + 1 {
                assert(s[i] == code[1]);
            } else {
                assert(s[i] == b[i - a.len() - 2]);
            }
        }
        lemma_remove_all_absent(s, pat);
    }
}

/// Law: on a command line whose text holds no other `%`, cleaning removes
/// the one field code (`%U %u %F %f %i %c %k`) that it holds and keeps all
/// the rest, trimmed; a line without `%` is only trimmed.
pub proof fn lemma_cleaned_exec_code(a: Seq<char>, code: Seq<char>, b: Seq<char>)
    requires
        forall|k: int| 0 <= k < a.len() ==> a[k] != '%',
        forall|k: int| 0 <= k < b.len() ==> b[k] != '%',
        code == "%U"@ || code == "%u"@ || code == "%F"@ || code == "%f"@ || code == "%i"@ || code
            == "%c"@ || code == "%k"@,
    ensures
        cleaned_exec(a + code + b) == trim(a + b),
        cleaned_exec(a + b) == trim(a + b),
{
    reveal_strlit("%U");
    reveal_strlit("%u");
    reveal_strlit("%F");
    reveal_strlit("%f");
    reveal_strlit("%i");
    reveal_strlit("%c");
    reveal_strlit("%k");
    lemma_remove_code(a, code, b, "%U"@);
    lemma_remove_code(a, code, b, "%u"@);
    lemma_remove_code(a, code, b, "%F"@);
    lemma_remove_code(a, code, b, "%f"@);
    lemma_remove_code(a, code, b, "%i"@);
    lemma_remove_code(a, code, b, "%c"@);
    lemma_remove_code(a, code, b, "%k"@);
}

/// The application that the `[Desktop Entry]` section of a document with
/// these sections describes, with the given id; `None` when there is no
/// such section. Missing keys take their defaults: `Name` "Unknown",
/// `Categories` "Unknown", every other key the empty text.
pub open spec fn desktop_entry(
    sections: Seq<(Option<Seq<char>>, Seq<(Seq<char>, Seq<char>)>)>,
    id: Seq<char>,
) -> Option<AppView> {
    match first_section(sections, "Desktop Entry"@) {
        None => None,
        Some(p) => Some(
            AppView {
                id: id,
                name: value_or(p, "Name"@, "Unknown"@),
                comment: value_or(p, "Comment"@, ""@),
                command: cleaned_exec(value_or(p, "Exec"@, ""@)),
                keywords: value_or(p, "Keywords"@, ""@),
                app_type: value_or(p, "Type"@, ""@),
                categories: value_or(p, "Categories"@, "Unknown"@),
                no_display: value_or(p, "NoDisplay"@, ""@) == "true"@,
                only_show_in: value_or(p, "OnlyShowIn"@, ""@),
                icon: value_or(p, "Icon"@, ""@),
            },
        ),
    }
}

/// Law: a document describes an application exactly when it has a
/// `[Desktop Entry]` section. The application has the given id and, for
/// each key, the first value that the first such section gives it, or the
/// key's default where it gives none: `Unknown` for `Name` and `Categories`,
/// the empty text for the others. Its command is the `Exec` value without
/// field codes, and it asks not to be displayed only when `NoDisplay` is
/// `true`.
pub proof fn lemma_desktop_entry(
    sections: Seq<(Option<Seq<char>>, Seq<(Seq<char>, Seq<char>)>)>,
    id: Seq<char>,
)
    ensures
        desktop_entry(sections, id) is None <==> forall|i: int|
            0 <= i < sections.len() ==> (#[trigger] sections[i]).0 != Some("Desktop Entry"@),
        desktop_entry(sections, id) matches Some(app) ==> {
            let p = first_section(sections, "Desktop Entry"@)->0;
            &&& app.id == id
            &&& app.name == (match first_value(p, "Name"@) {
                Some(v) => v,
                None => "Unknown"@,
            })
            &&& app.categories == (match first_value(p, "Categories"@) {
                Some(v) => v,
                None => "Unknown"@,
            })
            &&& app.comment == (match first_value(p, "Comment"@) {
                Some(v) => v,
                None => Seq::<char>::empty(),
            })
            &&& app.command == cleaned_exec(
                match first_value(p, "Exec"@) {
                    Some(v) => v,
                    None => Seq::<char>::empty(),
                },
            )
            &&& app.keywords == (match first_value(p, "Keywords"@) {
                Some(v) => v,
                None => Seq::<char>::empty(),
            })
            &&& app.app_type == (match first_value(p, "Type"@) {
                Some(v) => v,
                None => Seq::<char>::empty(),
            })
            &&& app.only_show_in == (match first_value(p, "OnlyShowIn"@) {
                Some(v) => v,
                None => Seq::<char>::empty(),
            })
            &&& app.icon == (match first_value(p, "Icon"@) {
                Some(v) => v,
                None => Seq::<char>::empty(),
            })
            &&& app.no_display == (first_value(p, "NoDisplay"@) == Some("true"@))
        },
{
    reveal_strlit("");
    reveal_strlit("true");
    lemma_first_section(sections, "Desktop Entry"@);
    assert(""@ =~= Seq::<char>::empty());
}

/// The application that the desktop entry file `content` describes, with the
/// given id; `None` when the file is not an INI document or has no
/// `[Desktop Entry]` section.
pub open spec fn parsed_entry(content: Seq<char>, id: Seq<char>) -> Option<AppView> {
    match ini_sections(content) {
        None => None,
        Some(sections) => desktop_entry(sections, id),
    }
}

/// The application that the `[Desktop Entry]` section of `sections`
/// describes, with the given id.
pub fn desktop_app_from_sections(sections: &Vec<IniSection>, id: String) -> (r: Option<DesktopApp>)
    ensures
        match r {
            Some(app) => desktop_entry(sections_view(sections@), id@) == Some(app@),
            None => desktop_entry(sections_view(sections@), id@) is None,
        },
{
    match find_section(sections, "Desktop Entry") {
        None => None,
        Some(section) => {
            let p = &section.properties;
            let name = property_or(p, "Name", "Unknown");
            let comment = property_or(p, "Comment", "");
            let icon = property_or(p, "Icon", "");
            let app_type = property_or(p, "Type", "");
            let categories = property_or(p, "Categories", "Unknown");
            let keywords = property_or(p, "Keywords", "");
            let only_show_in = property_or(p, "OnlyShowIn", "");
            let no_display_text = property_or(p, "NoDisplay", "");
            let no_display = str_equals(no_display_text.as_str(), "true");
            let exec_raw = property_or(p, "Exec", "");
            let command = clean_exec(exec_raw.as_str());
            Some(
                DesktopApp::new(
                    id,
                    name,
                    comment,
                    command,
                    keywords,
                    app_type,
                    categories,
                    icon,
                    no_display,
                    only_show_in,
                ),
            )
        },
    }
}

/// The application that the desktop entry file `content` describes, with the
/// given id; `None` when the file does not parse as an INI document or has no
/// `[Desktop Entry]` section.
pub fn parse_desktop_file(content: &str, id: String) -> (r: Option<DesktopApp>)
    ensures
        match r {
            Some(app) => parsed_entry(content@, id@) == Some(app@),
            None => parsed_entry(content@, id@) is None,
        },
{
    match load_ini(content) {
        Ok(sections) => desktop_app_from_sections(&sections, id),
        Err(_) => None,
    }
}

/// The characters of `s` from `a` up to `b` form one of its non-empty
/// `;`-separated fields.
pub open spec fn is_field(s: Seq<char>, a: int, b: int) -> bool {
    &&& 0 <= a < b <= s.len()
    &&& (a == 0 || s[a - 1] == ';')
    &&& (b == s.len() || s[b] == ';')
    &&& forall|k: int| a <= k < b ==> s[k] != ';'
}

/// `name` is one of the non-empty `;`-separated fields of `s`.
pub open spec fn lists(s: Seq<char>, name: Seq<char>) -> bool {
    exists|a: int, b: int| #[trigger] is_field(s, a, b) && s.subrange(a, b) == name
}

/// `s` has at least one non-empty `;`-separated field.
pub open spec fn has_fields(s: Seq<char>) -> bool {
    exists|k: int| 0 <= k < s.len() && #[trigger] s[k] != ';'
}

/// An `OnlyShowIn` value admits the desktop: it lists no desktop, or the
/// current desktop is unknown, or it lists the current desktop.
pub open spec fn shown_in(show_in: Seq<char>, desktop: Option<Seq<char>>) -> bool {
    !has_fields(show_in) || desktop is None || lists(show_in, desktop.unwrap())
}

/// Law: an `OnlyShowIn` value admits any desktop when the current desktop is
/// unknown or when the value holds nothing but `;`. Otherwise it admits the
/// current desktop exactly when that desktop is one of the non-empty
/// `;`-separated fields of the whole value, wherever in the value the field
/// stands.
pub proof fn lemma_shown_in(show_in: Seq<char>, desktop: Option<Seq<char>>)
    ensures
        desktop is None ==> shown_in(show_in, desktop),
        (forall|k: int| 0 <= k < show_in.len() ==> show_in[k] == ';') ==> shown_in(
            show_in,
            desktop,
        ),
        forall|a: int, b: int|
            #![trigger show_in.subrange(a, b)]
            0 <= a < b <= show_in.len() && (a == 0 || show_in[a - 1] == ';') && (b == show_in.len()
                || show_in[b] == ';') && (forall|k: int| a <= k < b ==> show_in[k] != ';')
                && desktop == Some(show_in.subrange(a, b)) ==> shown_in(show_in, desktop),
        desktop is Some && (exists|k: int| 0 <= k < show_in.len() && show_in[k] != ';')
            && shown_in(show_in, desktop) ==> exists|a: int, b: int|
            #![trigger show_in.subrange(a, b)]
            0 <= a < b <= show_in.len() && (a == 0 || show_in[a - 1] == ';') && (b == show_in.len()
                || show_in[b] == ';') && (forall|k: int| a <= k < b ==> show_in[k] != ';')
                && show_in.subrange(a, b) == desktop.unwrap(),
{
    assert forall|a: int, b: int|
        #![trigger show_in.subrange(a, b)]
        0 <= a < b <= show_in.len() && (a == 0 || show_in[a - 1] == ';') && (b == show_in.len()
            || show_in[b] == ';') && (forall|k: int| a <= k < b ==> show_in[k] != ';') && desktop
            == Some(show_in.subrange(a, b)) implies shown_in(show_in, desktop) by {
        assert(is_field(show_in, a, b));
    }
    if desktop is Some && (exists|k: int| 0 <= k < show_in.len() && show_in[k] != ';') && shown_in(
        show_in,
        desktop,
    ) {
        let k = choose|k: int| 0 <= k < show_in.len() && show_in[k] != ';';
        assert(has_fields(show_in));
        let (a, b) = choose|a: int, b: int|
            #[trigger] is_field(show_in, a, b) && show_in.subrange(a, b) == desktop.unwrap();
        assert(show_in.subrange(a, b) == desktop.unwrap());
    }
}

/// Whether the `OnlyShowIn` value `show_in` admits the current desktop.
pub fn is_in_show_in(show_in: &String, current_desktop: &Option<String>) -> (r: bool)
    ensures
        r == shown_in(show_in@, opt_view(*current_desktop)),
        current_desktop is None ==> r,
        !has_fields(show_in@) ==> r,
        current_desktop matches Some(d) ==> (lists(show_in@, d@) ==> r),
        current_desktop matches Some(d) ==> (has_fields(show_in@) && r ==> lists(show_in@, d@)),
{
    let s = show_in.as_str();
    let n = s.unicode_len();
    let mut any = false;
    let mut start: usize = 0;
    let mut i: usize = 0;
    while i < n
        invariant
            start <= i <= n,
            n == s@.len(),
            s@ == show_in@,
            start == 0 || s@[start - 1] == ';',
            forall|k: int| start <= k < i ==> s@[k] != ';',
            any == exists|k: int| 0 <= k < i && #[trigger] s@[k] != ';',
            forall|a: int, b: int|
                #[trigger] is_field(s@, a, b) && b < start ==> current_desktop is Some
                    ==> s@.subrange(a, b) != current_desktop->0@,
        decreases n - i,
    {
        if s.get_char(i) == ';' {
            match current_desktop {
                Some(d) => {
                    if i > start && range_equals(s, start, i, d.as_str()) {
                        assert(is_field(s@, start as int, i as int));
                        return true;
                    }
                },
                None => {},
            }
            assert forall|a: int, b: int|
                #[trigger] is_field(s@, a, b) && b < i + 1 && !(b < start) implies a == start && b
                    == i by {
                if b < i {
                    assert(s@[b] != ';');
                }
                if a > start {
                    assert(s@[a - 1] != ';');
                }
                if a < start {
                    assert(s@[start - 1] != ';');
                }
            }
            start = i + 1;
        } else {
            any = true;
        }
        i = i + 1;
    }
    if !any {
        assert forall|a: int, b: int| is_field(s@, a, b) implies false by {
            assert(s@[a] != ';');
        }
        return true;
    }
    assert forall|a: int, b: int| #[trigger] is_field(s@, a, b) && !(b < start) implies a == start
        && b == n by {
        if b < n {
            assert(s@[b] != ';');
        }
        if a > start {
            assert(s@[a - 1] != ';');
        }
        if a < start {
            assert(s@[start - 1] != ';');
        }
    }
    match current_desktop {
        None => true,
        Some(d) => {
            if start < n && range_equals(s, start, n, d.as_str()) {
                assert(is_field(s@, start as int, n as int));
                true
            } else {
                false
            }
        },
    }
}

/// The launcher leaves the application out: it is not of type
/// `Application`, or it asks not to be displayed, or its `OnlyShowIn`
/// value does not admit the current desktop.
pub open spec fn is_hidden(app: AppView, desktop: Option<Seq<char>>) -> bool {
    app.app_type != "Application"@ || app.no_display || !shown_in(app.only_show_in, desktop)
}

/// Law: the launcher leaves out every application that is not of type
/// `Application` and every one that asks not to be displayed. It shows an
/// `Application` that does not ask that when the current desktop is unknown
/// or its `OnlyShowIn` value lists no desktop; otherwise it shows it exactly
/// when that value admits the current desktop.
pub proof fn lemma_is_hidden(app: AppView, desktop: Option<Seq<char>>)
    ensures
        app.app_type != "Application"@ ==> is_hidden(app, desktop),
        app.no_display ==> is_hidden(app, desktop),
        app.app_type == "Application"@ && !app.no_display && desktop is None ==> !is_hidden(
            app,
            desktop,
        ),
        app.app_type == "Application"@ && !app.no_display && (forall|k: int|
            0 <= k < app.only_show_in.len() ==> app.only_show_in[k] == ';') ==> !is_hidden(
            app,
            desktop,
        ),
        app.app_type == "Application"@ && !app.no_display ==> (is_hidden(app, desktop)
            <==> !shown_in(app.only_show_in, desktop)),
{
    lemma_shown_in(app.only_show_in, desktop);
}

/// Whether the launcher leaves `app_data` out on the current desktop (true
/// means that the entry is skipped).
pub fn should_show(app_data: &DesktopApp, current_desktop: &Option<String>) -> (r: bool)
    ensures
        r == is_hidden(app_data@, opt_view(*current_desktop)),
{
    !str_equals(app_data.app_type.as_str(), "Application") || app_data.no_display
        || !is_in_show_in(&app_data.only_show_in, current_desktop)
}

/// The id of the application that a file with this name describes: its
/// name without the extension (the part before the last `.`, as
/// `Path::file_stem` gives it) when that extension is `desktop`; `None` for
/// any other file.
pub open spec fn desktop_file_id_of(file_name: Seq<char>) -> Option<Seq<char>> {
    let j = last_index_of(file_name, '.');
    if j > 0 && file_name.skip(j + 1) == "desktop"@ {
        Some(file_name.take(j))
    } else {
        None
    }
}

/// The application id for a directory entry named `file_name`, if it is a
/// desktop entry file (extension `desktop`).
pub fn desktop_file_id(file_name: &str) -> (r: Option<String>)
    ensures
        opt_view(r) == desktop_file_id_of(file_name@),
        r matches Some(id) ==> id@.len() > 0 && file_name@ == id@ + ".desktop"@,
        forall|id: Seq<char>|
            id.len() > 0 && file_name@ == #[trigger] (id + ".desktop"@) ==> opt_view(r) == Some(id),
{
    let n = file_name.unicode_len();
    let j = last_index_of_char(file_name, '.');
    proof {
        lemma_last_index_of(file_name@, '.');
        lemma_desktop_file_id_of(file_name@);
        assert forall|id: Seq<char>|
            id.len() > 0 && file_name@ == #[trigger] (id + ".desktop"@) implies desktop_file_id_of(
            file_name@,
        ) == Some(id) by {
            lemma_desktop_file_name_gives_id(id);
        }
    }
    if j > 1 && range_equals(file_name, j, n, "desktop") {
        assert(file_name@.subrange(j as int, n as int) =~= file_name@.skip(j as int));
        assert(file_name@.subrange(0, j - 1) =~= file_name@.take(j - 1));
        Some(file_name.substring_char(0, j - 1).to_owned())
    } else {
        assert(file_name@.subrange(j as int, n as int) =~= file_name@.skip(j as int));
        None
    }
}

/// Law: a file name gives an id exactly when it is that id followed by
/// `.desktop`, with a non-empty id.
pub proof fn lemma_desktop_file_id_of(file_name: Seq<char>)
    ensures
        desktop_file_id_of(file_name) matches Some(id) ==> file_name == id + ".desktop"@ && id.len()
            > 0,
{
    reveal_strlit(".desktop");
    reveal_strlit("desktop");
    lemma_last_index_of(file_name, '.');
    let j = last_index_of(file_name, '.');
    if j > 0 && file_name.skip(j + 1) == "desktop"@ {
        assert(".desktop"@ =~= seq!['.'] + "desktop"@);
        assert(file_name =~= file_name.take(j) + seq![file_name[j]] + file_name.skip(j + 1));
    }
}

/// Law: any non-empty id followed by `.desktop` is the name of a desktop
/// entry file with that id, whatever the id holds (dots included).
pub proof fn lemma_desktop_file_name_gives_id(id: Seq<char>)
    requires
        id.len() > 0,
    ensures
        desktop_file_id_of(id + ".desktop"@) == Some(id),
{
    reveal_strlit(".desktop");
    reveal_strlit("desktop");
    let a = id.push('.');
    let name = id + ".desktop"@;
    assert(".desktop"@ =~= seq!['.'] + "desktop"@);
    assert(name =~= a + "desktop"@);
    assert forall|k: int| 0 <= k < "desktop"@.len() implies "desktop"@[k] != '.' by {
    }
    lemma_last_index_of_append(a, "desktop"@, '.');
    assert(a.last() == '.');
    assert(last_index_of(a, '.') == id.len());
    assert(name.skip(id.len() + 1int) =~= "desktop"@);
    assert(name.take(id.len() as int) =~= id);
}

/// A desktop entry file of a directory: the application id that its name
/// gives and its text.
pub struct DesktopFile {
    pub id: String,
    pub content: String,
}

/// The ids and texts of desktop entry files.
pub open spec fn file_views(files: Seq<DesktopFile>) -> Seq<(Seq<char>, Seq<char>)> {
    files.map_values(|f: DesktopFile| (f.id@, f.content@))
}

/// The applications that the files, given by id and text, describe and that
/// the launcher shows on the desktop, in the order of the files.
pub open spec fn shown_entries(
    files: Seq<(Seq<char>, Seq<char>)>,
    desktop: Option<Seq<char>>,
) -> Seq<AppView>
    decreases files.len(),
{
    if files.len() == 0 {
        Seq::empty()
    } else {
        let before = shown_entries(files.drop_last(), desktop);
        match parsed_entry(files.last().1, files.last().0) {
            Some(app) => if is_hidden(app, desktop) {
                before
            } else {
                before.push(app)
            },
            None => before,
        }
    }
}

/// Every application that `shown_entries` keeps has the id of one of the
/// files.
pub proof fn lemma_shown_entry_ids(files: Seq<(Seq<char>, Seq<char>)>, desktop: Option<Seq<char>>)
    ensures
        forall|i: int|
            0 <= i < shown_entries(files, desktop).len() ==> exists|j: int|
                0 <= j < files.len() && #[trigger] shown_entries(files, desktop)[i].id == files[j].0,
    decreases files.len(),
{
    if files.len() > 0 {
        let init = files.drop_last();
        lemma_shown_entry_ids(init, desktop);
        let before = shown_entries(init, desktop);
        let entries = shown_entries(files, desktop);
        assert forall|i: int| 0 <= i < entries.len() implies exists|j: int|
            0 <= j < files.len() && #[trigger] entries[i].id == files[j].0 by {
            if i < before.len() {
                assert(entries[i] == before[i]);
                let j = choose|j: int| 0 <= j < init.len() && before[i].id == init[j].0;
                assert(files[j] == init[j]);
            } else {
                assert(entries[i].id == files[files.len() - 1].0);
            }
        }
    }
}

/// Every application that `shown_entries` keeps is shown on the desktop.
pub proof fn lemma_shown_entries_visible(
    files: Seq<(Seq<char>, Seq<char>)>,
    desktop: Option<Seq<char>>,
)
    ensures
        forall|i: int| 0 <= i < shown_entries(files, desktop).len() ==> !is_hidden(
            #[trigger] shown_entries(files, desktop)[i],
            desktop,
        ),
    decreases files.len(),
{
    if files.len() > 0 {
        lemma_shown_entries_visible(files.drop_last(), desktop);
        let before = shown_entries(files.drop_last(), desktop);
        let entries = shown_entries(files, desktop);
        assert forall|i: int| 0 <= i < entries.len() implies !is_hidden(
            #[trigger] entries[i],
            desktop,
        ) by {
            if i < before.len() {
                assert(entries[i] == before[i]);
            }
        }
    }
}

/// Law: the catalogue read from desktop entry files holds only applications
/// that are shown on the desktop, each under its own id.
pub proof fn lemma_read_apps_are_shown(
    files: Seq<(Seq<char>, Seq<char>)>,
    desktop: Option<Seq<char>>,
)
    ensures
        forall|id: Seq<char>| #[trigger] catalog(shown_entries(files, desktop)).contains_key(id)
            ==> !is_hidden(catalog(shown_entries(files, desktop))[id], desktop) && catalog(
            shown_entries(files, desktop),
        )[id].id == id,
{
    let entries = shown_entries(files, desktop);
    lemma_shown_entries_visible(files, desktop);
    lemma_catalog_entries(entries);
    assert forall|id: Seq<char>| #[trigger] catalog(entries).contains_key(id) implies !is_hidden(
        catalog(entries)[id],
        desktop,
    ) by {
        let k = choose|k: int| 0 <= k < entries.len() && entries[k] == catalog(entries)[id];
        assert(!is_hidden(entries[k], desktop));
    }
}

/// Law: the applications kept from desktop entry files are, in the files'
/// order, exactly those that the files describe and that are shown on the
/// desktop.
pub proof fn lemma_shown_entries_filter(
    files: Seq<(Seq<char>, Seq<char>)>,
    desktop: Option<Seq<char>>,
)
    ensures
        shown_entries(files, desktop) == files.filter_map(
            |f: (Seq<char>, Seq<char>)|
                match parsed_entry(f.1, f.0) {
                    Some(app) => if is_hidden(app, desktop) {
                        None
                    } else {
                        Some(app)
                    },
                    None => None,
                },
        ),
    decreases files.len(),
{
    if files.len() > 0 {
        lemma_shown_entries_filter(files.drop_last(), desktop);
        let before = shown_entries(files.drop_last(), desktop);
        match parsed_entry(files.last().1, files.last().0) {
            Some(app) => {
                assert(before.push(app) =~= before + seq![app]);
            },
            None => {},
        }
    }
}

/// Law: the catalogue read from desktop entry files, given by id and text,
/// holds an application under an id exactly when some file with that id
/// describes an application that is shown on the desktop; under that id it
/// holds the application of the last such file.
#[verifier::spinoff_prover]
#[verifier::rlimit(40)]
pub proof fn lemma_shown_catalog(files: Seq<(Seq<char>, Seq<char>)>, desktop: Option<Seq<char>>)
    ensures
        forall|k: Seq<char>| #[trigger]
            catalog(shown_entries(files, desktop)).contains_key(k) <==> exists|i: int|
                0 <= i < files.len() && (#[trigger] files[i]).0 == k && (parsed_entry(
                    files[i].1,
                    files[i].0,
                ) matches Some(app) && !is_hidden(app, desktop)),
        forall|i: int|
            0 <= i < files.len() ==> match parsed_entry((#[trigger] files[i]).1, files[i].0) {
                Some(app) => !is_hidden(app, desktop) && (forall|j: int|
                    i < j < files.len() && (#[trigger] files[j]).0 == files[i].0 ==> !(parsed_entry(
                        files[j].1,
                        files[j].0,
                    ) matches Some(b) && !is_hidden(b, desktop))) ==> catalog(
                    shown_entries(files, desktop),
                ).contains_key(files[i].0) && catalog(shown_entries(files, desktop))[files[i].0]
                    == app,
                None => true,
            },
    decreases files.len(),
{
    if files.len() > 0 {
        let n = files.len() - 1;
        let init = files.drop_last();
        let last = files.last();
        assert(files[n] == last);
        lemma_shown_catalog(init, desktop);
        let before = shown_entries(init, desktop);
        let m0 = catalog(before);
        let m = catalog(shown_entries(files, desktop));
        match parsed_entry(last.1, last.0) {
            Some(app) => {
                assert(app.id == last.0);
                if is_hidden(app, desktop) {
                    assert(m == m0);
                } else {
                    lemma_catalog_push(before, app);
                    assert(m == m0.insert(last.0, app));
                }
            },
            None => {
                assert(m == m0);
            },
        }
        assert forall|k: Seq<char>| #[trigger] m.contains_key(k) <==> exists|i: int|
            0 <= i < files.len() && (#[trigger] files[i]).0 == k && (parsed_entry(
                files[i].1,
                files[i].0,
            ) matches Some(app) && !is_hidden(app, desktop)) by {
            if m.contains_key(k) {
                if !(last.0 == k && (parsed_entry(last.1, last.0) matches Some(app) && !is_hidden(
                    app,
                    desktop,
                ))) {
                    assert(m0.contains_key(k));
                    let i = choose|i: int|
                        0 <= i < init.len() && (#[trigger] init[i]).0 == k && (parsed_entry(
                            init[i].1,
                            init[i].0,
                        ) matches Some(app) && !is_hidden(app, desktop));
                    assert(files[i] == init[i]);
                }
            }
            if exists|i: int|
                0 <= i < files.len() && (#[trigger] files[i]).0 == k && (parsed_entry(
                    files[i].1,
                    files[i].0,
                ) matches Some(app) && !is_hidden(app, desktop)) {
                let i = choose|i: int|
                    0 <= i < files.len() && (#[trigger] files[i]).0 == k && (parsed_entry(
                        files[i].1,
                        files[i].0,
                    ) matches Some(app) && !is_hidden(app, desktop));
                if i < n {
                    assert(init[i] == files[i]);
                }
            }
        }
        assert forall|i: int| 0 <= i < files.len() implies match parsed_entry(
            (#[trigger] files[i]).1,
            files[i].0,
        ) {
            Some(app) => !is_hidden(app, desktop) && (forall|j: int|
                i < j < files.len() && (#[trigger] files[j]).0 == files[i].0 ==> !(parsed_entry(
                    files[j].1,
                    files[j].0,
                ) matches Some(b) && !is_hidden(b, desktop))) ==> m.contains_key(files[i].0)
                && m[files[i].0] == app,
            None => true,
        } by {
            if i < n {
                assert(init[i] == files[i]);
                if parsed_entry(files[i].1, files[i].0) matches Some(app) && !is_hidden(app, desktop)
                    && (forall|j: int|
                    i < j < files.len() && (#[trigger] files[j]).0 == files[i].0 ==> !(
                    parsed_entry(files[j].1, files[j].0) matches Some(b) && !is_hidden(
                        b,
                        desktop,
                    ))) {
                    assert forall|j: int|
                        i < j < init.len() && (#[trigger] init[j]).0 == init[i].0 implies !(
                        parsed_entry(init[j].1, init[j].0) matches Some(b) && !is_hidden(
                            b,
                            desktop,
                        )) by {
                        assert(init[j] == files[j]);
                    }
                }
            }
        }
    }
}

/// The catalogue of the applications that the desktop entry files describe
/// and that are shown on the current desktop; a later file with the same id
/// replaces an earlier one.
pub fn read_desktop_files(files: Vec<DesktopFile>, current_desktop: &Option<String>) -> (r: Vec<
    DesktopApp,
>)
    ensures
        unique_ids(views(r@)),
        catalog(views(r@)) == catalog(
            shown_entries(file_views(files@), opt_view(*current_desktop)),
        ),
{
    let ghost all = files@;
    let ghost desktop = opt_view(*current_desktop);
    let mut apps: Vec<DesktopApp> = Vec::new();
    let mut rest = files;
    let ghost done: int = 0;
    assert(all.take(0) =~= Seq::<DesktopFile>::empty());
    assert(views(apps@) =~= Seq::<AppView>::empty());
    assert(rest@ =~= all.skip(0));
    while rest.len() > 0
        invariant
            0 <= done <= all.len(),
            rest@ == all.skip(done),
            desktop == opt_view(*current_desktop),
            unique_ids(views(apps@)),
            catalog(views(apps@)) == catalog(shown_entries(file_views(all.take(done)), desktop)),
        decreases rest@.len(),
    {
        let ghost old_rest = rest@;
        let file = rest.remove(0);
        proof {
            assert(file == old_rest[0]);
            assert(file == all[done]);
            assert(file_views(all.take(done + 1)).drop_last() =~= file_views(all.take(done)));
            assert(file_views(all.take(done + 1)).last() == (file.id@, file.content@));
            assert(rest@ =~= all.skip(done + 1));
        }
        match parse_desktop_file(file.content.as_str(), file.id) {
            Some(app) => {
                if !should_show(&app, current_desktop) {
                    proof {
                        lemma_catalog_push(
                            shown_entries(file_views(all.take(done)), desktop),
                            app@,
                        );
                    }
                    insert_app(&mut apps, app);
                }
            },
            None => {},
        }
        proof {
            done = done + 1;
        }
    }
    assert(all.take(done) =~= all);
    apps
}

/// An entry of a directory listing: its file name, and its text when it was
/// read (the launcher reads the desktop entry files only).
pub struct ListedFile {
    pub file_name: String,
    pub content: Option<String>,
}

/// The desktop entry files of a listing, by id and text: the entries whose
/// name gives an id and whose text was read, in order.
pub open spec fn listed_desktop_files(listing: Seq<ListedFile>) -> Seq<(Seq<char>, Seq<char>)>
    decreases listing.len(),
{
    if listing.len() == 0 {
        Seq::empty()
    } else {
        let before = listed_desktop_files(listing.drop_last());
        match (desktop_file_id_of(listing.last().file_name@), opt_view(listing.last().content)) {
            (Some(id), Some(content)) => before.push((id, content)),
            _ => before,
        }
    }
}

/// Law: the desktop entry files of a listing are, in the listing's order,
/// exactly the listed entries whose name gives an id and whose text was
/// read, each as that id and text.
pub proof fn lemma_listed_desktop_files(listing: Seq<ListedFile>)
    ensures
        listed_desktop_files(listing) == listing.filter_map(
            |f: ListedFile|
                match (desktop_file_id_of(f.file_name@), f.content) {
                    (Some(id), Some(c)) => Some((id, c@)),
                    _ => None,
                },
        ),
    decreases listing.len(),
{
    if listing.len() > 0 {
        lemma_listed_desktop_files(listing.drop_last());
        let before = listed_desktop_files(listing.drop_last());
        match (desktop_file_id_of(listing.last().file_name@), listing.last().content) {
            (Some(id), Some(c)) => {
                assert(before.push((id, c@)) =~= before + seq![(id, c@)]);
            },
            _ => {},
        }
    }
}

/// Every desktop entry file of a listing has an id that names one of the
/// listed files as that id followed by `.desktop`.
pub proof fn lemma_listed_ids(listing: Seq<ListedFile>)
    ensures
        forall|i: int|
            0 <= i < listed_desktop_files(listing).len() ==> exists|j: int|
                0 <= j < listing.len() && listing[j].file_name@ == (
                #[trigger] listed_desktop_files(listing)[i]).0 + ".desktop"@,
    decreases listing.len(),
{
    if listing.len() > 0 {
        let init = listing.drop_last();
        lemma_listed_ids(init);
        let before = listed_desktop_files(init);
        let all = listed_desktop_files(listing);
        let last = listing.last();
        lemma_desktop_file_id_of(last.file_name@);
        assert forall|i: int| 0 <= i < all.len() implies exists|j: int|
            0 <= j < listing.len() && listing[j].file_name@ == (#[trigger] all[i]).0
                + ".desktop"@ by {
            if i < before.len() {
                assert(all[i] == before[i]);
                let j = choose|j: int|
                    0 <= j < init.len() && init[j].file_name@ == before[i].0 + ".desktop"@;
                assert(listing[j] == init[j]);
            } else {
                assert(listing[listing.len() - 1] == last);
            }
        }
    }
}

/// The catalogue of the applications that the desktop entry files of a
/// directory listing describe and that are shown on the current desktop. A
/// later file with the same id replaces an earlier one, and every id in the
/// catalogue names a listed file: the id followed by `.desktop`.
pub fn read_desktop_directory(listing: Vec<ListedFile>, current_desktop: &Option<String>) -> (r:
    Vec<DesktopApp>)
    ensures
        unique_ids(views(r@)),
        catalog(views(r@)) == catalog(
            shown_entries(listed_desktop_files(listing@), opt_view(*current_desktop)),
        ),
        forall|id: Seq<char>| #[trigger]
            catalog(views(r@)).contains_key(id) ==> exists|j: int|
                0 <= j < listing@.len() && listing@[j].file_name@ == id + ".desktop"@,
{
    let ghost all = listing@;
    let mut files: Vec<DesktopFile> = Vec::new();
    let mut rest = listing;
    let ghost done: int = 0;
    assert(all.take(0) =~= Seq::<ListedFile>::empty());
    assert(file_views(files@) =~= Seq::<(Seq<char>, Seq<char>)>::empty());
    assert(rest@ =~= all.skip(0));
    while rest.len() > 0
        invariant
            0 <= done <= all.len(),
            rest@ == all.skip(done),
            file_views(files@) == listed_desktop_files(all.take(done)),
        decreases rest@.len(),
    {
        let ghost old_rest = rest@;
        let entry = rest.remove(0);
        proof {
            assert(entry == old_rest[0]);
            assert(entry == all[done]);
            assert(all.take(done + 1).drop_last() =~= all.take(done));
            assert(all.take(done + 1).last() == entry);
            assert(rest@ =~= all.skip(done + 1));
        }
        let ghost before = files@;
        match (desktop_file_id(entry.file_name.as_str()), entry.content) {
            (Some(id), Some(content)) => {
                files.push(DesktopFile { id, content });
                assert(file_views(files@) =~= file_views(before).push(
                    (files@.last().id@, files@.last().content@),
                ));
            },
            _ => {},
        }
        proof {
            done = done + 1;
        }
    }
    assert(all.take(done) =~= all);
    let ghost listed = listed_desktop_files(all);
    let ghost desktop = opt_view(*current_desktop);
    let apps = read_desktop_files(files, current_desktop);
    proof {
        let entries = shown_entries(listed, desktop);
        lemma_catalog_entries(entries);
        lemma_shown_entry_ids(listed, desktop);
        lemma_listed_ids(all);
        assert forall|id: Seq<char>| #[trigger]
            catalog(views(apps@)).contains_key(id) implies exists|j: int|
                0 <= j < all.len() && all[j].file_name@ == id + ".desktop"@ by {
            let k = choose|k: int| 0 <= k < entries.len() && entries[k] == catalog(entries)[id];
            assert(entries[k].id == id);
            let m = choose|m: int| 0 <= m < listed.len() && entries[k].id == listed[m].0;
            assert(listed[m].0 == id);
        }
    }
    apps
}

/// The catalogue of all applications: those of the system directory, then
/// those of the local system directory, then the user's, a later source
/// replacing an application of an earlier one that has the same id.
pub fn get_available_apps(
    system: Vec<DesktopApp>,
    local_system: Vec<DesktopApp>,
    user: Vec<DesktopApp>,
) -> (r: Vec<DesktopApp>)
    ensures
        unique_ids(views(r@)),
        catalog(views(r@)) == catalog(views(system@)).union_prefer_right(
            catalog(views(local_system@)),
        ).union_prefer_right(catalog(views(user@))),
{
    merge_apps(system, local_system, user)
}

} // verus!
