//! INI documents as read by the `ini` crate, held as plain values.

use vstd::prelude::*;

use crate::text::str_equals;

verus! {

#[verifier::external_type_specification]
#[verifier::external_body]
pub struct ExIniParseError(ini::ParseError);

/// One section of an INI document: its name (`None` for the properties that
/// come before the first header) and its properties in the order they appear.
pub struct IniSection {
    pub name: Option<String>,
    pub properties: Vec<(String, String)>,
}

impl View for IniSection {
    type V = (Option<Seq<char>>, Seq<(Seq<char>, Seq<char>)>);

    open spec fn view(&self) -> (Option<Seq<char>>, Seq<(Seq<char>, Seq<char>)>) {
        (
            match self.name {
                Some(n) => Some(n@),
                None => None,
            },
            self.properties@.map_values(|p: (String, String)| (p.0@, p.1@)),
        )
    }
}

/// The contents of the sections of `sections`, in order.
pub open spec fn sections_view(sections: Seq<IniSection>) -> Seq<
    (Option<Seq<char>>, Seq<(Seq<char>, Seq<char>)>),
> {
    sections.map_values(|s: IniSection| s@)
}

/// The sections, with their names and properties in document order, that
/// `ini::Ini::load_from_str` reads from `content`; `None` where it fails.
pub uninterp spec fn ini_sections(content: Seq<char>) -> Option<
    Seq<(Option<Seq<char>>, Seq<(Seq<char>, Seq<char>)>)>,
>;

/// Reads `content` with `ini::Ini::load_from_str` and hands back each section
/// of the document (duplicates included, in the order the crate iterates
/// them, which is document order) with its properties in order. The contract
/// claims only that the result is a function of `content`, named by
/// `ini_sections`, and that an error comes exactly where that name has none.
#[verifier::external_body]
pub(crate) fn load_ini(content: &str) -> (r: Result<Vec<IniSection>, ini::ParseError>)
    ensures
        match r {
            Ok(sections) => ini_sections(content@) == Some(sections_view(sections@)),
            Err(_) => ini_sections(content@) is None,
        },
{
    ini::Ini::load_from_str(content).map(|doc| {
        doc.iter().map(|(name, props)| IniSection {
            name: name.map(|n| n.to_string()),
            properties: props.iter().map(|(k, v)| (k.to_string(), v.to_string())).collect(),
        }).collect()
    })
}

/// The properties of the first section named `name` (what `Ini::section`
/// returns).
pub open spec fn first_section(
    sections: Seq<(Option<Seq<char>>, Seq<(Seq<char>, Seq<char>)>)>,
    name: Seq<char>,
) -> Option<Seq<(Seq<char>, Seq<char>)>>
    decreases sections.len(),
{
    if sections.len() == 0 {
        None
    } else if sections[0].0 == Some(name) {
        Some(sections[0].1)
    } else {
        first_section(sections.skip(1), name)
    }
}

/// The first value given to `key` (what `Properties::get` returns).
pub open spec fn first_value(properties: Seq<(Seq<char>, Seq<char>)>, key: Seq<char>) -> Option<
    Seq<char>,
>
    decreases properties.len(),
{
    if properties.len() == 0 {
        None
    } else if properties[0].0 == key {
        Some(properties[0].1)
    } else {
        first_value(properties.skip(1), key)
    }
}

/// The first value given to `key`, or `default` where there is none.
pub open spec fn value_or(
    properties: Seq<(Seq<char>, Seq<char>)>,
    key: Seq<char>,
    default: Seq<char>,
) -> Seq<char> {
    match first_value(properties, key) {
        Some(v) => v,
        None => default,
    }
}

/// Law: `first_section` gives nothing when no section has the name, and
/// otherwise the properties of the earliest section that has it.
pub proof fn lemma_first_section(
    sections: Seq<(Option<Seq<char>>, Seq<(Seq<char>, Seq<char>)>)>,
    name: Seq<char>,
)
    ensures
        first_section(sections, name) is None <==> forall|i: int|
            0 <= i < sections.len() ==> (#[trigger] sections[i]).0 != Some(name),
        first_section(sections, name) matches Some(p) ==> exists|i: int|
            0 <= i < sections.len() && (#[trigger] sections[i]).0 == Some(name) && sections[i].1
                == p && forall|j: int| 0 <= j < i ==> (#[trigger] sections[j]).0 != Some(name),
    decreases sections.len(),
{
    if sections.len() > 0 {
        let rest = sections.skip(1);
        lemma_first_section(rest, name);
        if sections[0].0 != Some(name) {
            if first_section(rest, name) is None {
                assert forall|i: int| 0 <= i < sections.len() implies (#[trigger] sections[i]).0
                    != Some(name) by {
                    if i > 0 {
                        assert(sections[i] == rest[i - 1]);
                    }
                }
            } else {
                let i = choose|i: int|
                    0 <= i < rest.len() && (#[trigger] rest[i]).0 == Some(name) && rest[i].1
                        == first_section(rest, name)->0 && forall|j: int|
                        0 <= j < i ==> (#[trigger] rest[j]).0 != Some(name);
                assert(sections[i + 1] == rest[i]);
                assert forall|j: int| 0 <= j < i + 1 implies (#[trigger] sections[j]).0 != Some(
                    name,
                ) by {
                    if j > 0 {
                        assert(sections[j] == rest[j - 1]);
                    }
                }
                assert(sections[i + 1].0 == Some(name));
            }
        } else {
            assert(sections[0].0 == Some(name));
        }
    }
}

/// Law: `first_value` gives nothing when no property has the key, and
/// otherwise the value of the earliest property that has it.
pub proof fn lemma_first_value(properties: Seq<(Seq<char>, Seq<char>)>, key: Seq<char>)
    ensures
        first_value(properties, key) is None <==> forall|i: int|
            0 <= i < properties.len() ==> (#[trigger] properties[i]).0 != key,
        first_value(properties, key) matches Some(v) ==> exists|i: int|
            0 <= i < properties.len() && (#[trigger] properties[i]).0 == key && properties[i].1
                == v && forall|j: int| 0 <= j < i ==> (#[trigger] properties[j]).0 != key,
    decreases properties.len(),
{
    if properties.len() > 0 {
        let rest = properties.skip(1);
        lemma_first_value(rest, key);
        if properties[0].0 != key {
            if first_value(rest, key) is None {
                assert forall|i: int| 0 <= i < properties.len() implies (#[trigger] properties[i]).0
                    != key by {
                    if i > 0 {
                        assert(properties[i] == rest[i - 1]);
                    }
                }
            } else {
                let i = choose|i: int|
                    0 <= i < rest.len() && (#[trigger] rest[i]).0 == key && rest[i].1
                        == first_value(rest, key)->0 && forall|j: int|
                        0 <= j < i ==> (#[trigger] rest[j]).0 != key;
                assert(properties[i + 1] == rest[i]);
                assert forall|j: int| 0 <= j < i + 1 implies (#[trigger] properties[j]).0 != key by {
                    if j > 0 {
                        assert(properties[j] == rest[j - 1]);
                    }
                }
                assert(properties[i + 1].0 == key);
            }
        } else {
            assert(properties[0].0 == key);
        }
    }
}

/// The first section of `sections` named `name`.
pub fn find_section<'a>(sections: &'a Vec<IniSection>, name: &str) -> (r: Option<&'a IniSection>)
    ensures
        match r {
            Some(s) => first_section(sections_view(sections@), name@) == Some(s@.1),
            None => first_section(sections_view(sections@), name@) is None,
        },
{
    let ghost all = sections_view(sections@);
    let n = sections.len();
    let mut i: usize = 0;
    assert(all.skip(0) =~= all);
    while i < n
        invariant
            i <= n,
            n == sections@.len(),
            all == sections_view(sections@),
            first_section(all, name@) == first_section(all.skip(i as int), name@),
        decreases n - i,
    {
        let section = &sections[i];
        assert(all.skip(i as int)[0] == section@);
        let matches = match &section.name {
            Some(n) => str_equals(n.as_str(), name),
            None => false,
        };
        if matches {
            return Some(section);
        }
        assert(all.skip(i as int).skip(1) =~= all.skip(i + 1));
        i = i + 1;
    }
    None
}

/// The first value given to `key` in `properties`, or `default`.
pub fn property_or(properties: &Vec<(String, String)>, key: &str, default: &str) -> (r: String)
    ensures
        r@ == value_or(
            properties@.map_values(|p: (String, String)| (p.0@, p.1@)),
            key@,
            default@,
        ),
{
    let ghost all = properties@.map_values(|p: (String, String)| (p.0@, p.1@));
    let n = properties.len();
    let mut i: usize = 0;
    assert(all.skip(0) =~= all);
    while i < n
        invariant
            i <= n,
            n == properties@.len(),
            all == properties@.map_values(|p: (String, String)| (p.0@, p.1@)),
            first_value(all, key@) == first_value(all.skip(i as int), key@),
        decreases n - i,
    {
        let entry = &properties[i];
        assert(all.skip(i as int)[0] == (entry.0@, entry.1@));
        if str_equals(entry.0.as_str(), key) {
            return entry.1.clone();
        }
        assert(all.skip(i as int).skip(1) =~= all.skip(i + 1));
        i = i + 1;
    }
    default.to_owned()
}

} // verus!
