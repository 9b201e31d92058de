use vstd::prelude::*;

verus! {

#[verifier::external_type_specification]
#[verifier::external_body]
pub struct ExIni(ini::Ini);

/// What a parsed INI document holds: for a section name and a key, the
/// first value of that key in the first section of that name.
pub uninterp spec fn ini_entries(conf: ini::Ini) -> Map<(Seq<char>, Seq<char>), Seq<char>>;

/// What the INI parser makes of a text: `None` where it reports an error,
/// else the entries of the document, as `ini_entries` gives them.
pub uninterp spec fn ini_parse(text: Seq<char>) -> Option<Map<(Seq<char>, Seq<char>), Seq<char>>>;

/// The value stored under `section` and `key`, if any.
pub open spec fn entry_of(
    m: Map<(Seq<char>, Seq<char>), Seq<char>>,
    section: Seq<char>,
    key: Seq<char>,
) -> Option<Seq<char>> {
    if m.contains_key((section, key)) {
        Some(m[(section, key)])
    } else {
        None
    }
}

/// Relies on `ini::Ini::load_from_str`: it parses the text, with default
/// options, or reports a parse error.
#[verifier::external_body]
pub(crate) fn load_ini(text: &str) -> (r: Option<ini::Ini>)
    ensures
        r is Some <==> ini_parse(text@) is Some,
        r matches Some(conf) ==> ini_entries(conf) == ini_parse(text@)->0,
{
    match ini::Ini::load_from_str(text) {
        Ok(conf) => Some(conf),
        Err(_) => None,
    }
}

/// Relies on `ini::Ini::section` and `ini::Properties::get`: the first
/// section of that name, then the first value of the key in it.
#[verifier::external_body]
pub(crate) fn ini_get(conf: &ini::Ini, section: &str, key: &str) -> (r: Option<String>)
    ensures
        r matches Some(v) ==> v@ == ini_entries(*conf)[(section@, key@)],
        r is Some <==> ini_entries(*conf).contains_key((section@, key@)),
{
    match conf.section(Some(section)) {
        Some(props) => match props.get(key) {
            Some(v) => Some(v.to_string()),
            None => None,
        },
        None => None,
    }
}

} // verus!
