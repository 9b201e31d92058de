use vstd::prelude::*;

use crate::error::LinkError;

verus! {

/// The pattern that finds the naming prefix on the kernel command line.
pub const PREFIX_PATTERN: &'static str = "net.ifnames.prefix=([[:alpha:]]+)";

/// What a search with the regular expression `pattern` finds in `hay`:
/// `None` where the pattern does not compile, else whether it matches
/// somewhere in `hay`.
pub uninterp spec fn regex_search(pattern: Seq<char>, hay: Seq<char>) -> Option<bool>;

/// What a search with the regular expression `pattern` captures in `hay`:
/// `None` where the pattern does not compile, `Some(None)` where it does not
/// match, else the text of the first group of the leftmost match.
pub uninterp spec fn regex_first_group(pattern: Seq<char>, hay: Seq<char>) -> Option<Option<Seq<char>>>;

/// Relies on `regex::Regex::new` and `regex::Regex::is_match`: compiles the
/// pattern, then tells whether it matches anywhere in `hay`.
#[verifier::external_body]
fn search(pattern: &str, hay: &str) -> (r: Option<bool>)
    ensures
        r == regex_search(pattern@, hay@),
{
    match regex::Regex::new(pattern) {
        Ok(re) => Some(re.is_match(hay)),
        Err(_) => None,
    }
}

/// Relies on `regex::Regex::new`, `regex::Regex::captures` and
/// `regex::Captures::get`: compiles the pattern, then gives the text of the
/// first group of the leftmost match.
#[verifier::external_body]
fn first_group(pattern: &str, hay: &str) -> (r: Option<Option<String>>)
    ensures
        match r {
            None => regex_first_group(pattern@, hay@) is None,
            Some(None) => regex_first_group(pattern@, hay@) == Some(None::<Seq<char>>),
            Some(Some(g)) => regex_first_group(pattern@, hay@) == Some(Some(g@)),
        },
{
    let re = match regex::Regex::new(pattern) {
        Ok(re) => re,
        Err(_) => return None,
    };
    match re.captures(hay) {
        Some(c) => match c.get(1) {
            Some(m) => Some(Some(m.as_str().to_string())),
            None => Some(None),
        },
        None => Some(None),
    }
}

/// The pattern of a name that already carries the prefix: the prefix, then
/// one or more digits.
pub open spec fn rename_pattern(prefix: Seq<char>) -> Seq<char> {
    prefix + "\\d+"@
}

/// Whether the interface `ifname` still needs a name of the given prefix:
/// it does unless the prefix followed by digits occurs in it.
pub fn rename_needed(ifname: &str, prefix: &str) -> (r: Result<bool, LinkError>)
    ensures
        match regex_search(rename_pattern(prefix@), ifname@) {
            None => r == Err::<bool, LinkError>(LinkError::InvalidPrefix),
            Some(found) => r == Ok::<bool, LinkError>(!found),
        },
{
    let mut pattern = String::from_str(prefix);
    pattern.append("\\d+");
    match search(pattern.as_str(), ifname) {
        None => Err(LinkError::InvalidPrefix),
        Some(found) => Ok(!found),
    }
}

/// The naming prefix that the kernel command line `cmdline` asks for, or
/// the empty string where it asks for none.
pub fn prefix_from_cmdline(cmdline: &str) -> (r: Result<String, LinkError>)
    ensures
        match regex_first_group(PREFIX_PATTERN@, cmdline@) {
            None => r == Err::<String, LinkError>(LinkError::InvalidPrefix),
            Some(None) => r matches Ok(p) && p@ == Seq::<char>::empty(),
            Some(Some(g)) => r matches Ok(p) && p@ == g,
        },
{
    match first_group(PREFIX_PATTERN, cmdline) {
        None => Err(LinkError::InvalidPrefix),
        Some(None) => Ok(String::new()),
        Some(Some(g)) => Ok(g),
    }
}

} // verus!
