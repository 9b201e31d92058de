use vstd::prelude::*;

use crate::error::LinkError;
use crate::text::is_ascii_alpha;
use crate::name::{
    alpha_prefix_len, canonical_digits, decimal, digits_value, lemma_alpha_prefix_len_bound,
    lemma_canonical_digits, lemma_decimal, lemma_split_name, link_name_suffix, name_prefix,
    name_sane, name_suffix, parses_as_u64, MAX_LINK_NAME_BYTES,
};
use crate::util::{canonical_hwaddr, hwaddr_normalize, hwaddr_well_formed};

verus! {

/// The directory that holds the link records.
pub const NET_SETUP_LINK_CONF_DIR: &'static str = "/etc/systemd/network/";

/// The start of the file name of every link record.
pub const LINK_FILE_PREFIX: &'static str = "71-net-ifnames-prefix-";

/// The end of the file name of every link record.
pub const LINK_FILE_SUFFIX: &'static str = ".link";

/// A link record as plain values: name, sequence number, hardware address.
pub type LinkView = (Seq<char>, u64, Seq<char>);

/// One persistently named interface.
#[derive(Debug, PartialEq, Eq)]
pub struct PrefixedLink {
    pub name: String,
    pub index: u64,
    pub hwaddr: String,
}

impl View for PrefixedLink {
    type V = LinkView;

    open spec fn view(&self) -> LinkView {
        (self.name@, self.index, self.hwaddr@)
    }
}

/// The outcome of a construction, as plain values.
pub open spec fn link_result_view(r: Result<PrefixedLink, LinkError>) -> Result<LinkView, LinkError> {
    match r {
        Ok(l) => Ok(l@),
        Err(e) => Err(e),
    }
}

/// The name checks: sane length, then a numeric suffix after the letters.
pub open spec fn name_checks(name: Seq<char>) -> Result<u64, LinkError> {
    if !name_sane(name) {
        Err(LinkError::InvalidName)
    } else if !parses_as_u64(name_suffix(name)) {
        Err(LinkError::InvalidSuffix)
    } else {
        Ok(digits_value(name_suffix(name)) as u64)
    }
}

/// The record that a name and a known hardware address make.
pub open spec fn link_model(name: Seq<char>, hwaddr: Seq<char>) -> Result<LinkView, LinkError> {
    if !hwaddr_well_formed(hwaddr) {
        Err(LinkError::InvalidHardwareAddress)
    } else {
        match name_checks(name) {
            Err(e) => Err(e),
            Ok(i) => Ok((name, i, canonical_hwaddr(hwaddr))),
        }
    }
}

/// The record that a name makes for the event device, whose address the
/// device layer may or may not have supplied.
pub open spec fn event_link_model(name: Seq<char>, device_hwaddr: Option<Seq<char>>) -> Result<
    LinkView,
    LinkError,
> {
    match name_checks(name) {
        Err(e) => Err(e),
        Ok(i) => match device_hwaddr {
            None => Err(LinkError::DeviceLookupError),
            Some(a) => if hwaddr_well_formed(a) {
                Ok((name, i, canonical_hwaddr(a)))
            } else {
                Err(LinkError::InvalidHardwareAddress)
            },
        },
    }
}

/// Path of the record file of a link with the given name.
pub open spec fn link_file_path_of(name: Seq<char>) -> Seq<char> {
    NET_SETUP_LINK_CONF_DIR@ + LINK_FILE_PREFIX@ + name + LINK_FILE_SUFFIX@
}

/// Text of the record file that binds `name` to `hwaddr`.
pub open spec fn link_file_text(name: Seq<char>, hwaddr: Seq<char>) -> Seq<char> {
    "[Match]\nMACAddress="@ + hwaddr + "\n\n[Link]\nName="@ + name + "\n"@
}

impl PrefixedLink {
    /// A copy of the record.
    pub fn duplicate(&self) -> (r: PrefixedLink)
        ensures
            r@ == self@,
    {
        PrefixedLink { name: self.name.clone(), index: self.index, hwaddr: self.hwaddr.clone() }
    }

    /// Whether two records agree in name, sequence number and address.
    pub fn same_as(&self, other: &PrefixedLink) -> (r: bool)
        ensures
            r == (self@ == other@),
    {
        self.index == other.index && self.name == other.name && self.hwaddr == other.hwaddr
    }

    fn checked_name(link_name: &str) -> (r: Result<u64, LinkError>)
        ensures
            r == name_checks(link_name@),
    {
        match PrefixedLink::link_name_sane(link_name) {
            Err(e) => Err(e),
            Ok(()) => link_name_suffix(link_name),
        }
    }

    /// Builds the record of the event device under `link_name`;
    /// `device_hwaddr` is the address that the device layer supplied for it.
    pub fn new(link_name: &str, device_hwaddr: Option<&str>) -> (r: Result<PrefixedLink, LinkError>)
        ensures
            link_result_view(r) == event_link_model(
                link_name@,
                match device_hwaddr {
                    Some(a) => Some(a@),
                    None => None,
                },
            ),
    {
        let index = match PrefixedLink::checked_name(link_name) {
            Err(e) => return Err(e),
            Ok(i) => i,
        };
        let addr = match device_hwaddr {
            None => return Err(LinkError::DeviceLookupError),
            Some(a) => a,
        };
        match hwaddr_normalize(addr) {
            Err(e) => Err(e),
            Ok(hwaddr) => Ok(PrefixedLink { name: link_name.to_owned(), index, hwaddr }),
        }
    }

    /// Builds the record that binds `link_name` to the hardware address `hwaddr`.
    pub fn new_with_hwaddr(link_name: &str, hwaddr: &str) -> (r: Result<PrefixedLink, LinkError>)
        ensures
            link_result_view(r) == link_model(link_name@, hwaddr@),
    {
        let addr = match hwaddr_normalize(hwaddr) {
            Err(e) => return Err(e),
            Ok(a) => a,
        };
        match PrefixedLink::checked_name(link_name) {
            Err(e) => Err(e),
            Ok(index) => Ok(PrefixedLink { name: link_name.to_owned(), index, hwaddr: addr }),
        }
    }

    /// Checks that a link name is non-empty and at most sixteen bytes long.
    pub fn link_name_sane(link_name: &str) -> (r: Result<(), LinkError>)
        ensures
            r == (if name_sane(link_name@) {
                Ok::<(), LinkError>(())
            } else {
                Err(LinkError::InvalidName)
            }),
    {
        if link_name.is_empty() {
            return Err(LinkError::InvalidName);
        }
        if link_name.as_bytes().len() > MAX_LINK_NAME_BYTES {
            return Err(LinkError::InvalidName);
        }
        Ok(())
    }

    /// The path of this record's file.
    pub fn link_file_path(&self) -> (r: String)
        ensures
            r@ == link_file_path_of(self.name@),
    {
        let mut path = String::from_str(NET_SETUP_LINK_CONF_DIR);
        path.append(LINK_FILE_PREFIX);
        path.append(self.name.as_str());
        path.append(LINK_FILE_SUFFIX);
        path
    }

    /// The text of this record's file.
    pub fn link_file_contents(&self) -> (r: String)
        ensures
            r@ == link_file_text(self.name@, self.hwaddr@),
    {
        let mut text = String::from_str("[Match]\nMACAddress=");
        text.append(self.hwaddr.as_str());
        text.append("\n\n[Link]\nName=");
        text.append(self.name.as_str());
        text.append("\n");
        text
    }
}

} // verus!

verus! {

/// Building a record from the name made of an alphabetic prefix and the
/// digits of a number gives back that name and that number, and splitting
/// the name gives back the prefix and the digits.
pub proof fn lemma_link_round_trip(prefix: Seq<char>, n: u64, hwaddr: Seq<char>)
    requires
        forall|i: int| 0 <= i < prefix.len() ==> is_ascii_alpha(#[trigger] prefix[i]),
        name_sane(prefix + decimal(n as nat)),
        hwaddr_well_formed(hwaddr),
    ensures
        link_model(prefix + decimal(n as nat), hwaddr) == Ok::<LinkView, LinkError>(
            (prefix + decimal(n as nat), n, canonical_hwaddr(hwaddr)),
        ),
        name_prefix(prefix + decimal(n as nat)) == prefix,
        name_suffix(prefix + decimal(n as nat)) == decimal(n as nat),
{
    lemma_decimal(n as nat);
    lemma_split_name(prefix, decimal(n as nat));
}

} // verus!

verus! {

/// A record built from a name whose number has no leading zero gives the
/// name back from its prefix and its sequence number.
pub proof fn lemma_link_name_reassembles(name: Seq<char>, hwaddr: Seq<char>)
    requires
        link_model(name, hwaddr) is Ok,
        canonical_digits(name_suffix(name)),
    ensures
        name == name_prefix(name) + decimal(link_model(name, hwaddr)->Ok_0.1 as nat),
        link_model(name, hwaddr)->Ok_0.0 == name,
{
    lemma_canonical_digits(name_suffix(name));
    let k = alpha_prefix_len(name) as int;
    assert(k <= name.len()) by {
        lemma_alpha_prefix_len_bound(name);
    }
    assert(name =~= name_prefix(name) + name_suffix(name));
}

} // verus!
