use vstd::prelude::*;

use crate::config::{link_model, link_result_view, LinkView, PrefixedLink, LINK_FILE_PREFIX, LINK_FILE_SUFFIX};
use crate::error::LinkError;
use crate::ini_doc::{entry_of, ini_get, ini_parse, load_ini};
use crate::name::{all_digits, decimal, digits_value, parse_u64_from, parses_as_u64, push_decimal};
use crate::roster::{dedup_links, merged, sort_links, sorted_by_index, views};
use crate::text::{ends_with, has_prefix, has_suffix, starts_with, text_eq};

verus! {

/// A network device of Ethernet type that the kernel's device layer knows,
/// as the device layer describes it.
pub struct LiveDevice {
    pub name: String,
    pub devtype: Option<String>,
    pub address: Option<String>,
}

/// A file of the records directory: its name and its text.
pub struct RecordFile {
    pub file_name: String,
    pub contents: String,
}

/// What one device or one file contributes: an error, nothing, or a record.
pub type Step = Result<Option<LinkView>, LinkError>;

pub open spec fn step_view(r: Result<Option<PrefixedLink>, LinkError>) -> Step {
    match r {
        Ok(Some(l)) => Ok(Some(l@)),
        Ok(None) => Ok(None),
        Err(e) => Err(e),
    }
}

pub open spec fn opt_str_view(o: Option<&str>) -> Option<Seq<char>> {
    match o {
        Some(s) => Some(s@),
        None => None,
    }
}

/// The records that a run of steps yields, in order, or the first error.
pub open spec fn collect_steps(steps: Seq<Step>) -> Result<Seq<LinkView>, LinkError>
    decreases steps.len(),
{
    if steps.len() == 0 {
        Ok(Seq::empty())
    } else {
        match collect_steps(steps.drop_last()) {
            Err(e) => Err(e),
            Ok(prev) => match steps.last() {
                Err(e) => Err(e),
                Ok(None) => Ok(prev),
                Ok(Some(l)) => Ok(prev.push(l)),
            },
        }
    }
}

/// Device types of virtual aggregates, which are never named individually.
pub open spec fn is_aggregate_devtype(t: Seq<char>) -> bool {
    t == "vlan"@ || t == "bond"@ || t == "bridge"@
}

pub open spec fn live_step(prefix: Seq<char>, d: LiveDevice) -> Step {
    if !starts_with(d.name@, prefix) {
        Ok(None)
    } else if (match d.devtype {
        Some(t) => is_aggregate_devtype(t@),
        None => false,
    }) {
        Ok(None)
    } else {
        match d.address {
            None => Err(LinkError::DeviceAttributeError),
            Some(a) => match link_model(d.name@, a@) {
                Ok(l) => Ok(Some(l)),
                Err(e) => Err(e),
            },
        }
    }
}

pub open spec fn live_steps(prefix: Seq<char>, devs: Seq<LiveDevice>) -> Seq<Step> {
    devs.map_values(|d: LiveDevice| live_step(prefix, d))
}

/// The records of the live devices.
pub open spec fn live_links(prefix: Seq<char>, devs: Seq<LiveDevice>) -> Result<Seq<LinkView>, LinkError> {
    collect_steps(live_steps(prefix, devs))
}

/// Whether a file name is that of a link record.
pub open spec fn record_file_name(n: Seq<char>) -> bool {
    starts_with(n, LINK_FILE_PREFIX@) && ends_with(n, LINK_FILE_SUFFIX@)
}

/// What a record with the given address and name values contributes.
pub open spec fn fields_step(prefix: Seq<char>, mac: Option<Seq<char>>, name: Option<Seq<char>>) -> Step {
    match (mac, name) {
        (Some(m), Some(n)) => if !starts_with(n, prefix) {
            Ok(None)
        } else {
            match link_model(n, m) {
                Ok(l) => Ok(Some(l)),
                Err(e) => Err(e),
            }
        },
        _ => Err(LinkError::MalformedRecordError),
    }
}

pub open spec fn file_step(prefix: Seq<char>, f: RecordFile) -> Step {
    if !record_file_name(f.file_name@) {
        Ok(None)
    } else {
        match ini_parse(f.contents@) {
            None => Err(LinkError::MalformedRecordError),
            Some(m) => fields_step(
                prefix,
                entry_of(m, "Match"@, "MACAddress"@),
                entry_of(m, "Link"@, "Name"@),
            ),
        }
    }
}

pub open spec fn file_steps(prefix: Seq<char>, files: Seq<RecordFile>) -> Seq<Step> {
    files.map_values(|f: RecordFile| file_step(prefix, f))
}

/// The records of the record files.
pub open spec fn disk_links(prefix: Seq<char>, files: Seq<RecordFile>) -> Result<Seq<LinkView>, LinkError> {
    collect_steps(file_steps(prefix, files))
}

/// The last record on disk for a hardware address: a later one wins.
pub open spec fn lookup_last(recs: Seq<LinkView>, mac: Seq<char>) -> Option<LinkView>
    decreases recs.len(),
{
    if recs.len() == 0 {
        None
    } else if recs.last().2 == mac {
        Some(recs.last())
    } else {
        lookup_last(recs.drop_last(), mac)
    }
}

/// The name after the last one of the roster, which is sorted by number.
pub open spec fn next_name(prefix: Seq<char>, roster: Seq<LinkView>) -> Result<Seq<char>, LinkError> {
    if roster.len() == 0 {
        Ok(prefix + decimal(0))
    } else {
        let name = roster.last().0;
        let rest = name.subrange(prefix.len() as int, name.len() as int);
        if starts_with(name, prefix) && parses_as_u64(rest) && digits_value(rest) < u64::MAX {
            Ok(prefix + decimal(digits_value(rest) + 1))
        } else {
            Err(LinkError::SequenceParseError)
        }
    }
}

/// Whether a file name is that of a link record.
pub fn is_record_file_name(file_name: &str) -> (r: bool)
    ensures
        r == record_file_name(file_name@),
{
    has_prefix(file_name, LINK_FILE_PREFIX) && has_suffix(file_name, LINK_FILE_SUFFIX)
}

fn is_aggregate(t: &str) -> (r: bool)
    ensures
        r == is_aggregate_devtype(t@),
{
    text_eq(t, "vlan") || text_eq(t, "bond") || text_eq(t, "bridge")
}

/// The record that a live device contributes, if any.
pub fn link_from_device(prefix: &str, d: &LiveDevice) -> (r: Result<Option<PrefixedLink>, LinkError>)
    ensures
        step_view(r) == live_step(prefix@, *d),
{
    if !has_prefix(d.name.as_str(), prefix) {
        return Ok(None);
    }
    let aggregate = match &d.devtype {
        Some(t) => is_aggregate(t.as_str()),
        None => false,
    };
    if aggregate {
        return Ok(None);
    }
    match &d.address {
        None => Err(LinkError::DeviceAttributeError),
        Some(a) => {
            let l = PrefixedLink::new_with_hwaddr(d.name.as_str(), a.as_str());
            match l {
                Ok(l) => Ok(Some(l)),
                Err(e) => Err(e),
            }
        },
    }
}

/// The record that a record file holds, given the address and the name
/// that its `Match` and `Link` sections hold, if they do.
pub fn record_from_fields(prefix: &str, mac: Option<&str>, name: Option<&str>) -> (r: Result<
    Option<PrefixedLink>,
    LinkError,
>)
    ensures
        step_view(r) == fields_step(prefix@, opt_str_view(mac), opt_str_view(name)),
{
    let (m, n) = match (mac, name) {
        (Some(m), Some(n)) => (m, n),
        _ => return Err(LinkError::MalformedRecordError),
    };
    if !has_prefix(n, prefix) {
        return Ok(None);
    }
    let l = PrefixedLink::new_with_hwaddr(n, m);
    match l {
        Ok(l) => Ok(Some(l)),
        Err(e) => Err(e),
    }
}

fn link_from_file(prefix: &str, f: &RecordFile) -> (r: Result<Option<PrefixedLink>, LinkError>)
    ensures
        step_view(r) == file_step(prefix@, *f),
{
    if !is_record_file_name(f.file_name.as_str()) {
        return Ok(None);
    }
    let conf = match load_ini(f.contents.as_str()) {
        None => return Err(LinkError::MalformedRecordError),
        Some(c) => c,
    };
    let mac = ini_get(&conf, "Match", "MACAddress");
    let name = ini_get(&conf, "Link", "Name");
    let mac_ref: Option<&str> = match &mac {
        Some(s) => Some(s.as_str()),
        None => None,
    };
    let name_ref: Option<&str> = match &name {
        Some(s) => Some(s.as_str()),
        None => None,
    };
    record_from_fields(prefix, mac_ref, name_ref)
}

/// What to do for the event device: it already has a record, or it gets a
/// new one.
pub enum Assignment {
    Existing(PrefixedLink),
    Fresh(PrefixedLink),
}

pub open spec fn assignment_view(r: Result<Assignment, LinkError>) -> Result<(bool, LinkView), LinkError> {
    match r {
        Ok(Assignment::Existing(l)) => Ok((false, l@)),
        Ok(Assignment::Fresh(l)) => Ok((true, l@)),
        Err(e) => Err(e),
    }
}

/// The decision for a device with the hardware address `hwaddr`: its record
/// on disk if there is one (`false`), else a new record under the next free
/// name (`true`).
pub open spec fn assignment_model(
    prefix: Seq<char>,
    disk: Seq<LinkView>,
    roster: Seq<LinkView>,
    hwaddr: Seq<char>,
) -> Result<(bool, LinkView), LinkError> {
    match lookup_last(disk, hwaddr) {
        Some(l) => Ok((false, l)),
        None => match next_name(prefix, roster) {
            Err(e) => Err(e),
            Ok(n) => match link_model(n, hwaddr) {
                Err(e) => Err(e),
                Ok(l) => Ok((true, l)),
            },
        },
    }
}

/// The reconciled view of one prefix's names: the records found on disk,
/// and the merged, sorted roster of live and on-disk records.
pub struct NetSetupLinkConfig {
    config: Vec<PrefixedLink>,
    links: Vec<PrefixedLink>,
    ifname_prefix: String,
}

impl NetSetupLinkConfig {
    /// The naming prefix.
    pub closed spec fn prefix(&self) -> Seq<char> {
        self.ifname_prefix@
    }

    /// The records read from disk, in the order of the files.
    pub closed spec fn disk_records(&self) -> Seq<LinkView> {
        views(self.config@)
    }

    /// The merged roster, by ascending sequence number.
    pub closed spec fn roster(&self) -> Seq<LinkView> {
        views(self.links@)
    }

    /// An empty roster for `prefix`.
    pub fn new_with_prefix(prefix: &str) -> (r: Self)
        ensures
            r.prefix() == prefix@,
            r.disk_records() == Seq::<LinkView>::empty(),
            r.roster() == Seq::<LinkView>::empty(),
    {
        let r = NetSetupLinkConfig {
            config: Vec::new(),
            links: Vec::new(),
            ifname_prefix: prefix.to_owned(),
        };
        assert(views(r.config@) =~= Seq::<LinkView>::empty());
        assert(views(r.links@) =~= Seq::<LinkView>::empty());
        r
    }

    /// Fills the roster from the live devices and the record files. On an
    /// error the roster stays as it was.
    pub fn load(&mut self, devices: &Vec<LiveDevice>, files: &Vec<RecordFile>) -> (r: Result<
        (),
        LinkError,
    >)
        ensures
            final(self).prefix() == old(self).prefix(),
            match (live_links(old(self).prefix(), devices@), disk_links(old(self).prefix(), files@)) {
                (Err(e), _) => r == Err::<(), LinkError>(e) && final(self).disk_records()
                    == old(self).disk_records() && final(self).roster() == old(self).roster(),
                (Ok(_), Err(e)) => r == Err::<(), LinkError>(e) && final(self).disk_records()
                    == old(self).disk_records() && final(self).roster() == old(self).roster(),
                (Ok(a), Ok(b)) => r == Ok::<(), LinkError>(()) && final(self).disk_records() == b
                    && final(self).roster() == merged(a, b),
            },
    {
        let ghost prefix = self.ifname_prefix@;
        let ghost dsteps = live_steps(prefix, devices@);
        let mut all: Vec<PrefixedLink> = Vec::new();
        let mut i: usize = 0;
        assert(dsteps.subrange(0, 0) =~= Seq::<Step>::empty());
        assert(views(all@) =~= Seq::<LinkView>::empty());
        while i < devices.len()
            invariant
                prefix == self.ifname_prefix@,
                dsteps == live_steps(prefix, devices@),
                0 <= i <= devices@.len(),
                collect_steps(dsteps.subrange(0, i as int)) == Ok::<Seq<LinkView>, LinkError>(
                    views(all@),
                ),
            decreases devices@.len() - i,
        {
            let step = link_from_device(self.ifname_prefix.as_str(), &devices[i]);
            proof {
                let w = dsteps.subrange(0, i + 1);
                assert(w.drop_last() =~= dsteps.subrange(0, i as int));
                assert(w.last() == live_step(prefix, devices@[i as int]));
            }
            match step {
                Err(e) => {
                    proof {
                        lemma_collect_error(dsteps, i as int + 1, e);
                    }
                    return Err(e);
                },
                Ok(None) => {},
                Ok(Some(l)) => {
                    let ghost before = all@;
                    all.push(l);
                    assert(views(all@) =~= views(before).push(all@.last()@));
                },
            }
            i += 1;
        }
        assert(dsteps.subrange(0, devices@.len() as int) =~= dsteps);
        let ghost live = views(all@);
        let ghost fsteps = file_steps(prefix, files@);
        let mut disk: Vec<PrefixedLink> = Vec::new();
        let mut j: usize = 0;
        assert(fsteps.subrange(0, 0) =~= Seq::<Step>::empty());
        assert(views(disk@) =~= Seq::<LinkView>::empty());
        assert(live + views(disk@) =~= live);
        while j < files.len()
            invariant
                prefix == self.ifname_prefix@,
                fsteps == file_steps(prefix, files@),
                dsteps == live_steps(prefix, devices@),
                prefix == old(self).prefix(),
                collect_steps(dsteps) == Ok::<Seq<LinkView>, LinkError>(live),
                0 <= j <= files@.len(),
                collect_steps(fsteps.subrange(0, j as int)) == Ok::<Seq<LinkView>, LinkError>(
                    views(disk@),
                ),
                views(all@) == live + views(disk@),
            decreases files@.len() - j,
        {
            let step = link_from_file(self.ifname_prefix.as_str(), &files[j]);
            proof {
                let w = fsteps.subrange(0, j + 1);
                assert(w.drop_last() =~= fsteps.subrange(0, j as int));
                assert(w.last() == file_step(prefix, files@[j as int]));
            }
            match step {
                Err(e) => {
                    proof {
                        lemma_collect_error(fsteps, j as int + 1, e);
                    }
                    return Err(e);
                },
                Ok(None) => {},
                Ok(Some(l)) => {
                    let ghost before_all = all@;
                    let ghost before_disk = disk@;
                    all.push(l.duplicate());
                    disk.push(l);
                    assert(views(disk@) =~= views(before_disk).push(disk@.last()@));
                    assert(views(all@) =~= views(before_all).push(disk@.last()@));
                },
            }
            j += 1;
        }
        assert(fsteps.subrange(0, files@.len() as int) =~= fsteps);
        let sorted = sort_links(&all);
        let deduped = dedup_links(&sorted);
        self.links = deduped;
        self.config = disk;
        Ok(())
    }

    /// The record on disk for the hardware address `mac`, if there is one.
    pub fn for_hwaddr(&self, mac: &str) -> (r: Option<PrefixedLink>)
        ensures
            match r {
                Some(l) => lookup_last(self.disk_records(), mac@) == Some(l@),
                None => lookup_last(self.disk_records(), mac@) is None,
            },
    {
        let wanted = mac.to_owned();
        let mut k: usize = self.config.len();
        assert(self.disk_records().subrange(0, k as int) =~= self.disk_records());
        while k > 0
            invariant
                wanted@ == mac@,
                k <= self.config@.len(),
                lookup_last(self.disk_records(), mac@) == lookup_last(
                    self.disk_records().subrange(0, k as int),
                    mac@,
                ),
            decreases k,
        {
            let ghost s = self.disk_records().subrange(0, k as int);
            assert(s.last() == self.config@[k - 1]@);
            if self.config[k - 1].hwaddr == wanted {
                return Some(self.config[k - 1].duplicate());
            }
            assert(s.drop_last() =~= self.disk_records().subrange(0, k - 1));
            k -= 1;
        }
        None
    }

    /// The name to give the next new device: the prefix followed by one
    /// more than the number of the last record of the roster, or by 0 on an
    /// empty roster.
    pub fn next_link_name(&self) -> (r: Result<String, LinkError>)
        ensures
            match r {
                Ok(n) => next_name(self.prefix(), self.roster()) == Ok::<Seq<char>, LinkError>(n@),
                Err(e) => next_name(self.prefix(), self.roster()) == Err::<Seq<char>, LinkError>(e),
            },
    {
        let mut out = self.ifname_prefix.clone();
        if self.links.len() == 0 {
            push_decimal(&mut out, 0);
            return Ok(out);
        }
        let last = &self.links[self.links.len() - 1];
        assert(self.roster().last() == last@);
        let name = last.name.as_str();
        if !has_prefix(name, self.ifname_prefix.as_str()) {
            return Err(LinkError::SequenceParseError);
        }
        let n = match parse_u64_from(name, self.ifname_prefix.unicode_len()) {
            Err(_) => return Err(LinkError::SequenceParseError),
            Ok(n) => n,
        };
        if n == u64::MAX {
            return Err(LinkError::SequenceParseError);
        }
        push_decimal(&mut out, n + 1);
        Ok(out)
    }

    /// Decides the name of the event device, whose hardware address is
    /// `hwaddr`: the one its record on disk gives, or the next free one.
    pub fn assign(&self, hwaddr: &str) -> (r: Result<Assignment, LinkError>)
        ensures
            assignment_view(r) == assignment_model(
                self.prefix(),
                self.disk_records(),
                self.roster(),
                hwaddr@,
            ),
    {
        match self.for_hwaddr(hwaddr) {
            Some(l) => return Ok(Assignment::Existing(l)),
            None => {},
        }
        let name = match self.next_link_name() {
            Err(e) => return Err(e),
            Ok(n) => n,
        };
        match PrefixedLink::new_with_hwaddr(name.as_str(), hwaddr) {
            Err(e) => Err(e),
            Ok(l) => Ok(Assignment::Fresh(l)),
        }
    }

    /// The merged roster.
    pub fn links(&self) -> (r: &Vec<PrefixedLink>)
        ensures
            views(r@) == self.roster(),
    {
        &self.links
    }
}

proof fn lemma_collect_error(steps: Seq<Step>, n: int, e: LinkError)
    requires
        0 < n <= steps.len(),
        collect_steps(steps.subrange(0, n - 1)) is Ok,
        steps[n - 1] == Err::<Option<LinkView>, LinkError>(e),
    ensures
        collect_steps(steps) == Err::<Seq<LinkView>, LinkError>(e),
    decreases steps.len(),
{
    if n < steps.len() {
        assert(steps.drop_last().subrange(0, n - 1) =~= steps.subrange(0, n - 1));
        lemma_collect_error(steps.drop_last(), n, e);
    } else {
        assert(steps.drop_last() =~= steps.subrange(0, n - 1));
    }
}

} // verus!

verus! {

/// On an empty roster the first name is the prefix followed by 0.
pub proof fn lemma_next_name_empty(prefix: Seq<char>)
    ensures
        next_name(prefix, Seq::<LinkView>::empty()) == Ok::<Seq<char>, LinkError>(
            prefix + decimal(0),
        ),
{
}

/// On a sorted roster whose last record is named by the prefix and the
/// digits of its number `N`, that number is the largest, and the next name
/// is the prefix followed by `N + 1`.
pub proof fn lemma_next_name_after_max(prefix: Seq<char>, roster: Seq<LinkView>, digits: Seq<char>)
    requires
        roster.len() > 0,
        sorted_by_index(roster),
        roster.last().0 == prefix + digits,
        all_digits(digits),
        digits_value(digits) == roster.last().1,
        roster.last().1 < u64::MAX,
    ensures
        forall|i: int| 0 <= i < roster.len() ==> roster[i].1 <= roster.last().1,
        next_name(prefix, roster) == Ok::<Seq<char>, LinkError>(
            prefix + decimal((roster.last().1 + 1) as nat),
        ),
{
    let name = roster.last().0;
    assert(name.subrange(0, prefix.len() as int) =~= prefix);
    assert(name.subrange(prefix.len() as int, name.len() as int) =~= digits);
    assert forall|i: int| 0 <= i < roster.len() implies roster[i].1 <= roster.last().1 by {
        if i < roster.len() - 1 {
            assert(roster[i].1 <= roster[roster.len() - 1].1);
        }
    }
}

} // verus!
