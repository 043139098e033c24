//! Looking at a machine.
//!
//! This is the eyes of the judgement: which names under `/sys/block` are
//! drives, what a drive says about itself in sysfs, how it is attached, and
//! which slab stormblock says is on a device. What is read reaches these
//! functions as text, the way the files hold it.
//!
//! Two rules run through all of it. **Positive evidence, never absence of a
//! known error**: a slab is a slab because stormblock named it. **Where a drive
//! is attached is part of what it is**: the same slab that is this node's on a
//! disk in this chassis is somebody else's when it arrives over the network.

use vstd::prelude::*;
use vstd::slice::slice_subrange;

use crate::bytes;
use crate::esp;
use crate::judge;
use crate::names;
use crate::survey::{Drive, DriveView, Verdict};
use crate::text;

verus! {

// ----------------------------------------------------------------- machines
/// Where to look, and what with.
///
/// The paths are fields rather than constants so that a survey can be pointed
/// at a fabricated `/sys` and `/dev`.
#[derive(Debug, PartialEq, Eq)]
pub struct Machine {
    /// Mount point of sysfs.
    pub sysfs: String,
    /// Where the device nodes are.
    pub dev: String,
    /// The stormblock binary that identifies a slab.
    pub stormblock: Option<String>,
    /// Restrict the survey to these drives, by bare name or full path. Empty
    /// means every drive the machine has.
    pub only: Vec<String>,
    /// Who this machine is. `None` means read it where the firmware put it.
    pub identity: Option<String>,
}

/// What a [`Machine`] says.
pub struct MachineView {
    pub sysfs: Seq<char>,
    pub dev: Seq<char>,
    pub stormblock: Option<Seq<char>>,
    pub only: Seq<Seq<char>>,
    pub identity: Option<Seq<char>>,
}

impl View for Machine {
    type V = MachineView;

    open spec fn view(&self) -> MachineView {
        MachineView {
            sysfs: self.sysfs@,
            dev: self.dev@,
            stormblock: text::view_of(self.stormblock),
            only: text::texts(self.only@),
            identity: text::view_of(self.identity),
        }
    }
}

impl Clone for Machine {
    fn clone(&self) -> (r: Self)
        ensures
            r@ == self@,
    {
        Machine {
            sysfs: self.sysfs.clone(),
            dev: self.dev.clone(),
            stormblock: text::copy_option(&self.stormblock),
            only: text::copy_list(&self.only),
            identity: text::copy_option(&self.identity),
        }
    }
}

impl Machine {
    /// The machine that this is running on, with the stormblock that was found
    /// on it.
    pub fn here(stormblock: Option<String>) -> (r: Machine)
        ensures
            r@ == (MachineView {
                sysfs: "/sys"@,
                dev: "/dev"@,
                stormblock: text::view_of(stormblock),
                only: seq![],
                identity: None,
            }),
    {
        let only: Vec<String> = Vec::new();
        assert(text::texts(only@) == Seq::<Seq<char>>::empty());
        Machine {
            sysfs: text::owned("/sys"),
            dev: text::owned("/dev"),
            stormblock,
            only,
            identity: None,
        }
    }
}

// ----------------------------------------------------------------- identity
/// Whether a text, in small letters, is a placeholder that firmware writes when
/// it has nothing to say. Treating one of these as an identity would make every
/// machine of a given model claim to be the same node.
pub open spec fn placeholder(s: Seq<char>) -> bool {
    ||| s == "not specified"@
    ||| s == "to be filled by o.e.m."@
    ||| s == "system serial number"@
    ||| s == "default string"@
    ||| s == "none"@
    ||| s == "0"@
    ||| s == "unknown"@
}

/// The text of an attribute, when there is one and it says anything.
pub open spec fn said(raw: Option<Seq<char>>) -> Option<Seq<char>> {
    match raw {
        Some(s) => if text::trimmed(s).len() == 0 {
            None
        } else {
            Some(text::trimmed(s))
        },
        None => None,
    }
}

/// Who a machine is, from what its firmware put down as its serial number.
pub open spec fn identity_in(serial: Option<Seq<char>>) -> Option<Seq<char>> {
    match said(serial) {
        Some(s) => if placeholder(text::ascii_lowered(s)) {
            None
        } else {
            Some(s)
        },
        None => None,
    }
}

/// The text of an attribute, when there is one and it says anything.
fn what_is_said(raw: &Option<String>) -> (r: Option<String>)
    ensures
        text::view_of(r) == said(text::view_of(*raw)),
{
    match raw {
        Some(s) => {
            let chars = text::chars_of(s.as_str());
            let t = text::trim(chars.as_slice());
            if t.len() == 0 {
                None
            } else {
                Some(text::text_of(t))
            }
        },
        None => None,
    }
}

fn is_placeholder(s: &str) -> (r: bool)
    ensures
        r == placeholder(s@),
{
    text::equal(s, "not specified") || text::equal(s, "to be filled by o.e.m.") || text::equal(
        s,
        "system serial number",
    ) || text::equal(s, "default string") || text::equal(s, "none") || text::equal(s, "0")
        || text::equal(s, "unknown")
}

/// Where the firmware's name for the machine is, below the sysfs mount point:
/// the SMBIOS type 1 serial, which on a Dell is the service tag.
pub const IDENTITY_FILE: &'static str = "class/dmi/id/product_serial";

/// Who this machine is, as the firmware names it, from the contents of
/// [`IDENTITY_FILE`] when it could be read.
pub fn machine_identity(serial: &Option<String>) -> (r: Option<String>)
    ensures
        text::view_of(r) == identity_in(text::view_of(*serial)),
{
    let s = match what_is_said(serial) {
        Some(s) => s,
        None => return None,
    };
    let chars = text::chars_of(s.as_str());
    let small = text::text_of(text::ascii_lower(chars.as_slice()).as_slice());
    if is_placeholder(small.as_str()) {
        None
    } else {
        Some(s)
    }
}

impl Machine {
    /// Who the machine is: what it was said to be, or what its firmware says.
    pub fn who(&self, serial: &Option<String>) -> (r: Option<String>)
        ensures
            text::view_of(r) == match self@.identity {
                Some(s) => Some(s),
                None => identity_in(text::view_of(*serial)),
            },
    {
        match &self.identity {
            Some(s) => Some(s.clone()),
            None => machine_identity(serial),
        }
    }
}

// --------------------------------------------------------------- stormblock
/// The directories of a search path, the empty ones left out, each with
/// `stormblock` in it.
pub open spec fn in_directories(dirs: Seq<Seq<char>>) -> Seq<Seq<char>>
    decreases dirs.len(),
{
    if dirs.len() == 0 {
        seq![]
    } else {
        let before = in_directories(dirs.drop_last());
        if dirs.last().len() == 0 {
            before
        } else {
            before.push(names::path_in(dirs.last(), "stormblock"@))
        }
    }
}

/// Where a stormblock is looked for, in order.
pub open spec fn candidates(search_path: Option<Seq<char>>) -> Seq<Seq<char>> {
    seq!["/usr/sbin/stormblock"@, "/sbin/stormblock"@, "/usr/bin/stormblock"@] + (
    match search_path {
        Some(p) => in_directories(names::piece_list(p, ':')),
        None => seq![],
    })
}

/// Where a stormblock is looked for, in order: the places where the initramfs
/// carries it first, since that is where this runs, then along the search path
/// when there is one. The first of these that is a file is the one.
pub fn stormblock_candidates(search_path: &Option<String>) -> (r: Vec<String>)
    ensures
        text::texts(r@) == candidates(text::view_of(*search_path)),
{
    let mut r: Vec<String> = Vec::new();
    r.push(text::owned("/usr/sbin/stormblock"));
    r.push(text::owned("/sbin/stormblock"));
    r.push(text::owned("/usr/bin/stormblock"));
    let ghost fixed = seq![
        "/usr/sbin/stormblock"@,
        "/sbin/stormblock"@,
        "/usr/bin/stormblock"@,
    ];
    assert(text::texts(r@) == fixed);
    if let Some(path) = search_path {
        let chars = text::chars_of(path.as_str());
        let dirs = names::pieces(chars.as_slice(), ':');
        let ghost all = text::views(dirs@);
        let mut i: usize = 0;
        assert(text::texts(r@) == fixed + in_directories(all.take(0)));
        while i < dirs.len()
            invariant
                i <= dirs.len(),
                all == text::views(dirs@),
                text::texts(r@) == fixed + in_directories(all.take(i as int)),
            decreases dirs.len() - i,
        {
            let ghost before = r@;
            proof {
                assert(all.take(i + 1).drop_last() == all.take(i as int));
                assert(all.take(i + 1).last() == dirs[i as int]@);
            }
            if dirs[i].len() > 0 {
                let dir = text::text_of(dirs[i]);
                r.push(names::join_path(dir.as_str(), "stormblock"));
                assert(text::texts(r@) == text::texts(before).push(
                    names::path_in(dir@, "stormblock"@),
                ));
            }
            i = i + 1;
        }
        assert(all.take(i as int) == all);
    }
    r
}

// --------------------------------------------------------------- drive names
/// Whether a name under `/sys/block` is not that of a drive, or is a second
/// view of one. Taking any of these would be either meaningless or a way to
/// format the same disk twice through a different name.
pub open spec fn not_a_drive(name: Seq<char>) -> bool {
    ||| text::has_prefix(name, "loop"@)
    ||| text::has_prefix(name, "ram"@)
    ||| text::has_prefix(name, "zram"@)
    ||| text::has_prefix(name, "dm-"@)
    ||| text::has_prefix(name, "md"@)
    ||| text::has_prefix(name, "sr"@)
    ||| text::has_prefix(name, "fd"@)
    ||| text::has_prefix(name, "nbd"@)
    ||| text::has_prefix(name, "zd"@)
}

fn begins(name: &[char], with: &str) -> (r: bool)
    ensures
        r == text::has_prefix(name@, with@),
{
    text::starts_with(name, text::chars_of(with).as_slice())
}

/// Whether a name under `/sys/block` is not that of a drive, or is a second
/// view of one.
pub fn is_not_a_drive(name: &str) -> (r: bool)
    ensures
        r == not_a_drive(name@),
{
    let chars = text::chars_of(name);
    let n = chars.as_slice();
    begins(n, "loop") || begins(n, "ram") || begins(n, "zram") || begins(n, "dm-") || begins(n, "md")
        || begins(n, "sr") || begins(n, "fd") || begins(n, "nbd") || begins(n, "zd")
}

impl MachineView {
    /// Whether a drive is one of those that were asked about: by its name, or
    /// by a path that ends in it.
    pub open spec fn wants(self, name: Seq<char>) -> bool {
        self.only.len() == 0 || exists|i: int|
            0 <= i < self.only.len() && (#[trigger] self.only[i] == name || names::name_at_end(
                self.only[i],
            ) == Some(name))
    }

    /// Whether a name under `/sys/block` is that of a drive to look at.
    pub open spec fn looks_at(self, name: Seq<char>) -> bool {
        !not_a_drive(name) && self.wants(name)
    }
}

impl Machine {
    /// Whether a drive is one of those that were asked about.
    pub fn wants(&self, name: &str) -> (r: bool)
        ensures
            r == self@.wants(name@),
    {
        let only = &self.only;
        if only.len() == 0 {
            return true;
        }
        let n = text::chars_of(name);
        let mut i: usize = 0;
        while i < only.len()
            invariant
                i <= only.len(),
                n@ == name@,
                *only == self.only,
                forall|k: int|
                    0 <= k < i ==> !(#[trigger] self@.only[k] == name@ || names::name_at_end(
                        self@.only[k],
                    ) == Some(name@)),
            decreases only.len() - i,
        {
            let w = text::chars_of(only[i].as_str());
            assert(self@.only[i as int] == w@);
            if text::same(w.as_slice(), n.as_slice()) {
                return true;
            }
            if let Some(f) = names::file_name(w.as_slice()) {
                if text::same(f, n.as_slice()) {
                    return true;
                }
            }
            i = i + 1;
        }
        false
    }

    /// The drives to look at, in order, out of the names under `/sys/block`.
    pub fn drive_names(&self, listing: &Vec<String>) -> (r: Vec<String>)
        ensures
            names::in_order(text::texts(r@)),
            text::texts(r@).to_multiset() == text::texts(listing@).filter(
                |n: Seq<char>| self@.looks_at(n),
            ).to_multiset(),
            forall|n: Seq<char>| #[trigger]
                text::texts(r@).contains(n) <==> text::texts(listing@).contains(n)
                    && names_a_drive(n) && asked_about(text::texts(self.only@), n),
    {
        let mut kept: Vec<String> = Vec::new();
        let ghost all = text::texts(listing@);
        let ghost keep = |n: Seq<char>| self@.looks_at(n);
        let mut i: usize = 0;
        proof {
            reveal(Seq::filter);
            assert(text::texts(kept@) == all.take(0).filter(keep));
        }
        while i < listing.len()
            invariant
                i <= listing.len(),
                all == text::texts(listing@),
                keep == |n: Seq<char>| self@.looks_at(n),
                text::texts(kept@) == all.take(i as int).filter(keep),
            decreases listing.len() - i,
        {
            let name = &listing[i];
            let ghost before = kept@;
            proof {
                reveal(Seq::filter);
                assert(all.take(i + 1).drop_last() == all.take(i as int));
                assert(all.take(i + 1).last() == name@);
            }
            if !is_not_a_drive(name.as_str()) && self.wants(name.as_str()) {
                kept.push(name.clone());
                assert(text::texts(kept@) == text::texts(before).push(name@));
            }
            i = i + 1;
        }
        assert(all.take(i as int) == all);
        let r = names::sort(&kept);
        proof {
            broadcast use vstd::seq_lib::to_multiset_contains;

            let listed = all.filter(keep);
            assert forall|n: Seq<char>| text::texts(r@).contains(n) == listed.contains(n) by {
                assert(text::texts(r@).to_multiset().count(n) == listed.to_multiset().count(n));
            }
            assert forall|n: Seq<char>| #[trigger]
                text::texts(r@).contains(n) <==> all.contains(n) && names_a_drive(n) && asked_about(
                    text::texts(self.only@),
                    n,
                ) by {
                law_which_names_are_looked_at(self@, n);
                if listed.contains(n) {
                    let k = choose|k: int| 0 <= k < listed.len() && listed[k] == n;
                    all.lemma_filter_pred(keep, k);
                    all.lemma_filter_contains_rev(keep, n);
                }
                if all.contains(n) && keep(n) {
                    let k = choose|k: int| 0 <= k < all.len() && all[k] == n;
                    all.lemma_filter_contains(keep, k);
                }
            }
        }
        r
    }
}

// --------------------------------------------------------------- attributes
/// What sysfs says of a drive: the contents of each of these files, as far as
/// they could be read, and where the drive's directory points.
#[derive(Debug, PartialEq, Eq)]
pub struct Attributes {
    /// `size`: the capacity in sectors of 512 bytes, whatever the drive's own
    /// logical block size is.
    pub size: Option<String>,
    /// `queue/rotational`.
    pub rotational: Option<String>,
    /// `removable`.
    pub removable: Option<String>,
    /// `device/model`.
    pub model: Option<String>,
    /// `wwid`.
    pub wwid: Option<String>,
    /// `device/serial`.
    pub serial: Option<String>,
    /// `device/transport`.
    pub transport: Option<String>,
    /// Where the link that is the drive's directory points.
    pub link: Option<String>,
}

/// What [`Attributes`] say.
pub struct AttributesView {
    pub size: Option<Seq<char>>,
    pub rotational: Option<Seq<char>>,
    pub removable: Option<Seq<char>>,
    pub model: Option<Seq<char>>,
    pub wwid: Option<Seq<char>>,
    pub serial: Option<Seq<char>>,
    pub transport: Option<Seq<char>>,
    pub link: Option<Seq<char>>,
}

impl View for Attributes {
    type V = AttributesView;

    open spec fn view(&self) -> AttributesView {
        AttributesView {
            size: text::view_of(self.size),
            rotational: text::view_of(self.rotational),
            removable: text::view_of(self.removable),
            model: text::view_of(self.model),
            wwid: text::view_of(self.wwid),
            serial: text::view_of(self.serial),
            transport: text::view_of(self.transport),
            link: text::view_of(self.link),
        }
    }
}

/// The number an attribute holds, with white space around it or not.
pub open spec fn number_of(raw: Option<Seq<char>>, otherwise: u64) -> u64 {
    match raw {
        Some(s) => match text::number_in(text::trimmed(s)) {
            Some(n) => n,
            None => otherwise,
        },
        None => otherwise,
    }
}

/// Reads the number an attribute holds.
pub fn read_u64(raw: &Option<String>) -> (r: Option<u64>)
    ensures
        r == match text::view_of(*raw) {
            Some(s) => text::number_in(text::trimmed(s)),
            None => None,
        },
{
    match raw {
        Some(s) => {
            let chars = text::chars_of(s.as_str());
            text::parse_u64(text::trim(chars.as_slice()))
        },
        None => None,
    }
}

fn read_or(raw: &Option<String>, otherwise: u64) -> (r: u64)
    ensures
        r == number_of(text::view_of(*raw), otherwise),
{
    match read_u64(raw) {
        Some(n) => n,
        None => otherwise,
    }
}

impl AttributesView {
    /// How many sectors of 512 bytes the drive has: none when it does not say.
    pub open spec fn sectors(self) -> u64 {
        number_of(self.size, 0)
    }

    /// Whether the drive spins: so it does when it does not say.
    pub open spec fn spins(self) -> bool {
        number_of(self.rotational, 1) == 1
    }

    /// Whether the drive is removable: not so when it does not say.
    pub open spec fn comes_out(self) -> bool {
        number_of(self.removable, 0) == 1
    }
}

impl Attributes {
    /// How many sectors of 512 bytes the drive has.
    pub fn sectors(&self) -> (r: u64)
        ensures
            r == self@.sectors(),
    {
        read_or(&self.size, 0)
    }
}

// ----------------------------------------------------------------- transport
/// What a place in the device tree says of how a device is attached.
pub open spec fn by_place(link: Seq<char>) -> Option<Seq<char>> {
    if text::occurs(link, "/session"@) || text::occurs(link, "iscsi"@) {
        Some("iSCSI"@)
    } else if text::occurs(link, "/rport-"@) || text::occurs(link, "fc_host"@) {
        Some("Fibre Channel"@)
    } else if text::occurs(link, "nvme-fabrics"@) {
        Some("NVMe-oF"@)
    } else {
        None
    }
}

/// How a drive got here, when it did not get here by being plugged in. NVMe
/// states it outright; everything else states it in where the device hangs in
/// the device tree.
pub open spec fn attached_over(transport: Option<Seq<char>>, link: Option<Seq<char>>) -> Option<
    Seq<char>,
> {
    match said(transport) {
        Some(t) if t != "pcie"@ => Some("nvme-"@ + t),
        _ => match link {
            Some(l) => by_place(l),
            None => None,
        },
    }
}

fn mentions(link: &[char], marker: &str) -> (r: bool)
    ensures
        r == text::occurs(link@, marker@),
{
    text::contains(link, text::chars_of(marker).as_slice())
}

/// How the drive got here, when it did not get here by being plugged in.
/// `None` means local: this chassis, this node, nobody else's reach.
pub fn remote_transport(transport: &Option<String>, link: &Option<String>) -> (r: Option<String>)
    ensures
        text::view_of(r) == attached_over(text::view_of(*transport), text::view_of(*link)),
{
    if let Some(t) = what_is_said(transport) {
        if !text::equal(t.as_str(), "pcie") {
            let mut r = text::owned("nvme-");
            r.append(t.as_str());
            return Some(r);
        }
    }
    let link = match link {
        Some(l) => text::chars_of(l.as_str()),
        None => return None,
    };
    let l = link.as_slice();
    if mentions(l, "/session") || mentions(l, "iscsi") {
        Some(text::owned("iSCSI"))
    } else if mentions(l, "/rport-") || mentions(l, "fc_host") {
        Some(text::owned("Fibre Channel"))
    } else if mentions(l, "nvme-fabrics") {
        Some(text::owned("NVMe-oF"))
    } else {
        None
    }
}

// ---------------------------------------------------------------- partitions
/// An entry of a drive's directory in sysfs.
#[derive(Debug, PartialEq, Eq)]
pub struct Child {
    pub name: String,
    /// Whether there is a `partition` in it.
    pub is_partition: bool,
}

/// Whether an entry of a drive's directory is one of its partitions: it says
/// so, and is named after the drive.
pub open spec fn is_part(child: Child, name: Seq<char>) -> bool {
    child.is_partition && text::has_prefix(child.name@, name) && child.name@.len() > name.len()
}

/// The names of a drive's partitions, as they are listed.
pub open spec fn part_names(children: Seq<Child>, name: Seq<char>) -> Seq<Seq<char>>
    decreases children.len(),
{
    if children.len() == 0 {
        seq![]
    } else {
        let before = part_names(children.drop_last(), name);
        if is_part(children.last(), name) {
            before.push(children.last().name@)
        } else {
            before
        }
    }
}

/// The partitions the kernel found on a drive, in order.
pub fn partitions(children: &Vec<Child>, name: &str) -> (r: Vec<String>)
    ensures
        names::in_order(text::texts(r@)),
        text::texts(r@).to_multiset() == part_names(children@, name@).to_multiset(),
        forall|n: Seq<char>| #[trigger]
            text::texts(r@).contains(n) <==> exists|i: int|
                {
                    &&& 0 <= i < children@.len()
                    &&& (#[trigger] children@[i]).name@ == n
                    &&& children@[i].is_partition
                    &&& n.len() > name@.len()
                    &&& n.take(name@.len() as int) == name@
                },
{
    let n = text::chars_of(name);
    let mut kept: Vec<String> = Vec::new();
    let mut i: usize = 0;
    assert(text::texts(kept@) == part_names(children@.take(0), name@));
    while i < children.len()
        invariant
            i <= children.len(),
            n@ == name@,
            text::texts(kept@) == part_names(children@.take(i as int), name@),
        decreases children.len() - i,
    {
        let child = &children[i];
        let c = text::chars_of(child.name.as_str());
        let ghost before = kept@;
        proof {
            assert(children@.take(i + 1).drop_last() == children@.take(i as int));
        }
        if child.is_partition && c.len() > n.len() && text::starts_with(c.as_slice(), n.as_slice()) {
            kept.push(child.name.clone());
            assert(text::texts(kept@) == text::texts(before).push(child.name@));
        }
        i = i + 1;
    }
    assert(children@.take(i as int) == children@);
    let r = names::sort(&kept);
    proof {
        broadcast use vstd::seq_lib::to_multiset_contains;

        let listed = part_names(children@, name@);
        assert forall|n: Seq<char>| text::texts(r@).contains(n) == listed.contains(n) by {
            assert(text::texts(r@).to_multiset().count(n) == listed.to_multiset().count(n));
        }
        assert forall|n: Seq<char>| #[trigger] text::texts(r@).contains(n) <==> exists|i: int|
            {
                &&& 0 <= i < children@.len()
                &&& (#[trigger] children@[i]).name@ == n
                &&& children@[i].is_partition
                &&& n.len() > name@.len()
                &&& n.take(name@.len() as int) == name@
            } by {
            law_the_partitions_of_a_drive(children@, name@, n);
        }
    }
    r
}

// ------------------------------------------------------------ what is seen
/// Who has claimed a drive on its ESP, when it has one and anyone has.
pub open spec fn claimant(found: Option<esp::EspView>) -> Option<Seq<char>> {
    match found {
        Some(e) => match e.claim {
            Some(c) => Some(c.node),
            None => None,
        },
        None => None,
    }
}

/// What an ESP says, when there is one.
pub open spec fn esp_view(found: Option<esp::Esp>) -> Option<esp::EspView> {
    match found {
        Some(e) => Some(e@),
        None => None,
    }
}

/// What a partition table says, when there is one.
pub open spec fn table_view(table: Option<esp::Table>) -> Option<esp::TableView> {
    match table {
        Some(t) => Some(t@),
        None => None,
    }
}

/// What is known of a drive before anything on it is read, for the judgement.
pub open spec fn case_for(
    m: MachineView,
    me: Option<Seq<char>>,
    name: Seq<char>,
    attrs: AttributesView,
    parts: Seq<Seq<char>>,
    found: Option<esp::EspView>,
) -> judge::CaseView {
    judge::CaseView {
        path: names::path_in(m.dev, name),
        size_bytes: (attrs.sectors() * 512) as u64,
        removable: attrs.comes_out(),
        model: said(attrs.model),
        remote: attached_over(attrs.transport, attrs.link),
        parts,
        can_identify: m.stormblock is Some,
        me,
        claimed_by: claimant(found),
    }
}

/// What is known of a drive before anything on it is read, for the judgement.
pub fn case_of(
    m: &Machine,
    me: &Option<String>,
    name: &str,
    attrs: &Attributes,
    parts: Vec<String>,
    found: &Option<esp::Esp>,
) -> (r: judge::Case)
    requires
        attrs@.sectors() * 512 <= u64::MAX,
    ensures
        r@ == case_for(
            m@,
            text::view_of(*me),
            name@,
            attrs@,
            text::texts(parts@),
            esp_view(*found),
        ),
        r.parts == parts,
        r.can_identify == (m.stormblock is Some),
        text::view_of(r.me) == text::view_of(*me),
        r.claimed_by matches Some(node) ==> found matches Some(e) && e.claim matches Some(c)
            && c.node@ == node@,
        found matches Some(e) && e.claim is Some ==> r.claimed_by is Some,
        attribute_text(attrs.removable) == Some("1"@) ==> r.removable,
        attribute_text(attrs.removable) == Some("0"@) ==> !r.removable,
        attribute_text(attrs.removable) matches Some(t) ==> r.removable == (text::number_in(t)
            == Some(1u64)),
        attrs.removable is None ==> !r.removable,
        attribute_text(attrs.size) matches Some(t) ==> {
            &&& text::number_in(t) is None ==> r.size_bytes == 0
            &&& text::number_in(t) matches Some(n) ==> r.size_bytes == n * 512
        },
        attrs.size is None ==> r.size_bytes == 0,
        holds_text(r.model, attrs.model),
        text::view_of(r.remote) == attached_over(
            text::view_of(attrs.transport),
            text::view_of(attrs.link),
        ),
        m.dev@.len() > 0 && m.dev@.last() != '/' && !(name@.len() > 0 && name@[0] == '/')
            ==> r.path@ == m.dev@ + seq!['/'] + name@,
{
    proof {
        lemma_attributes(*attrs);
    }
    let claimed_by = match found {
        Some(e) => match &e.claim {
            Some(c) => Some(c.node.clone()),
            None => None,
        },
        None => None,
    };
    judge::Case {
        path: names::join_path(m.dev.as_str(), name),
        size_bytes: attrs.sectors() * 512,
        removable: read_or(&attrs.removable, 0) == 1,
        model: what_is_said(&attrs.model),
        remote: remote_transport(&attrs.transport, &attrs.link),
        parts,
        can_identify: m.stormblock.is_some(),
        me: text::copy_option(me),
        claimed_by,
    }
}

/// A drive, with what it says of itself and the verdict on it.
pub fn look_at(
    m: &Machine,
    name: &str,
    attrs: &Attributes,
    table: Option<esp::Table>,
    found: Option<esp::Esp>,
    verdict: Verdict,
) -> (r: Drive)
    requires
        attrs@.sectors() * 512 <= u64::MAX,
    ensures
        r@ == (DriveView {
            path: names::path_in(m@.dev, name@),
            size_bytes: (attrs@.sectors() * 512) as u64,
            rotational: attrs@.spins(),
            model: said(attrs@.model),
            wwid: said(attrs@.wwid),
            serial: said(attrs@.serial),
            table: table_view(table),
            esp: esp_view(found),
            verdict: verdict@,
        }),
        r.verdict == verdict,
        r.esp == found,
        r.table == table,
        attribute_text(attrs.rotational) == Some("1"@) ==> r.rotational,
        attribute_text(attrs.rotational) == Some("0"@) ==> !r.rotational,
        attribute_text(attrs.rotational) matches Some(t) ==> {
            &&& text::number_in(t) is None ==> r.rotational
            &&& text::number_in(t) matches Some(n) ==> r.rotational == (n == 1)
        },
        attrs.rotational is None ==> r.rotational,
        attribute_text(attrs.size) matches Some(t) ==> {
            &&& text::number_in(t) is None ==> r.size_bytes == 0
            &&& text::number_in(t) matches Some(n) ==> r.size_bytes == n * 512
        },
        attrs.size is None ==> r.size_bytes == 0,
        m.dev@.len() > 0 && m.dev@.last() != '/' && !(name@.len() > 0 && name@[0] == '/')
            ==> r.path@ == m.dev@ + seq!['/'] + name@,
        holds_text(r.model, attrs.model),
        holds_text(r.wwid, attrs.wwid),
        holds_text(r.serial, attrs.serial),
{
    proof {
        lemma_attributes(*attrs);
    }
    Drive {
        path: names::join_path(m.dev.as_str(), name),
        size_bytes: attrs.sectors() * 512,
        rotational: read_or(&attrs.rotational, 1) == 1,
        model: what_is_said(&attrs.model),
        wwid: what_is_said(&attrs.wwid),
        serial: what_is_said(&attrs.serial),
        table,
        esp: found,
        verdict,
    }
}

/// Absence of a known error is not evidence of emptiness: a drive that does not
/// say how large it is has no medium, and is never taken.
pub proof fn law_a_drive_that_does_not_say_its_size_is_never_taken(
    m: MachineView,
    me: Option<Seq<char>>,
    name: Seq<char>,
    attrs: AttributesView,
    parts: Seq<Seq<char>>,
    found: Option<esp::EspView>,
    world: judge::World,
)
    requires
        attrs.sectors() == 0,
    ensures
        judge::verdict_on(case_for(m, me, name, attrs, parts, found), world)
            == (crate::survey::VerdictView::Unreadable {
            why: "no medium (reports zero sectors)"@,
        }),
{
}

/// A drive that states a transport other than its own PCIe slot is neither
/// taken nor this node's, whatever is on it.
pub proof fn law_a_drive_over_a_stated_transport_is_left_alone(
    m: MachineView,
    me: Option<Seq<char>>,
    name: Seq<char>,
    attrs: AttributesView,
    parts: Seq<Seq<char>>,
    found: Option<esp::EspView>,
    world: judge::World,
)
    requires
        said(attrs.transport) matches Some(t) && t != "pcie"@,
    ensures
        !(judge::verdict_on(case_for(m, me, name, attrs, parts, found), world) is Blank),
        !(judge::verdict_on(case_for(m, me, name, attrs, parts, found), world) is Mine),
{
    judge::law_nothing_over_the_network_is_ever_taken(
        case_for(m, me, name, attrs, parts, found),
        world,
    );
}

// ------------------------------------------------------------ naming a slab
/// How many characters a text begins with that can stand in a UUID.
pub open spec fn uuid_len(s: Seq<char>) -> nat
    decreases s.len(),
{
    if s.len() == 0 || !(text::hex_digit(s.first()) || s.first() == '-') {
        0
    } else {
        1 + uuid_len(s.drop_first())
    }
}

/// How many characters come before the first comma or closing bracket.
pub open spec fn role_len(s: Seq<char>) -> nat
    decreases s.len(),
{
    if s.len() == 0 || s.first() == ',' || s.first() == ')' {
        0
    } else {
        1 + role_len(s.drop_first())
    }
}

/// The role that a line about a slab gives it.
pub open spec fn role_in(rest: Seq<char>) -> Seq<char> {
    match text::split_at_text(rest, "role="@) {
        Some((_, r)) => {
            let role = text::trimmed(r.take(role_len(r) as int));
            if role.len() == 0 {
                "unknown"@
            } else {
                role
            }
        },
        None => "unknown"@,
    }
}

/// The name and the role of the slab that a line is about. A slab identifies
/// itself with a UUID; anything else is a line that happened to contain the
/// words.
pub open spec fn slab_in_line(line: Seq<char>) -> Option<(Seq<char>, Seq<char>)> {
    match text::split_at_text(line, ": slab "@) {
        Some((_, rest)) => if uuid_len(rest) != 36 {
            None
        } else {
            Some((rest.take(36), role_in(rest)))
        },
        None => None,
    }
}

/// The first slab that any of the lines is about.
pub open spec fn first_slab_in(lines: Seq<Seq<char>>) -> Option<(Seq<char>, Seq<char>)>
    decreases lines.len(),
{
    if lines.len() == 0 {
        None
    } else {
        match slab_in_line(lines.first()) {
            Some(s) => Some(s),
            None => first_slab_in(lines.drop_first()),
        }
    }
}

proof fn lemma_uuid_len(s: Seq<char>, n: int)
    requires
        0 <= n <= s.len(),
        forall|i: int| 0 <= i < n ==> text::hex_digit(#[trigger] s[i]) || s[i] == '-',
        n < s.len() ==> !(text::hex_digit(s[n]) || s[n] == '-'),
    ensures
        uuid_len(s) == n,
    decreases s.len(),
{
    if n > 0 {
        assert(s.first() == s[0]);
        assert forall|i: int| 0 <= i < n - 1 implies text::hex_digit(
            #[trigger] s.drop_first()[i],
        ) || s.drop_first()[i] == '-' by {
            assert(s.drop_first()[i] == s[i + 1]);
        }
        lemma_uuid_len(s.drop_first(), n - 1);
    }
}

proof fn lemma_role_len(s: Seq<char>, n: int)
    requires
        0 <= n <= s.len(),
        forall|i: int| 0 <= i < n ==> #[trigger] s[i] != ',' && s[i] != ')',
        n < s.len() ==> s[n] == ',' || s[n] == ')',
    ensures
        role_len(s) == n,
    decreases s.len(),
{
    if n > 0 {
        assert(s.first() == s[0]);
        assert forall|i: int| 0 <= i < n - 1 implies #[trigger] s.drop_first()[i] != ','
            && s.drop_first()[i] != ')' by {
            assert(s.drop_first()[i] == s[i + 1]);
        }
        lemma_role_len(s.drop_first(), n - 1);
    }
}

proof fn lemma_uuid_chars(s: Seq<char>)
    ensures
        uuid_len(s) <= s.len(),
        forall|i: int| 0 <= i < uuid_len(s) ==> text::hex_digit(#[trigger] s[i]) || s[i] == '-',
    decreases s.len(),
{
    if s.len() > 0 {
        lemma_uuid_chars(s.drop_first());
        assert forall|i: int| 0 <= i < uuid_len(s) implies text::hex_digit(#[trigger] s[i]) || s[i]
            == '-' by {
            if i > 0 {
                assert(s[i] == s.drop_first()[i - 1]);
            }
        }
    }
}

/// A slab that was named has a name of 36 hexadecimal digits and dashes, and a
/// role that is not empty.
pub proof fn law_a_slab_is_named_by_a_uuid(line: Seq<char>)
    ensures
        slab_in_line(line) matches Some((id, role)) ==> {
            &&& id.len() == 36
            &&& forall|i: int| 0 <= i < 36 ==> text::hex_digit(#[trigger] id[i]) || id[i] == '-'
            &&& role.len() > 0
        },
{
    reveal_strlit("unknown");
    if let Some((_, rest)) = text::split_at_text(line, ": slab "@) {
        lemma_uuid_chars(rest);
    }
}

fn count_uuid(s: &[char]) -> (r: usize)
    ensures
        r == uuid_len(s@),
        r <= s@.len(),
{
    let mut i: usize = 0;
    while i < s.len() && (text::is_hex_digit(s[i]) || s[i] == '-')
        invariant
            i <= s.len(),
            forall|k: int| 0 <= k < i ==> text::hex_digit(#[trigger] s@[k]) || s@[k] == '-',
        decreases s.len() - i,
    {
        i = i + 1;
    }
    proof {
        lemma_uuid_len(s@, i as int);
    }
    i
}

fn count_role(s: &[char]) -> (r: usize)
    ensures
        r == role_len(s@),
        r <= s@.len(),
{
    let mut i: usize = 0;
    while i < s.len() && s[i] != ',' && s[i] != ')'
        invariant
            i <= s.len(),
            forall|k: int| 0 <= k < i ==> #[trigger] s@[k] != ',' && s@[k] != ')',
        decreases s.len() - i,
    {
        i = i + 1;
    }
    proof {
        lemma_role_len(s@, i as int);
    }
    i
}

fn find_role(rest: &[char]) -> (r: String)
    ensures
        r@ == role_in(rest@),
{
    if let Some(r) = text::after_text(rest, text::chars_of("role=").as_slice()) {
        let n: usize = count_role(r);
        assert(r@.take(n as int) == r@.subrange(0, n as int));
        let role = text::trim(slice_subrange(r, 0, n));
        if role.len() > 0 {
            return text::text_of(role);
        }
    }
    text::owned("unknown")
}

fn parse_line(line: &[char]) -> (r: Option<(String, String)>)
    ensures
        judge::named_of(r) == slab_in_line(line@),
{
    let rest = match text::after_text(line, text::chars_of(": slab ").as_slice()) {
        Some(rest) => rest,
        None => return None,
    };
    if count_uuid(rest) != 36 {
        return None;
    }
    assert(rest@.take(36) == rest@.subrange(0, 36));
    let id = text::text_of(slice_subrange(rest, 0, 36));
    Some((id, find_role(rest)))
}

/// Reads the name and the role of a slab from a line that says it is one:
///
/// ```text
/// /dev/sdb: slab 7661cf8b-... (role=data, tier=hot, 4096 slots, 3900 free)
/// ```
pub fn parse_slab_line(line: &str) -> (r: Option<(String, String)>)
    ensures
        judge::named_of(r) == slab_in_line(line@),
{
    parse_line(text::chars_of(line).as_slice())
}

/// Which slab stormblock says a device is, from the lines it wrote.
pub fn slab_listed(stdout: &str) -> (r: Option<(String, String)>)
    ensures
        judge::named_of(r) == first_slab_in(text::line_list(stdout@)),
{
    let chars = text::chars_of(stdout);
    let lines = text::lines(chars.as_slice());
    let ghost all = text::views(lines@);
    let mut i: usize = 0;
    assert(all.skip(0) == all);
    while i < lines.len()
        invariant
            i <= lines.len(),
            all == text::views(lines@),
            all == text::line_list(stdout@),
            first_slab_in(all) == first_slab_in(all.skip(i as int)),
        decreases lines.len() - i,
    {
        let found = parse_line(lines[i]);
        assert(all.skip(i as int).first() == lines[i as int]@);
        assert(all.skip(i as int).drop_first() == all.skip(i + 1));
        if found.is_some() {
            return found;
        }
        i = i + 1;
    }
    None
}

/// Which slab stormblock says a device is, from everything it wrote. Positive
/// evidence only: "not a slab", "cannot open", a drive that answers `ENOMEDIUM`
/// are not a slab.
pub fn identify_slab(stdout: &[u8]) -> (r: Option<(String, String)>)
    ensures
        judge::named_of(r) == first_slab_in(text::line_list(bytes::utf8_lossy(stdout@))),
        bytes::utf8_in(stdout@) matches Some(s) ==> judge::named_of(r) == first_slab_in(
            text::line_list(s),
        ),
{
    slab_listed(bytes::lossy_text(stdout).as_str())
}

// -------------------------------------------------------------------- laws
/// What an attribute says, without the white space round it, when it was read.
pub open spec fn attribute_text(raw: Option<String>) -> Option<Seq<char>> {
    match raw {
        Some(s) => Some(text::trimmed(s@)),
        None => None,
    }
}

/// Whether a text is what an attribute says, and none when it says nothing.
pub open spec fn holds_text(t: Option<String>, raw: Option<String>) -> bool {
    match t {
        Some(x) => x@.len() > 0 && attribute_text(raw) == Some(x@),
        None => match attribute_text(raw) {
            Some(y) => y.len() == 0,
            None => true,
        },
    }
}

/// Whether a name under `/sys/block` is that of a drive, by how it begins.
pub open spec fn names_a_drive(n: Seq<char>) -> bool {
    &&& !(n.len() >= 4 && n.take(4) == seq!['l', 'o', 'o', 'p'])
    &&& !(n.len() >= 3 && n.take(3) == seq!['r', 'a', 'm'])
    &&& !(n.len() >= 4 && n.take(4) == seq!['z', 'r', 'a', 'm'])
    &&& !(n.len() >= 3 && n.take(3) == seq!['d', 'm', '-'])
    &&& !(n.len() >= 2 && n.take(2) == seq!['m', 'd'])
    &&& !(n.len() >= 2 && n.take(2) == seq!['s', 'r'])
    &&& !(n.len() >= 2 && n.take(2) == seq!['f', 'd'])
    &&& !(n.len() >= 3 && n.take(3) == seq!['n', 'b', 'd'])
    &&& !(n.len() >= 2 && n.take(2) == seq!['z', 'd'])
}

/// Whether a drive was asked about: nothing was, or its name was, or a path that
/// ends in its name.
pub open spec fn asked_about(only: Seq<Seq<char>>, n: Seq<char>) -> bool {
    only.len() == 0 || only.contains(n) || exists|i: int|
        0 <= i < only.len() && names::name_at_end(#[trigger] only[i]) == Some(n)
}

/// The names that are looked at are those of drives that were asked about.
pub proof fn law_which_names_are_looked_at(m: MachineView, n: Seq<char>)
    ensures
        m.looks_at(n) <==> names_a_drive(n) && asked_about(m.only, n),
{
    reveal_strlit("loop");
    reveal_strlit("ram");
    reveal_strlit("zram");
    reveal_strlit("dm-");
    reveal_strlit("md");
    reveal_strlit("sr");
    reveal_strlit("fd");
    reveal_strlit("nbd");
    reveal_strlit("zd");
    assert("loop"@ == seq!['l', 'o', 'o', 'p']);
    assert("ram"@ == seq!['r', 'a', 'm']);
    assert("zram"@ == seq!['z', 'r', 'a', 'm']);
    assert("dm-"@ == seq!['d', 'm', '-']);
    assert("md"@ == seq!['m', 'd']);
    assert("sr"@ == seq!['s', 'r']);
    assert("fd"@ == seq!['f', 'd']);
    assert("nbd"@ == seq!['n', 'b', 'd']);
    assert("zd"@ == seq!['z', 'd']);
    assert(m.wants(n) == asked_about(m.only, n)) by {
        if m.only.contains(n) {
            let i = choose|i: int| 0 <= i < m.only.len() && m.only[i] == n;
            assert(m.only[i] == n);
        }
        if m.only.len() > 0 && m.wants(n) {
            let i = choose|i: int|
                0 <= i < m.only.len() && (#[trigger] m.only[i] == n || names::name_at_end(
                    m.only[i],
                ) == Some(n));
            if m.only[i] == n {
                assert(m.only.contains(n));
            }
        }
        if asked_about(m.only, n) && m.only.len() > 0 && !m.only.contains(n) {
            let i = choose|i: int|
                0 <= i < m.only.len() && names::name_at_end(#[trigger] m.only[i]) == Some(n);
            assert(m.only[i] == n || names::name_at_end(m.only[i]) == Some(n));
        }
    }
}

/// A partition of a drive is an entry that says it is one and whose name begins
/// with the drive's name and goes on, with whatever character.
pub proof fn law_the_partitions_of_a_drive(children: Seq<Child>, name: Seq<char>, n: Seq<char>)
    ensures
        part_names(children, name).contains(n) <==> exists|i: int|
            {
                &&& 0 <= i < children.len()
                &&& (#[trigger] children[i]).name@ == n
                &&& children[i].is_partition
                &&& n.len() > name.len()
                &&& n.take(name.len() as int) == name
            },
        part_names(children, name).len() <= children.len(),
    decreases children.len(),
{
    let listed = part_names(children, name);
    if children.len() > 0 {
        let front = children.drop_last();
        let last = children.last();
        law_the_partitions_of_a_drive(front, name, n);
        let before = part_names(front, name);
        if listed.contains(n) {
            let k = choose|k: int| 0 <= k < listed.len() && listed[k] == n;
            if k < before.len() {
                assert(before[k] == n);
                assert(before.contains(n));
                let i = choose|i: int|
                    {
                        &&& 0 <= i < front.len()
                        &&& (#[trigger] front[i]).name@ == n
                        &&& front[i].is_partition
                        &&& n.len() > name.len()
                        &&& n.take(name.len() as int) == name
                    };
                assert(children[i].name@ == n);
            } else {
                assert(children[children.len() - 1].name@ == n);
            }
        }
        if exists|i: int|
            {
                &&& 0 <= i < children.len()
                &&& (#[trigger] children[i]).name@ == n
                &&& children[i].is_partition
                &&& n.len() > name.len()
                &&& n.take(name.len() as int) == name
            } {
            let i = choose|i: int|
                {
                    &&& 0 <= i < children.len()
                    &&& (#[trigger] children[i]).name@ == n
                    &&& children[i].is_partition
                    &&& n.len() > name.len()
                    &&& n.take(name.len() as int) == name
                };
            if i < front.len() {
                assert(front[i].name@ == n);
                assert(before.contains(n));
                let k = choose|k: int| 0 <= k < before.len() && before[k] == n;
                assert(listed[k] == n);
            } else {
                assert(listed.last() == n);
                assert(listed[listed.len() - 1] == n);
            }
        }
    }
}

/// The first partition of a disk and that of an NVMe drive are both partitions:
/// whatever stands after the drive's name.
pub proof fn law_a_partition_is_named_after_its_drive(
    children: Seq<Child>,
    name: Seq<char>,
    i: int,
    suffix: Seq<char>,
)
    requires
        0 <= i < children.len(),
        children[i].is_partition,
        children[i].name@ == name + suffix,
    ensures
        part_names(children, name).contains(name + suffix) || suffix.len() == 0,
{
    let n = name + suffix;
    law_the_partitions_of_a_drive(children, name, n);
    assert(n.take(name.len() as int) == name);
    assert(children[i].name@ == n);
}

proof fn lemma_small_numbers()
    ensures
        text::number_in("0"@) == Some(0u64),
        text::number_in("1"@) == Some(1u64),
{
    reveal_strlit("0");
    reveal_strlit("1");
    reveal_with_fuel(text::decimal, 2);
    assert("0"@ == text::decimal(0));
    assert("1"@ == text::decimal(1));
    text::law_a_number_reads_back(0);
    text::law_a_number_reads_back(1);
}

proof fn lemma_attributes(attrs: Attributes)
    ensures
        attribute_text(attrs.rotational) == Some("1"@) ==> attrs@.spins(),
        attribute_text(attrs.rotational) == Some("0"@) ==> !attrs@.spins(),
        attribute_text(attrs.rotational) matches Some(t) ==> {
            &&& text::number_in(t) is None ==> attrs@.spins()
            &&& text::number_in(t) matches Some(n) ==> attrs@.spins() == (n == 1)
        },
        attrs.rotational is None ==> attrs@.spins(),
        attribute_text(attrs.removable) == Some("1"@) ==> attrs@.comes_out(),
        attribute_text(attrs.removable) == Some("0"@) ==> !attrs@.comes_out(),
        attribute_text(attrs.removable) matches Some(t) ==> attrs@.comes_out() == (text::number_in(
            t,
        ) == Some(1u64)),
        attrs.removable is None ==> !attrs@.comes_out(),
        attribute_text(attrs.size) matches Some(t) ==> {
            &&& text::number_in(t) is None ==> attrs@.sectors() == 0
            &&& text::number_in(t) matches Some(n) ==> attrs@.sectors() == n
        },
        attrs.size is None ==> attrs@.sectors() == 0,
{
    lemma_small_numbers();
}

/// What a drive says of itself in sysfs, whatever white space stands round it:
/// `1` is a drive that spins and `0` one that does not; one that does not say, or
/// says no number, spins. Only `1` is removable. The size is in sectors, and none
/// when it is not said.
pub proof fn law_what_the_attributes_of_a_drive_say(attrs: Attributes, n: u64)
    ensures
        attribute_text(attrs.rotational) == Some("1"@) ==> attrs@.spins(),
        attribute_text(attrs.rotational) == Some("0"@) ==> !attrs@.spins(),
        attrs.rotational is None ==> attrs@.spins(),
        attribute_text(attrs.rotational) matches Some(t) && text::number_in(t) is None
            ==> attrs@.spins(),
        attribute_text(attrs.rotational) == Some(text::decimal(n as nat)) ==> attrs@.spins() == (n
            == 1),
        attribute_text(attrs.removable) == Some("1"@) ==> attrs@.comes_out(),
        attribute_text(attrs.removable) == Some(text::decimal(n as nat)) ==> attrs@.comes_out() == (
        n == 1),
        attrs.removable is None ==> !attrs@.comes_out(),
        attribute_text(attrs.removable) matches Some(t) && text::number_in(t) is None
            ==> !attrs@.comes_out(),
        attribute_text(attrs.size) == Some(text::decimal(n as nat)) ==> attrs@.sectors() == n,
        attribute_text(attrs.size) matches Some(t) && text::number_in(t) is None
            ==> attrs@.sectors() == 0,
        attrs.size is None ==> attrs@.sectors() == 0,
{
    lemma_attributes(attrs);
    text::law_a_number_reads_back(n);
}

/// Whether a text stands somewhere in another.
pub open spec fn stands_in(p: Seq<char>, s: Seq<char>) -> bool {
    exists|i: int|
        0 <= i && i + p.len() <= s.len() && (#[trigger] s.skip(i)).take(p.len() as int) == p
}

proof fn lemma_stands_in(p: Seq<char>, s: Seq<char>)
    ensures
        text::occurs(s, p) == stands_in(p, s),
{
    if text::occurs(s, p) {
        let i = choose|i: int| text::occurs_at(s, p, i);
        assert(s.skip(i).take(p.len() as int) == s.subrange(i, i + p.len()));
    }
    if stands_in(p, s) {
        let i = choose|i: int|
            0 <= i && i + p.len() <= s.len() && (#[trigger] s.skip(i)).take(p.len() as int) == p;
        assert(s.skip(i).take(p.len() as int) == s.subrange(i, i + p.len()));
        assert(text::occurs_at(s, p, i));
    }
}

/// How a drive is attached: by the transport it states, unless that is its own
/// slot, and otherwise by where it hangs. A drive that states nothing and hangs
/// nowhere known is local.
pub proof fn law_how_a_drive_is_attached(transport: Option<Seq<char>>, link: Option<Seq<char>>)
    ensures
        ({
            let t = text::trimmed(transport->0);
            transport is Some && t.len() > 0 && t != "pcie"@ ==> attached_over(transport, link)
                == Some("nvme-"@ + t)
        }),
        ({
            let silent = transport is None || text::trimmed(transport->0).len() == 0
                || text::trimmed(transport->0) == "pcie"@;
            &&& silent && link is None ==> attached_over(transport, link) is None
            &&& silent && link is Some ==> {
                let l = link->0;
                let iscsi = stands_in("/session"@, l) || stands_in("iscsi"@, l);
                let fibre = stands_in("/rport-"@, l) || stands_in("fc_host"@, l);
                &&& iscsi ==> attached_over(transport, link) == Some("iSCSI"@)
                &&& !iscsi && fibre ==> attached_over(transport, link) == Some("Fibre Channel"@)
                &&& !iscsi && !fibre && stands_in("nvme-fabrics"@, l) ==> attached_over(
                    transport,
                    link,
                ) == Some("NVMe-oF"@)
                &&& !iscsi && !fibre && !stands_in("nvme-fabrics"@, l) ==> attached_over(
                    transport,
                    link,
                ) is None
            }
        }),
{
    if let Some(l) = link {
        lemma_stands_in("/session"@, l);
        lemma_stands_in("iscsi"@, l);
        lemma_stands_in("/rport-"@, l);
        lemma_stands_in("fc_host"@, l);
        lemma_stands_in("nvme-fabrics"@, l);
    }
}

/// A machine is who its firmware says it is, without the white space round it,
/// and nobody when that is empty or one of the seven placeholders, in capitals or
/// not. Being told who it is goes before that.
pub proof fn law_who_a_machine_is(raw: Seq<char>)
    ensures
        identity_in(None) is None,
        ({
            let t = text::trimmed(raw);
            let small = text::ascii_lowered(t);
            let nobody = t.len() == 0 || small == "not specified"@ || small
                == "to be filled by o.e.m."@ || small == "system serial number"@ || small
                == "default string"@ || small == "none"@ || small == "0"@ || small == "unknown"@;
            identity_in(Some(raw)) == if nobody {
                None
            } else {
                Some(t)
            }
        }),
{
}

/// A stormblock is looked for where the initramfs carries it, and then in each
/// directory of the search path, in order; an empty directory is none.
pub proof fn law_where_a_stormblock_is_looked_for(dir: Seq<char>, more: Seq<char>)
    requires
        !dir.contains(':'),
        dir.len() > 0 ==> dir.last() != '/',
    ensures
        candidates(None) == seq![
            "/usr/sbin/stormblock"@,
            "/sbin/stormblock"@,
            "/usr/bin/stormblock"@,
        ],
        candidates(Some(dir)) == candidates(None) + (if dir.len() == 0 {
            Seq::<Seq<char>>::empty()
        } else {
            seq![dir + "/stormblock"@]
        }),
        candidates(Some(dir + seq![':'] + more)) == candidates(Some(dir)) + candidates(
            Some(more),
        ).skip(3),
{
    let fixed = seq!["/usr/sbin/stormblock"@, "/sbin/stormblock"@, "/usr/bin/stormblock"@];
    let none = Seq::<Seq<char>>::empty();
    reveal_strlit("/stormblock");
    reveal_strlit("stormblock");
    names::law_pieces_of_two(dir, ':', more);
    assert(fixed + none == fixed);
    let rest = in_directories(names::piece_list(more, ':'));
    assert((fixed + rest).skip(3) == rest);
    lemma_in_directories(seq![dir], names::piece_list(more, ':'));
    let d: Seq<Seq<char>> = seq![dir];
    assert(d.drop_last() == none);
    assert(in_directories(none) == none);
    assert(none.push(names::path_in(dir, "stormblock"@)) == seq![
        names::path_in(dir, "stormblock"@),
    ]);
    assert(dir + "/stormblock"@ == dir + seq!['/'] + "stormblock"@);
    assert(fixed + (in_directories(d) + rest) == fixed + in_directories(d) + rest);
}

proof fn lemma_in_directories(a: Seq<Seq<char>>, b: Seq<Seq<char>>)
    ensures
        in_directories(a + b) == in_directories(a) + in_directories(b),
    decreases b.len(),
{
    if b.len() == 0 {
        assert(a + b == a);
        assert(in_directories(a) + Seq::<Seq<char>>::empty() == in_directories(a));
    } else {
        assert((a + b).drop_last() == a + b.drop_last());
        assert((a + b).last() == b.last());
        lemma_in_directories(a, b.drop_last());
        let x = names::path_in(b.last(), "stormblock"@);
        assert(in_directories(a) + in_directories(b.drop_last()).push(x) == (in_directories(a)
            + in_directories(b.drop_last())).push(x));
    }
}

/// Whether a character can be one of a UUID.
pub open spec fn in_a_uuid(c: char) -> bool {
    '0' <= c <= '9' || 'a' <= c <= 'f' || 'A' <= c <= 'F' || c == '-'
}

proof fn lemma_line_with_run(p: Seq<char>, run: Seq<char>, t: Seq<char>)
    requires
        !p.contains(':'),
        forall|i: int| 0 <= i < run.len() ==> in_a_uuid(#[trigger] run[i]),
        t.len() > 0 ==> !in_a_uuid(t[0]),
    ensures
        text::split_at_text(p + ": slab "@ + (run + t), ": slab "@) == Some((p, run + t)),
        uuid_len(run + t) == run.len(),
{
    reveal_strlit(": slab ");
    text::law_a_text_is_split_where_another_stands(p, ": slab "@, run + t);
    assert forall|i: int| 0 <= i < run.len() implies text::hex_digit(#[trigger] (run + t)[i]) || (
    run + t)[i] == '-' by {
        assert((run + t)[i] == run[i]);
    }
    lemma_uuid_len(run + t, run.len() as int);
}

/// A line that says which slab a device is names it by what follows the words,
/// and gives it the role that follows `role=`, up to the next comma or closing
/// bracket, without the white space round it. An empty role is an unknown one.
pub proof fn law_a_line_names_a_slab_and_its_role(
    p: Seq<char>,
    id: Seq<char>,
    u: Seq<char>,
    role: Seq<char>,
    w: Seq<char>,
)
    requires
        !p.contains(':'),
        id.len() == 36,
        forall|i: int| 0 <= i < id.len() ==> in_a_uuid(#[trigger] id[i]),
        u.len() > 0,
        !in_a_uuid(u[0]),
        !u.contains('r'),
        !role.contains(','),
        !role.contains(')'),
        w.len() > 0 ==> w[0] == ',' || w[0] == ')',
    ensures
        slab_in_line(p + ": slab "@ + (id + (u + "role="@ + (role + w)))) == Some(
            (
                id,
                if text::trimmed(role).len() > 0 {
                    text::trimmed(role)
                } else {
                    "unknown"@
                },
            ),
        ),
{
    reveal_strlit("role=");
    let v = role + w;
    let t = u + "role="@ + v;
    let rest = id + t;
    assert(t[0] == u[0]);
    lemma_line_with_run(p, id, t);
    assert(rest.take(36) == id);
    let a = id + u;
    assert(rest == a + "role="@ + v);
    assert(!a.contains('r')) by {
        if a.contains('r') {
            let i = choose|i: int| 0 <= i < a.len() && a[i] == 'r';
            if i < id.len() {
                assert(in_a_uuid(id[i]));
            } else {
                assert(u.contains(u[i - id.len()]));
            }
        }
    }
    text::law_a_text_is_split_where_another_stands(a, "role="@, v);
    assert forall|i: int| 0 <= i < role.len() implies #[trigger] v[i] != ',' && v[i] != ')' by {
        assert(role.contains(role[i]));
    }
    lemma_role_len(v, role.len() as int);
    assert(v.take(role.len() as int) == role);
}

/// A line that names a slab without a role gives it an unknown one.
pub proof fn law_a_slab_without_a_role(p: Seq<char>, id: Seq<char>, t: Seq<char>)
    requires
        !p.contains(':'),
        id.len() == 36,
        forall|i: int| 0 <= i < id.len() ==> in_a_uuid(#[trigger] id[i]),
        t.len() > 0 ==> !in_a_uuid(t[0]),
        !stands_in("role="@, id + t),
    ensures
        slab_in_line(p + ": slab "@ + (id + t)) == Some((id, "unknown"@)),
{
    lemma_line_with_run(p, id, t);
    assert((id + t).take(36) == id);
    reveal_strlit("role=");
    text::law_a_text_is_split_at_the_first_place(id + t, "role="@);
    if let Some((a, b)) = text::split_at_text(id + t, "role="@) {
        assert((id + t).skip(a.len() as int).take(5) == "role="@);
    }
}

/// What is not spelt as a UUID is no slab, and a line without the words is not
/// about one.
pub proof fn law_what_is_not_a_slab(line: Seq<char>, p: Seq<char>, run: Seq<char>, t: Seq<char>)
    requires
        !p.contains(':'),
        forall|i: int| 0 <= i < run.len() ==> in_a_uuid(#[trigger] run[i]),
        t.len() > 0 ==> !in_a_uuid(t[0]),
    ensures
        run.len() != 36 ==> slab_in_line(p + ": slab "@ + (run + t)) is None,
        !stands_in(": slab "@, line) ==> slab_in_line(line) is None,
{
    lemma_line_with_run(p, run, t);
    reveal_strlit(": slab ");
    text::law_a_text_is_split_at_the_first_place(line, ": slab "@);
    if let Some((a, b)) = text::split_at_text(line, ": slab "@) {
        assert(line.skip(a.len() as int).take(7) == ": slab "@);
    }
}

/// Of several lines the first that names a slab counts.
pub proof fn law_the_first_slab_named_counts(lines: Seq<Seq<char>>, i: int)
    requires
        0 <= i <= lines.len(),
        forall|j: int| 0 <= j < i ==> slab_in_line(#[trigger] lines[j]) is None,
        i < lines.len() ==> slab_in_line(lines[i]) is Some,
    ensures
        first_slab_in(lines) == if i < lines.len() {
            slab_in_line(lines[i])
        } else {
            None
        },
    decreases lines.len(),
{
    if i > 0 {
        let rest = lines.drop_first();
        assert(lines[0] == lines.first());
        assert forall|j: int| 0 <= j < i - 1 implies slab_in_line(#[trigger] rest[j]) is None by {
            assert(rest[j] == lines[j + 1]);
        }
        if i < lines.len() {
            assert(rest[i - 1] == lines[i]);
        }
        law_the_first_slab_named_counts(rest, i - 1);
    }
}

/// What a drive is judged by: where its device node is, its size in sectors of
/// 512 bytes, whether it comes out, how it is attached, its partitions, whether
/// there is a stormblock to ask, who this machine is and who has claimed the
/// drive on its ESP.
pub proof fn law_what_a_drive_is_judged_by(
    m: MachineView,
    me: Option<Seq<char>>,
    name: Seq<char>,
    attrs: AttributesView,
    parts: Seq<Seq<char>>,
    found: Option<esp::EspView>,
)
    requires
        attrs.sectors() * 512 <= u64::MAX,
        m.dev.len() > 0 && m.dev.last() != '/',
        name.len() > 0 && name[0] != '/',
    ensures
        ({
            let c = case_for(m, me, name, attrs, parts, found);
            &&& c.path == m.dev + seq!['/'] + name
            &&& c.size_bytes == attrs.sectors() * 512
            &&& c.removable == attrs.comes_out()
            &&& c.remote == attached_over(attrs.transport, attrs.link)
            &&& c.parts == parts
            &&& c.can_identify == (m.stormblock is Some)
            &&& c.me == me
            &&& c.claimed_by is Some <==> found is Some && found->0.claim is Some
            &&& c.claimed_by is Some ==> c.claimed_by->0 == found->0.claim->0.node
            &&& attrs.model is None ==> c.model is None
            &&& attrs.model matches Some(raw) ==> {
                &&& text::trimmed(raw).len() == 0 ==> c.model is None
                &&& text::trimmed(raw).len() > 0 ==> c.model == Some(text::trimmed(raw))
            }
        }),
{
}

} // verus!
