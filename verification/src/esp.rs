//! The ESP of a drive zeroboot laid out, read back.
//!
//! A disk that zeroboot lays out carries a GPT with an EFI System Partition
//! holding systemd-boot, a kernel, an initramfs and a loader entry, and a
//! stormblock slab in the partition beside it. This module judges what was
//! found there, and it is the difference between two questions the survey has
//! to keep apart:
//!
//! - *is this slab ours?* The superblock and where the drive is attached.
//! - *will this drive boot?* A bootloader, a kernel, an initramfs, and a
//!   loader entry that names them.
//!
//! It is also where a node writes down that a drive is **its**. Nothing in a
//! stormblock slab records an owner, so without a claim written somewhere a
//! disk moved from one chassis to another is indistinguishable from a disk
//! that was always here.

use vstd::prelude::*;

use crate::bytes;
use crate::text;

verus! {

/// The size of a logical block, which GPT counts in.
pub const LB_SIZE: u64 = 512;

/// Where a node writes down that a drive is its own: the directory.
pub const CLAIM_DIR: &'static str = "stormcos";

/// Where a node writes down that a drive is its own.
pub const CLAIM_PATH: &'static str = "stormcos/claim";

/// Where the loader entries are.
pub const ENTRIES_DIR: &'static str = "loader/entries";

/// Where UEFI looks for the bootloader of a removable disk.
pub const BOOTLOADER_PATH: &'static str = "EFI/BOOT/BOOTX64.EFI";

// ------------------------------------------------------------------ types
/// One partition of a drive, as its partition table names it.
#[derive(Debug, PartialEq, Eq)]
pub struct Partition {
    /// Its number in the table, counted from one.
    pub index: u32,
    pub name: String,
    /// The partition's own GUID, which travels with the disk.
    pub guid: String,
}

/// What a [`Partition`] says.
pub struct PartitionView {
    pub index: u32,
    pub name: Seq<char>,
    pub guid: Seq<char>,
}

impl View for Partition {
    type V = PartitionView;

    open spec fn view(&self) -> PartitionView {
        PartitionView { index: self.index, name: self.name@, guid: self.guid@ }
    }
}

impl Clone for Partition {
    fn clone(&self) -> (r: Self)
        ensures
            r@ == self@,
    {
        Partition { index: self.index, name: self.name.clone(), guid: self.guid.clone() }
    }
}

/// A drive's partition table: the GUIDs written into it, which survive a
/// change of controller or chassis where a device path does not.
#[derive(Debug, PartialEq, Eq)]
pub struct Table {
    pub disk_guid: String,
    pub partitions: Vec<Partition>,
}

/// What a [`Table`] says.
pub struct TableView {
    pub disk_guid: Seq<char>,
    pub partitions: Seq<PartitionView>,
}

/// The partitions of a list, by what they say.
pub open spec fn partition_views(v: Seq<Partition>) -> Seq<PartitionView> {
    Seq::new(v.len(), |i: int| v[i]@)
}

impl View for Table {
    type V = TableView;

    open spec fn view(&self) -> TableView {
        TableView { disk_guid: self.disk_guid@, partitions: partition_views(self.partitions@) }
    }
}

impl Clone for Table {
    fn clone(&self) -> (r: Self)
        ensures
            r@ == self@,
    {
        let mut partitions: Vec<Partition> = Vec::new();
        let mut i: usize = 0;
        while i < self.partitions.len()
            invariant
                i <= self.partitions.len(),
                partition_views(partitions@) == partition_views(self.partitions@).take(i as int),
            decreases self.partitions.len() - i,
        {
            let ghost before = partition_views(partitions@);
            partitions.push(self.partitions[i].clone());
            assert(partition_views(partitions@) == before.push(self.partitions@[i as int]@));
            i = i + 1;
        }
        assert(partition_views(partitions@) == partition_views(self.partitions@));
        Table { disk_guid: self.disk_guid.clone(), partitions }
    }
}

/// What the drive says about how it boots.
#[derive(Debug, PartialEq, Eq)]
pub struct Boot {
    /// The loader entry's `options` line: the kernel command line this disk
    /// boots itself with.
    pub cmdline: String,
    /// `rd.stormblock.slab=` from it: the device the disk expects its slab on.
    pub slab_device: Option<String>,
    /// `stormblock.volume=` from it: the volume it expects to boot. Recorded,
    /// not verified.
    pub boot_volume: Option<String>,
}

/// What a [`Boot`] says.
pub struct BootView {
    pub cmdline: Seq<char>,
    pub slab_device: Option<Seq<char>>,
    pub boot_volume: Option<Seq<char>>,
}

impl View for Boot {
    type V = BootView;

    open spec fn view(&self) -> BootView {
        BootView {
            cmdline: self.cmdline@,
            slab_device: text::view_of(self.slab_device),
            boot_volume: text::view_of(self.boot_volume),
        }
    }
}

impl Clone for Boot {
    fn clone(&self) -> (r: Self)
        ensures
            r@ == self@,
    {
        Boot {
            cmdline: self.cmdline.clone(),
            slab_device: text::copy_option(&self.slab_device),
            boot_volume: text::copy_option(&self.boot_volume),
        }
    }
}

/// A claim: this drive is this node's.
#[derive(Debug, PartialEq, Eq)]
pub struct Claim {
    /// The machine, as the firmware names it.
    pub node: String,
    /// When, so a disk with two histories can be read in order.
    pub claimed: String,
}

/// What a [`Claim`] says.
pub struct ClaimView {
    pub node: Seq<char>,
    pub claimed: Seq<char>,
}

impl View for Claim {
    type V = ClaimView;

    open spec fn view(&self) -> ClaimView {
        ClaimView { node: self.node@, claimed: self.claimed@ }
    }
}

impl Clone for Claim {
    fn clone(&self) -> (r: Self)
        ensures
            r@ == self@,
    {
        Claim { node: self.node.clone(), claimed: self.claimed.clone() }
    }
}

/// What was found on a drive's ESP.
#[derive(Debug, PartialEq, Eq)]
pub struct Esp {
    /// How this drive boots, when it has everything it takes to.
    pub boot: Option<Boot>,
    /// Who says the drive is theirs, when anyone has said so.
    pub claim: Option<Claim>,
    /// What is missing, when `boot` is `None`. A drive that will not boot
    /// should say which part of it is absent rather than just "no".
    pub missing: Vec<String>,
}

/// What an [`Esp`] says.
pub struct EspView {
    pub boot: Option<BootView>,
    pub claim: Option<ClaimView>,
    pub missing: Seq<Seq<char>>,
}

impl View for Esp {
    type V = EspView;

    open spec fn view(&self) -> EspView {
        EspView {
            boot: match self.boot {
                Some(b) => Some(b@),
                None => None,
            },
            claim: match self.claim {
                Some(c) => Some(c@),
                None => None,
            },
            missing: text::texts(self.missing@),
        }
    }
}

impl Clone for Esp {
    fn clone(&self) -> (r: Self)
        ensures
            r@ == self@,
    {
        let boot = match &self.boot {
            Some(b) => Some(b.clone()),
            None => None,
        };
        let claim = match &self.claim {
            Some(c) => Some(c.clone()),
            None => None,
        };
        Esp { boot, claim, missing: text::copy_list(&self.missing) }
    }
}

// -------------------------------------------------------------- partitions
/// One entry of a GUID partition table, as it is written on the drive.
#[derive(Debug, PartialEq, Eq)]
pub struct GptEntry {
    /// Its number in the table, counted from one.
    pub index: u32,
    /// The GUID of its type, most significant byte first.
    pub type_guid: u128,
    pub name: String,
    /// The partition's own GUID, in its usual spelling.
    pub guid: String,
    pub first_lba: u64,
    /// The last block of the partition, which belongs to it.
    pub last_lba: u64,
}

/// The type GUID of an EFI System Partition,
/// `C12A7328-F81F-11D2-BA4B-00A0C93EC93B`, most significant byte first.
pub open spec fn efi_type() -> u128 {
    0xc12a7328_f81f_11d2_ba4b_00a0c93ec93b
}

/// `gpt::partition_types::EFI` is the type of an EFI System Partition, with the
/// GUID of one, and `Uuid::as_u128` hands the GUID over most significant byte
/// first.
#[verifier::external_body]
fn efi_type_guid() -> (r: u128)
    ensures
        r == efi_type(),
{
    gpt::partition_types::EFI.guid.as_u128()
}

/// The position of the first EFI System Partition in a table.
pub open spec fn esp_position(parts: Seq<GptEntry>) -> Option<int>
    decreases parts.len(),
{
    if parts.len() == 0 {
        None
    } else {
        match esp_position(parts.drop_last()) {
            Some(i) => Some(i),
            None => if parts.last().type_guid == efi_type() {
                Some(parts.len() - 1)
            } else {
                None
            },
        }
    }
}

/// The bytes of a drive that its first EFI System Partition covers: where it
/// begins, and where the first byte after it is.
pub open spec fn esp_bytes(parts: Seq<GptEntry>) -> Option<(int, int)> {
    match esp_position(parts) {
        Some(i) => Some((parts[i].first_lba * LB_SIZE, (parts[i].last_lba + 1) * LB_SIZE)),
        None => None,
    }
}

/// Whether the bytes that the EFI System Partition covers, if there is one, are
/// ones that a 64-bit offset reaches.
pub open spec fn in_reach(parts: Seq<GptEntry>) -> bool {
    esp_bytes(parts) matches Some((start, end)) ==> start <= u64::MAX && end <= u64::MAX
}

fn find_esp(parts: &Vec<GptEntry>) -> (r: Option<usize>)
    ensures
        match r {
            Some(i) => i < parts@.len() && esp_position(parts@) == Some(i as int),
            None => esp_position(parts@) is None,
        },
{
    let wanted: u128 = efi_type_guid();
    let mut i: usize = 0;
    while i < parts.len()
        invariant
            i <= parts.len(),
            wanted == efi_type(),
            esp_position(parts@.take(i as int)) is None,
        decreases parts.len() - i,
    {
        assert(parts@.take(i + 1).drop_last() == parts@.take(i as int));
        if parts[i].type_guid == wanted {
            proof {
                lemma_esp_position_stays(parts@, i + 1);
            }
            return Some(i);
        }
        i = i + 1;
    }
    assert(parts@.take(i as int) == parts@);
    None
}

/// Whether a 64-bit offset reaches the drive's EFI System Partition, if there
/// is one.
pub fn esp_in_reach(parts: &Vec<GptEntry>) -> (r: bool)
    ensures
        r == in_reach(parts@),
{
    match find_esp(parts) {
        Some(i) => parts[i].first_lba <= u64::MAX / LB_SIZE && parts[i].last_lba < u64::MAX
            / LB_SIZE,
        None => true,
    }
}

/// The byte range of the drive's EFI System Partition. A table without one is
/// an ordinary answer for a drive carrying a bare slab.
pub fn esp_extent(parts: &Vec<GptEntry>) -> (r: Option<(u64, u64)>)
    requires
        in_reach(parts@),
    ensures
        match r {
            Some((start, end)) => esp_bytes(parts@) == Some((start as int, end as int)),
            None => esp_bytes(parts@) is None,
        },
        match r {
            Some((start, end)) => exists|i: int|
                {
                    &&& 0 <= i < parts@.len()
                    &&& (#[trigger] parts@[i]).type_guid == 0xc12a7328_f81f_11d2_ba4b_00a0c93ec93b
                    &&& start == parts@[i].first_lba * 512
                    &&& end == (parts@[i].last_lba + 1) * 512
                    &&& forall|j: int|
                        0 <= j < i ==> (#[trigger] parts@[j]).type_guid
                            != 0xc12a7328_f81f_11d2_ba4b_00a0c93ec93b
                },
            None => forall|j: int|
                0 <= j < parts@.len() ==> (#[trigger] parts@[j]).type_guid
                    != 0xc12a7328_f81f_11d2_ba4b_00a0c93ec93b,
        },
{
    proof {
        law_extent_is_the_first_esp(parts@);
    }
    match find_esp(parts) {
        Some(i) => Some((parts[i].first_lba * LB_SIZE, (parts[i].last_lba + 1) * LB_SIZE)),
        None => None,
    }
}

/// An EFI System Partition found in the front of a table is the one found in
/// all of it.
proof fn lemma_esp_position_stays(parts: Seq<GptEntry>, k: int)
    requires
        0 <= k <= parts.len(),
        esp_position(parts.take(k)) is Some,
    ensures
        esp_position(parts) == esp_position(parts.take(k)),
    decreases parts.len() - k,
{
    if k < parts.len() {
        assert(parts.take(k + 1).drop_last() == parts.take(k));
        lemma_esp_position_stays(parts, k + 1);
    } else {
        assert(parts.take(k) == parts);
    }
}

/// The byte range that [`esp_extent`] names is that of an entry of the table
/// whose type is the EFI System Partition, and no entry before it is one.
pub proof fn law_extent_is_the_first_esp(parts: Seq<GptEntry>)
    ensures
        match esp_position(parts) {
            Some(i) => {
                &&& 0 <= i < parts.len()
                &&& parts[i].type_guid == efi_type()
                &&& forall|j: int| 0 <= j < i ==> (#[trigger] parts[j]).type_guid != efi_type()
            },
            None => forall|j: int|
                0 <= j < parts.len() ==> (#[trigger] parts[j]).type_guid != efi_type(),
        },
    decreases parts.len(),
{
    if parts.len() > 0 {
        let front = parts.drop_last();
        law_extent_is_the_first_esp(front);
        assert(forall|j: int| 0 <= j < front.len() ==> #[trigger] parts[j] == front[j]);
    }
}

/// What the table says of each partition.
pub open spec fn entry_views(parts: Seq<GptEntry>) -> Seq<PartitionView> {
    Seq::new(
        parts.len(),
        |i: int|
            PartitionView {
                index: parts[i].index,
                name: parts[i].name@,
                guid: parts[i].guid@,
            },
    )
}

/// The identity that a drive's partition table gives it and its partitions.
pub fn table(disk_guid: &str, parts: &Vec<GptEntry>) -> (r: Table)
    ensures
        r@ == (TableView { disk_guid: disk_guid@, partitions: entry_views(parts@) }),
        r.disk_guid@ == disk_guid@,
        r.partitions@.len() == parts@.len(),
        forall|i: int|
            0 <= i < parts@.len() ==> {
                &&& (#[trigger] r.partitions@[i]).index == parts@[i].index
                &&& r.partitions@[i].name@ == parts@[i].name@
                &&& r.partitions@[i].guid@ == parts@[i].guid@
            },
{
    let mut partitions: Vec<Partition> = Vec::new();
    let mut i: usize = 0;
    while i < parts.len()
        invariant
            i <= parts.len(),
            partition_views(partitions@) == entry_views(parts@).take(i as int),
        decreases parts.len() - i,
    {
        let p = &parts[i];
        let ghost before = partition_views(partitions@);
        let one = Partition { index: p.index, name: p.name.clone(), guid: p.guid.clone() };
        let ghost said = one@;
        partitions.push(one);
        assert(partition_views(partitions@) == before.push(said));
        i = i + 1;
    }
    assert(partition_views(partitions@) == entry_views(parts@));
    assert forall|i: int| 0 <= i < parts@.len() implies {
        &&& (#[trigger] partitions@[i]).index == parts@[i].index
        &&& partitions@[i].name@ == parts@[i].name@
        &&& partitions@[i].guid@ == parts@[i].guid@
    } by {
        assert(partition_views(partitions@)[i] == entry_views(parts@)[i]);
    }
    Table { disk_guid: text::owned(disk_guid), partitions }
}

// ------------------------------------------------------------------ claims
/// The value of the last `key=value` line with the given key. White space
/// round the key and round the value does not count; a line without an equals
/// sign says nothing.
pub open spec fn last_value(lines: Seq<Seq<char>>, key: Seq<char>) -> Option<Seq<char>>
    decreases lines.len(),
{
    if lines.len() == 0 {
        None
    } else {
        match text::split_at_char(lines.last(), '=') {
            Some((k, v)) => if text::trimmed(k) == key {
                Some(text::trimmed(v))
            } else {
                last_value(lines.drop_last(), key)
            },
            None => last_value(lines.drop_last(), key),
        }
    }
}

/// The claim that a text makes: it names a node, and says when. A text that
/// names nobody is not a claim.
pub open spec fn claim_in(s: Seq<char>) -> Option<ClaimView> {
    let lines = text::line_list(s);
    match last_value(lines, "node"@) {
        Some(node) => if node.len() > 0 {
            Some(
                ClaimView {
                    node,
                    claimed: match last_value(lines, "claimed"@) {
                        Some(c) => c,
                        None => seq![],
                    },
                },
            )
        } else {
            None
        },
        None => None,
    }
}

/// A claim as it is written down.
pub open spec fn claim_text(c: ClaimView) -> Seq<char> {
    "node="@ + c.node + "\nclaimed="@ + c.claimed + "\n"@
}

/// The value of the last `key=value` line with the given key.
fn find_last_value<'a>(lines: &Vec<&'a [char]>, key: &str) -> (r: Option<&'a [char]>)
    ensures
        match r {
            Some(v) => last_value(text::views(lines@), key@) == Some(v@),
            None => last_value(text::views(lines@), key@) is None,
        },
{
    let ghost all = text::views(lines@);
    let wanted = text::chars_of(key);
    let mut i: usize = lines.len();
    assert(all.take(i as int) == all);
    while i > 0
        invariant
            i <= lines.len(),
            wanted@ == key@,
            all == text::views(lines@),
            last_value(all, key@) == last_value(all.take(i as int), key@),
        decreases i,
    {
        assert(all.take(i as int).last() == lines@[i - 1]@);
        assert(all.take(i as int).drop_last() == all.take(i - 1));
        if let Some((k, v)) = text::split_once(lines[i - 1], '=') {
            if text::same(text::trim(k), wanted.as_slice()) {
                return Some(text::trim(v));
            }
        }
        i = i - 1;
    }
    None
}

impl Claim {
    /// Reads a claim.
    pub fn parse(s: &str) -> (r: Option<Claim>)
        ensures
            match r {
                Some(c) => claim_in(s@) == Some(c@),
                None => claim_in(s@) is None,
            },
    {
        let chars = text::chars_of(s);
        let lines = text::lines(chars.as_slice());
        match find_last_value(&lines, "node") {
            Some(node) => {
                if node.len() == 0 {
                    return None;
                }
                let claimed = match find_last_value(&lines, "claimed") {
                    Some(c) => text::text_of(c),
                    None => String::new(),
                };
                Some(Claim { node: text::text_of(node), claimed })
            },
            None => None,
        }
    }

    /// Writes a claim down.
    pub fn render(&self) -> (r: String)
        ensures
            r@ == claim_text(self@),
            r@ == "node="@ + self.node@ + "\nclaimed="@ + self.claimed@ + "\n"@,
    {
        let mut s = text::owned("node=");
        s.append(self.node.as_str());
        s.append("\nclaimed=");
        s.append(self.claimed.as_str());
        s.append("\n");
        s
    }
}

/// Whether a text holds on one line, and reads back as it is: no line feed in
/// it, and no white space at either end.
pub open spec fn one_line(s: Seq<char>) -> bool {
    !s.contains('\n') && text::trimmed(s) == s
}

/// A claim survives being written and read. The node it names is one, and both
/// texts hold on a line.
pub proof fn law_a_claim_survives_being_written_and_read(c: ClaimView)
    requires
        c.node.len() > 0,
        one_line(c.node),
        one_line(c.claimed),
    ensures
        claim_in(claim_text(c)) == Some(c),
{
    let eq = seq!['='];
    let node = "node"@;
    let claimed = "claimed"@;
    reveal_strlit("node");
    reveal_strlit("node=");
    reveal_strlit("claimed");
    reveal_strlit("\nclaimed=");
    reveal_strlit("\n");
    let a = node + eq + c.node;
    let b = claimed + eq + c.claimed;
    assert("node="@ == node + eq);
    assert("\nclaimed="@ == seq!['\n'] + (claimed + eq));
    assert("\n"@ == seq!['\n'] + Seq::<char>::empty());
    let tail = b + seq!['\n'] + Seq::<char>::empty();
    assert(claim_text(c) == a + seq!['\n'] + tail);

    text::lemma_trimmed_ends(c.node);
    text::lemma_trimmed_ends(c.claimed);
    assert(!a.contains('\n')) by {
        assert forall|i: int| 0 <= i < a.len() implies a[i] != '\n' by {
            if i >= 5 {
                assert(c.node.contains(c.node[i - 5]));
            }
        }
    }
    assert(!b.contains('\n')) by {
        assert forall|i: int| 0 <= i < b.len() implies b[i] != '\n' by {
            if i >= 8 {
                assert(c.claimed.contains(c.claimed[i - 8]));
            }
        }
    }
    text::lemma_line_list_step(a, tail);
    text::lemma_line_list_step(b, Seq::<char>::empty());
    assert(a.last() == c.node.last());
    assert(b.last() == if c.claimed.len() > 0 {
        c.claimed.last()
    } else {
        '='
    });
    let lines = text::line_list(claim_text(c));
    assert(lines == seq![a, b]);
    text::lemma_split_at_char(node, '=', c.node);
    text::lemma_split_at_char(claimed, '=', c.claimed);
    text::lemma_trimmed_same(node);
    text::lemma_trimmed_same(claimed);
    assert(lines.drop_last() == seq![a]);
    assert(node != claimed) by {
        assert(node.len() != claimed.len());
    }
    assert(last_value(seq![a], node) == Some(c.node));
}

// ---------------------------------------------------------- loader entries
/// What follows `key` in the first item of a list that begins with it.
pub open spec fn first_after(list: Seq<Seq<char>>, key: Seq<char>) -> Option<Seq<char>>
    decreases list.len(),
{
    if list.len() == 0 {
        None
    } else {
        match text::after_prefix(list.first(), key) {
            Some(v) => Some(v),
            None => first_after(list.drop_first(), key),
        }
    }
}

/// A text, unless it is empty.
pub open spec fn unless_empty(s: Option<Seq<char>>) -> Option<Seq<char>> {
    match s {
        Some(t) => if t.len() > 0 {
            Some(t)
        } else {
            None
        },
        None => None,
    }
}

/// The value of `key` on a kernel command line, the key ending in its equals
/// sign: what follows it in the first word that begins with it, unless that is
/// nothing.
pub open spec fn value_on(cmdline: Seq<char>, key: Seq<char>) -> Option<Seq<char>> {
    unless_empty(first_after(text::word_list(cmdline), key))
}

/// The value of a field of a loader entry: what follows it on the first line
/// that begins with it, without white space round it, unless that is nothing.
pub open spec fn field_of(entry: Seq<char>, key: Seq<char>) -> Option<Seq<char>> {
    unless_empty(
        match first_after(text::line_list(entry), key) {
            Some(v) => Some(text::trimmed(v)),
            None => None,
        },
    )
}

/// What follows `key` in the first item of a list that begins with it.
fn find_first_after<'a>(list: &Vec<&'a [char]>, key: &str) -> (r: Option<&'a [char]>)
    ensures
        match r {
            Some(v) => first_after(text::views(list@), key@) == Some(v@),
            None => first_after(text::views(list@), key@) is None,
        },
{
    let ghost all = text::views(list@);
    let wanted = text::chars_of(key);
    let mut i: usize = 0;
    assert(all.skip(0) == all);
    while i < list.len()
        invariant
            i <= list.len(),
            wanted@ == key@,
            all == text::views(list@),
            first_after(all, key@) == first_after(all.skip(i as int), key@),
        decreases list.len() - i,
    {
        assert(all.skip(i as int).first() == list@[i as int]@);
        assert(all.skip(i as int).drop_first() == all.skip(i + 1));
        if let Some(v) = text::strip_prefix(list[i], wanted.as_slice()) {
            return Some(v);
        }
        i = i + 1;
    }
    None
}

/// Pulls `key=value` out of a kernel command line; `key` ends in the equals
/// sign.
pub fn cmdline_value(cmdline: &str, key: &str) -> (r: Option<String>)
    ensures
        text::view_of(r) == value_on(cmdline@, key@),
{
    let chars = text::chars_of(cmdline);
    let words = text::words(chars.as_slice());
    match find_first_after(&words, key) {
        Some(v) => if v.len() > 0 {
            Some(text::text_of(v))
        } else {
            None
        },
        None => None,
    }
}

/// Pulls a field out of a loader entry.
fn field(lines: &Vec<&[char]>, key: &str) -> (r: Option<String>)
    ensures
        text::view_of(r) == unless_empty(
            match first_after(text::views(lines@), key@) {
                Some(v) => Some(text::trimmed(v)),
                None => None,
            },
        ),
{
    match find_first_after(lines, key) {
        Some(v) => {
            let t = text::trim(v);
            if t.len() > 0 {
                Some(text::text_of(t))
            } else {
                None
            }
        },
        None => None,
    }
}

/// A loader entry: the kernel, the initramfs and the command line it names.
#[derive(Debug, PartialEq, Eq)]
pub struct Entry {
    pub linux: Option<String>,
    pub initrd: Option<String>,
    pub options: Option<String>,
}

/// What an [`Entry`] says.
pub struct EntryView {
    pub linux: Option<Seq<char>>,
    pub initrd: Option<Seq<char>>,
    pub options: Option<Seq<char>>,
}

impl View for Entry {
    type V = EntryView;

    open spec fn view(&self) -> EntryView {
        EntryView {
            linux: text::view_of(self.linux),
            initrd: text::view_of(self.initrd),
            options: text::view_of(self.options),
        }
    }
}

/// What a loader entry says.
pub open spec fn entry_in(s: Seq<char>) -> EntryView {
    EntryView {
        linux: field_of(s, "linux"@),
        initrd: field_of(s, "initrd"@),
        options: field_of(s, "options"@),
    }
}

impl Entry {
    /// Reads a loader entry.
    pub fn parse(s: &str) -> (r: Entry)
        ensures
            r@ == entry_in(s@),
    {
        let chars = text::chars_of(s);
        let lines = text::lines(chars.as_slice());
        Entry {
            linux: field(&lines, "linux"),
            initrd: field(&lines, "initrd"),
            options: field(&lines, "options"),
        }
    }
}

/// One item of the directory that holds the loader entries.
#[derive(Debug, PartialEq, Eq)]
pub struct Listed {
    pub name: String,
    pub is_dir: bool,
    /// What the file holds; `None` when it would not be read.
    pub content: Option<Vec<u8>>,
}

/// Whether a name ends in `.conf`, in capitals or not.
pub open spec fn conf_name(name: Seq<char>) -> bool {
    let low = text::ascii_lowered(name);
    low.len() >= 5 && low.skip(low.len() - 5) == ".conf"@
}

impl Listed {
    /// The loader entry that the item is: a file named `.conf` that was read
    /// and is text.
    pub open spec fn entry_text(self) -> Option<Seq<char>> {
        if !self.is_dir && conf_name(self.name@) {
            match self.content {
                Some(b) => bytes::utf8_in(b@),
                None => None,
            }
        } else {
            None
        }
    }
}

/// The first loader entry of a directory.
pub open spec fn first_entry(listing: Seq<Listed>) -> Option<EntryView>
    decreases listing.len(),
{
    if listing.len() == 0 {
        None
    } else {
        match listing.first().entry_text() {
            Some(s) => Some(entry_in(s)),
            None => first_entry(listing.drop_first()),
        }
    }
}

/// Whether an item of the directory can be a loader entry, going by its name:
/// a file named `.conf`.
pub fn names_an_entry(name: &str, is_dir: bool) -> (r: bool)
    ensures
        r == (!is_dir && conf_name(name@)),
{
    if is_dir {
        return false;
    }
    let low = text::ascii_lower(text::chars_of(name).as_slice());
    let n: usize = low.len();
    proof {
        reveal_strlit(".conf");
    }
    if n < 5 {
        return false;
    }
    assert(low@.skip(n - 5) == low@.subrange(n - 5, n as int));
    text::same(
        vstd::slice::slice_subrange(low.as_slice(), n - 5, n),
        text::chars_of(".conf").as_slice(),
    )
}

/// The loader entry that systemd-boot starts from: the first in the directory.
pub fn loader_entry(listing: &Vec<Listed>) -> (r: Option<Entry>)
    ensures
        match r {
            Some(e) => first_entry(listing@) == Some(e@),
            None => first_entry(listing@) is None,
        },
{
    let mut i: usize = 0;
    assert(listing@.skip(0) == listing@);
    while i < listing.len()
        invariant
            i <= listing.len(),
            first_entry(listing@) == first_entry(listing@.skip(i as int)),
        decreases listing.len() - i,
    {
        let item = &listing[i];
        assert(listing@.skip(i as int).first() == *item);
        assert(listing@.skip(i as int).drop_first() == listing@.skip(i + 1));
        if names_an_entry(item.name.as_str(), item.is_dir) {
            if let Some(b) = &item.content {
                if let Some(s) = bytes::utf8_text(b.as_slice()) {
                    return Some(Entry::parse(s.as_str()));
                }
            }
        }
        i = i + 1;
    }
    None
}

// ---------------------------------------------------------------- the ESP
/// A path without the separators at its front, as files are looked up.
pub open spec fn from_root(path: Seq<char>) -> Seq<char>
    decreases path.len(),
{
    if path.len() > 0 && path.first() == '/' {
        from_root(path.drop_first())
    } else {
        path
    }
}

/// The path by which a file that a loader entry names is looked up.
pub fn lookup_path(path: &str) -> (r: String)
    ensures
        r@ == from_root(path@),
{
    let p = text::chars_of(path);
    let mut i: usize = 0;
    assert(p@.skip(0) == p@);
    while i < p.len() && p[i] == '/'
        invariant
            i <= p.len(),
            from_root(p@) == from_root(p@.skip(i as int)),
        decreases p.len() - i,
    {
        assert(p@.skip(i as int).drop_first() == p@.skip(i + 1));
        i = i + 1;
    }
    assert(p@.skip(i as int) == p@.subrange(i as int, p@.len() as int));
    text::text_of(vstd::slice::slice_subrange(p.as_slice(), i, p.len()))
}

/// What is missing of one part that a loader entry has to name.
pub open spec fn missing_part(what: Seq<char>, path: Option<Seq<char>>, there: bool) -> Seq<
    Seq<char>,
> {
    match path {
        Some(p) => if there {
            seq![]
        } else {
            seq![what + " "@ + p + " named by the loader entry is not on the ESP"@]
        },
        None => seq!["loader entry names no "@ + what],
    }
}

/// Which of the files that a drive needs to boot are on its ESP.
#[derive(Debug, Clone, Copy, PartialEq, Eq)]
pub struct Present {
    /// The kernel that the loader entry names.
    pub kernel: bool,
    /// The initramfs that the loader entry names.
    pub initramfs: bool,
    /// The bootloader, at [`BOOTLOADER_PATH`].
    pub bootloader: bool,
}

/// Everything that an ESP lacks to boot.
pub open spec fn missing_in(entry: Option<EntryView>, present: Present) -> Seq<Seq<char>> {
    match entry {
        Some(e) => missing_part("kernel"@, e.linux, present.kernel) + missing_part(
            "initramfs"@,
            e.initrd,
            present.initramfs,
        ) + if present.bootloader {
            seq![]
        } else {
            seq!["no /EFI/BOOT/BOOTX64.EFI"@]
        },
        None => seq!["no loader entry under /loader/entries"@],
    }
}

/// How a drive boots, by its loader entry.
pub open spec fn boot_by(e: EntryView) -> BootView {
    let cmdline = match e.options {
        Some(o) => o,
        None => seq![],
    };
    BootView {
        cmdline,
        slab_device: value_on(cmdline, "rd.stormblock.slab="@),
        boot_volume: value_on(cmdline, "stormblock.volume="@),
    }
}

/// What an ESP says, by what was found on it.
pub open spec fn esp_with(
    claim: Option<Seq<u8>>,
    entry: Option<EntryView>,
    present: Present,
) -> EspView {
    let missing = missing_in(entry, present);
    EspView {
        boot: if missing.len() == 0 {
            Some(boot_by(entry->0))
        } else {
            None
        },
        claim: match claim {
            Some(b) => match bytes::utf8_in(b) {
                Some(s) => claim_in(s),
                None => None,
            },
            None => None,
        },
        missing,
    }
}

/// The bytes of a file that may not have been read.
pub open spec fn content_view(b: Option<Vec<u8>>) -> Option<Seq<u8>> {
    match b {
        Some(v) => Some(v@),
        None => None,
    }
}

/// The same, of an entry that may not be there.
pub open spec fn entry_view(e: Option<Entry>) -> Option<EntryView> {
    match e {
        Some(v) => Some(v@),
        None => None,
    }
}

/// Adds to a list what is missing of one part.
fn push_missing(list: &mut Vec<String>, what: &str, path: &Option<String>, there: bool)
    ensures
        text::texts(final(list)@) == text::texts(old(list)@) + missing_part(
            what@,
            text::view_of(*path),
            there,
        ),
{
    let ghost before = text::texts(list@);
    let line = match path {
        Some(p) => {
            if there {
                assert(before + Seq::<Seq<char>>::empty() == before);
                return;
            }
            let mut s = text::owned(what);
            s.append(" ");
            s.append(p.as_str());
            s.append(" named by the loader entry is not on the ESP");
            s
        },
        None => {
            let mut s = text::owned("loader entry names no ");
            s.append(what);
            s
        },
    };
    let ghost said = line@;
    list.push(line);
    assert(text::texts(list@) == before.push(said));
    assert(before.push(said) == before + seq![said]);
}

/// Judges the ESP of a drive by what was found on it: the file at
/// [`CLAIM_PATH`], the loader entry, and which of the files it takes to boot
/// are there.
///
/// An entry naming a kernel that is not there boots nothing, and is the shape
/// a half-finished write leaves behind.
pub fn read(claim: &Option<Vec<u8>>, entry: &Option<Entry>, present: Present) -> (r: Esp)
    ensures
        r@ == esp_with(content_view(*claim), entry_view(*entry), present),
        r.boot is Some <==> r.missing@.len() == 0,
{
    let claimed = match claim {
        Some(b) => match bytes::utf8_text(b.as_slice()) {
            Some(s) => Claim::parse(s.as_str()),
            None => None,
        },
        None => None,
    };
    let mut missing: Vec<String> = Vec::new();
    match entry {
        None => {
            let line = text::owned("no loader entry under /loader/entries");
            let ghost said = line@;
            missing.push(line);
            assert(text::texts(missing@) == seq![said]);
            Esp { boot: None, claim: claimed, missing }
        },
        Some(e) => {
            assert(text::texts(missing@) == Seq::<Seq<char>>::empty());
            push_missing(&mut missing, "kernel", &e.linux, present.kernel);
            push_missing(&mut missing, "initramfs", &e.initrd, present.initramfs);
            let ghost before = text::texts(missing@);
            if !present.bootloader {
                let line = text::owned("no /EFI/BOOT/BOOTX64.EFI");
                let ghost said = line@;
                missing.push(line);
                assert(text::texts(missing@) == before.push(said));
            }
            assert(text::texts(missing@) == missing_in(Some(e@), present));
            if missing.len() > 0 {
                return Esp { boot: None, claim: claimed, missing };
            }
            let cmdline = match &e.options {
                Some(o) => o.clone(),
                None => String::new(),
            };
            let boot = Boot {
                slab_device: cmdline_value(cmdline.as_str(), "rd.stormblock.slab="),
                boot_volume: cmdline_value(cmdline.as_str(), "stormblock.volume="),
                cmdline,
            };
            Esp { boot: Some(boot), claim: claimed, missing }
        },
    }
}

/// A drive boots only on the word of its ESP: there is a loader entry, it names
/// a kernel and an initramfs, both are there, and so is the bootloader.
/// Otherwise what is missing is told.
pub proof fn law_a_drive_boots_when_nothing_is_missing(
    claim: Option<Seq<u8>>,
    entry: Option<EntryView>,
    present: Present,
)
    ensures
        esp_with(claim, entry, present).boot is Some <==> {
            &&& entry matches Some(e)
            &&& e.linux is Some && present.kernel
            &&& e.initrd is Some && present.initramfs
            &&& present.bootloader
        },
        esp_with(claim, entry, present).boot is None <==> esp_with(
            claim,
            entry,
            present,
        ).missing.len() > 0,
{
}

/// A claim that is written to an ESP, in UTF-8, is the claim that is read back
/// from it, whatever else is there.
pub proof fn law_a_claim_is_read_back_from_the_esp(
    c: ClaimView,
    entry: Option<EntryView>,
    present: Present,
)
    requires
        c.node.len() > 0,
        one_line(c.node),
        one_line(c.claimed),
    ensures
        esp_with(Some(vstd::utf8::encode_utf8(claim_text(c))), entry, present).claim == Some(c),
{
    vstd::utf8::encode_utf8_valid_utf8(claim_text(c));
    vstd::utf8::encode_utf8_decode_utf8(claim_text(c));
    law_a_claim_survives_being_written_and_read(c);
}

/// The byte range of an ESP is that of the first partition of its type, from its
/// first block to the end of its last, in blocks of 512 bytes.
pub proof fn law_the_bytes_of_the_esp(parts: Seq<GptEntry>, i: int)
    requires
        0 <= i < parts.len(),
        parts[i].type_guid == 0xc12a7328_f81f_11d2_ba4b_00a0c93ec93b,
        forall|j: int|
            0 <= j < i ==> (#[trigger] parts[j]).type_guid
                != 0xc12a7328_f81f_11d2_ba4b_00a0c93ec93b,
    ensures
        esp_bytes(parts) == Some((parts[i].first_lba * 512, (parts[i].last_lba + 1) * 512)),
        in_reach(parts) <==> parts[i].first_lba * 512 <= u64::MAX && (parts[i].last_lba + 1) * 512
            <= u64::MAX,
{
    law_extent_is_the_first_esp(parts);
    if let Some(k) = esp_position(parts) {
        if k < i {
            assert(parts[k].type_guid == efi_type());
        }
        if i < k {
            assert(parts[i].type_guid != efi_type());
        }
    }
}

/// Of two lines with the same key the last counts; white space round the key and
/// the value does not, and what has another key, or none, says nothing.
pub proof fn law_the_last_line_with_a_key_counts(
    lines: Seq<Seq<char>>,
    k: Seq<char>,
    v: Seq<char>,
    other: Seq<char>,
    key: Seq<char>,
)
    requires
        !k.contains('='),
        !other.contains('='),
    ensures
        text::trimmed(k) == key ==> last_value(lines.push(k + seq!['='] + v), key) == Some(
            text::trimmed(v),
        ),
        text::trimmed(k) != key ==> last_value(lines.push(k + seq!['='] + v), key) == last_value(
            lines,
            key,
        ),
        last_value(lines.push(other), key) == last_value(lines, key),
        last_value(seq![], key) is None,
{
    let line = k + seq!['='] + v;
    text::law_a_text_is_split_at_the_first_of_a_character(k, '=', v);
    text::law_a_text_is_split_at_the_first_of_a_character(other, '=', v);
    assert(lines.push(line).drop_last() == lines);
    assert(lines.push(other).drop_last() == lines);
    assert(lines.push(line).last() == line);
    assert(lines.push(other).last() == other);
}

/// A claim is two lines: who the drive belongs to, and since when.
pub proof fn law_how_a_claim_is_written(c: ClaimView)
    ensures
        claim_text(c) == "node="@ + c.node + "\nclaimed="@ + c.claimed + "\n"@,
{
}

/// A text is a claim when it names a node, and the claim is by that node; when
/// it was made is said by the same text, or not at all.
pub proof fn law_who_a_claim_is_by(s: Seq<char>)
    ensures
        ({
            let node = last_value(text::line_list(s), "node"@);
            let claimed = last_value(text::line_list(s), "claimed"@);
            &&& claim_in(s) is Some <==> node is Some && node->0.len() > 0
            &&& claim_in(s) matches Some(c) ==> {
                &&& Some(c.node) == node
                &&& claimed is Some ==> Some(c.claimed) == claimed
                &&& claimed is None ==> c.claimed.len() == 0
            }
        }),
{
}

/// Of the items that begin with a key, the first counts, and what counts is what
/// follows the key in it.
pub proof fn law_the_first_that_begins_with_a_key_counts(
    list: Seq<Seq<char>>,
    key: Seq<char>,
    i: int,
)
    requires
        0 <= i <= list.len(),
        forall|j: int|
            0 <= j < i ==> !((#[trigger] list[j]).len() >= key.len() && list[j].take(
                key.len() as int,
            ) == key),
        i < list.len() ==> list[i].len() >= key.len() && list[i].take(key.len() as int) == key,
    ensures
        first_after(list, key) == if i < list.len() {
            Some(list[i].skip(key.len() as int))
        } else {
            None
        },
    decreases list.len(),
{
    if i > 0 {
        let rest = list.drop_first();
        assert(list[0] == list.first());
        assert forall|j: int| 0 <= j < i - 1 implies !((#[trigger] rest[j]).len() >= key.len()
            && rest[j].take(key.len() as int) == key) by {
            assert(rest[j] == list[j + 1]);
        }
        if i < list.len() {
            assert(rest[i - 1] == list[i]);
        }
        law_the_first_that_begins_with_a_key_counts(rest, key, i - 1);
    }
}

/// The value of a key on a command line is what follows the key in the first
/// word that begins with it; an empty one is none.
pub proof fn law_a_value_on_a_command_line(cmdline: Seq<char>, key: Seq<char>, i: int)
    requires
        0 <= i < text::word_list(cmdline).len(),
        text::word_list(cmdline)[i].len() >= key.len(),
        text::word_list(cmdline)[i].take(key.len() as int) == key,
        forall|j: int|
            0 <= j < i ==> !((#[trigger] text::word_list(cmdline)[j]).len() >= key.len()
                && text::word_list(cmdline)[j].take(key.len() as int) == key),
    ensures
        ({
            let v = text::word_list(cmdline)[i].skip(key.len() as int);
            value_on(cmdline, key) == if v.len() > 0 {
                Some(v)
            } else {
                None
            }
        }),
{
    law_the_first_that_begins_with_a_key_counts(text::word_list(cmdline), key, i);
}

/// A key that no word of a command line begins with has no value on it.
pub proof fn law_what_is_not_on_a_command_line(cmdline: Seq<char>, key: Seq<char>)
    requires
        forall|j: int|
            0 <= j < text::word_list(cmdline).len() ==> !((#[trigger] text::word_list(
                cmdline,
            )[j]).len() >= key.len() && text::word_list(cmdline)[j].take(key.len() as int) == key),
    ensures
        value_on(cmdline, key) is None,
{
    law_the_first_that_begins_with_a_key_counts(
        text::word_list(cmdline),
        key,
        text::word_list(cmdline).len() as int,
    );
}

/// What a loader entry gives for a field is what follows the field on the first
/// line that begins with it, without the white space round it; nothing is none.
pub proof fn law_a_field_of_a_loader_entry(entry: Seq<char>, key: Seq<char>, i: int)
    requires
        0 <= i <= text::line_list(entry).len(),
        i < text::line_list(entry).len() ==> text::line_list(entry)[i].len() >= key.len()
            && text::line_list(entry)[i].take(key.len() as int) == key,
        forall|j: int|
            0 <= j < i ==> !((#[trigger] text::line_list(entry)[j]).len() >= key.len()
                && text::line_list(entry)[j].take(key.len() as int) == key),
    ensures
        ({
            let v = text::trimmed(text::line_list(entry)[i].skip(key.len() as int));
            field_of(entry, key) == if i < text::line_list(entry).len() && v.len() > 0 {
                Some(v)
            } else {
                None
            }
        }),
        entry_in(entry).linux == field_of(entry, "linux"@),
        entry_in(entry).initrd == field_of(entry, "initrd"@),
        entry_in(entry).options == field_of(entry, "options"@),
{
    law_the_first_that_begins_with_a_key_counts(text::line_list(entry), key, i);
}

/// A loader entry's file is named by its last five characters, a dot and `conf`,
/// in capitals or not.
pub proof fn law_how_a_loader_entry_is_named(name: Seq<char>)
    ensures
        conf_name(name) <==> {
            let n = name.len() as int;
            &&& n >= 5
            &&& name[n - 5] == '.'
            &&& name[n - 4] == 'c' || name[n - 4] == 'C'
            &&& name[n - 3] == 'o' || name[n - 3] == 'O'
            &&& name[n - 2] == 'n' || name[n - 2] == 'N'
            &&& name[n - 1] == 'f' || name[n - 1] == 'F'
        },
{
    reveal_strlit(".conf");
    let n = name.len() as int;
    let low = text::ascii_lowered(name);
    if n >= 5 {
        let end = low.skip(n - 5);
        text::law_only_capital_letters_are_made_small(name, n - 5);
        text::law_only_capital_letters_are_made_small(name, n - 4);
        text::law_only_capital_letters_are_made_small(name, n - 3);
        text::law_only_capital_letters_are_made_small(name, n - 2);
        text::law_only_capital_letters_are_made_small(name, n - 1);
        assert(end.len() == 5);
        assert(end[0] == low[n - 5] && end[1] == low[n - 4] && end[2] == low[n - 3] && end[3]
            == low[n - 2] && end[4] == low[n - 1]);
        if end == ".conf"@ {
            assert(end[0] == '.' && end[1] == 'c' && end[2] == 'o' && end[3] == 'n' && end[4]
                == 'f');
        }
        if end[0] == '.' && end[1] == 'c' && end[2] == 'o' && end[3] == 'n' && end[4] == 'f' {
            assert(end == ".conf"@);
        }
    }
}

/// The loader entry of a drive is the first file of the directory that is named
/// as one, was read and is text.
pub proof fn law_the_first_loader_entry_counts(listing: Seq<Listed>, i: int)
    requires
        0 <= i <= listing.len(),
        forall|j: int|
            0 <= j < i ==> (#[trigger] listing[j]).is_dir || !conf_name(listing[j].name@)
                || listing[j].content is None || bytes::utf8_in(listing[j].content->0@) is None,
        i < listing.len() ==> !listing[i].is_dir && conf_name(listing[i].name@)
            && listing[i].content is Some && bytes::utf8_in(listing[i].content->0@) is Some,
    ensures
        first_entry(listing) == if i < listing.len() {
            Some(entry_in(bytes::utf8_in(listing[i].content->0@)->0))
        } else {
            None
        },
    decreases listing.len(),
{
    if i > 0 {
        let rest = listing.drop_first();
        assert(listing[0] == listing.first());
        assert forall|j: int| 0 <= j < i - 1 implies (#[trigger] rest[j]).is_dir || !conf_name(
            rest[j].name@,
        ) || rest[j].content is None || bytes::utf8_in(rest[j].content->0@) is None by {
            assert(rest[j] == listing[j + 1]);
        }
        if i < listing.len() {
            assert(rest[i - 1] == listing[i]);
        }
        law_the_first_loader_entry_counts(rest, i - 1);
    }
}

/// A file is looked up from the root: what was taken off its path is separators,
/// and there is none left at its front.
pub proof fn law_a_path_is_looked_up_from_the_root(path: Seq<char>)
    ensures
        from_root(path).len() <= path.len(),
        path.skip(path.len() - from_root(path).len()) == from_root(path),
        forall|i: int| 0 <= i < path.len() - from_root(path).len() ==> path[i] == '/',
        from_root(path).len() > 0 ==> from_root(path).first() != '/',
    decreases path.len(),
{
    if path.len() > 0 && path.first() == '/' {
        let rest = path.drop_first();
        law_a_path_is_looked_up_from_the_root(rest);
        let n = path.len() - from_root(path).len();
        assert(path.skip(n) == rest.skip(n - 1));
        assert forall|i: int| 0 <= i < n implies path[i] == '/' by {
            if i > 0 {
                assert(path[i] == rest[i - 1]);
            }
        }
    } else {
        assert(path.skip(0) == path);
    }
}

/// What an ESP lacks to boot is told part by part: the kernel and the initramfs
/// that its loader entry does not name, or names where they are not, and the
/// bootloader; or that there is no loader entry.
pub proof fn law_what_is_missing_is_told_part_by_part(e: EntryView, present: Present)
    ensures
        missing_in(None, present) == seq!["no loader entry under /loader/entries"@],
        missing_in(Some(e), present) == (match e.linux {
            None => seq!["loader entry names no kernel"@],
            Some(k) => if present.kernel {
                seq![]
            } else {
                seq!["kernel "@ + k + " named by the loader entry is not on the ESP"@]
            },
        }) + (match e.initrd {
            None => seq!["loader entry names no initramfs"@],
            Some(k) => if present.initramfs {
                seq![]
            } else {
                seq!["initramfs "@ + k + " named by the loader entry is not on the ESP"@]
            },
        }) + (if present.bootloader {
            seq![]
        } else {
            seq!["no /EFI/BOOT/BOOTX64.EFI"@]
        }),
{
    reveal_strlit("loader entry names no ");
    reveal_strlit("loader entry names no kernel");
    reveal_strlit("loader entry names no initramfs");
    reveal_strlit("kernel");
    reveal_strlit("initramfs");
    reveal_strlit("kernel ");
    reveal_strlit("initramfs ");
    reveal_strlit(" ");
    assert("loader entry names no "@ + "kernel"@ == "loader entry names no kernel"@);
    assert("loader entry names no "@ + "initramfs"@ == "loader entry names no initramfs"@);
    assert("kernel"@ + " "@ == "kernel "@);
    assert("initramfs"@ + " "@ == "initramfs "@);
}

/// A drive boots by its loader entry: the command line is the entry's, and the
/// slab and the volume are the ones that this command line names.
pub proof fn law_a_drive_boots_by_its_loader_entry(
    claim: Option<Seq<u8>>,
    e: EntryView,
    present: Present,
)
    requires
        e.linux is Some && present.kernel,
        e.initrd is Some && present.initramfs,
        present.bootloader,
    ensures
        ({
            let cmdline = match e.options {
                Some(o) => o,
                None => seq![],
            };
            &&& esp_with(claim, Some(e), present).boot matches Some(b)
            &&& b.cmdline == cmdline
            &&& b.slab_device == value_on(cmdline, "rd.stormblock.slab="@)
            &&& b.boot_volume == value_on(cmdline, "stormblock.volume="@)
        }),
{
}

/// The claim on an ESP is the one that its text makes, whether the drive boots
/// or not.
pub proof fn law_a_claim_does_not_depend_on_what_boots(
    claim: Seq<u8>,
    entry: Option<EntryView>,
    present: Present,
)
    ensures
        bytes::utf8_in(claim) matches Some(s) ==> esp_with(Some(claim), entry, present).claim
            == claim_in(s),
        bytes::utf8_in(claim) is None ==> esp_with(Some(claim), entry, present).claim is None,
        esp_with(None, entry, present).claim is None,
{
}

} // verus!
