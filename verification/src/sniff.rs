//! What the bytes at the ends of a drive say.
//!
//! This is not what keeps a drive safe: anything unrecognised and non-zero is
//! foreign regardless. It is what lets the report say *what* is there, which
//! is the difference between a verdict someone can check and one they have to
//! trust.

use vstd::prelude::*;
use vstd::slice::slice_subrange;

use crate::text;

verus! {

/// The first megabyte, read on sight: every signature worth naming lives in
/// it.
pub const HEAD: u64 = 0x10_0000;

/// The last megabyte, read on sight: a backup GPT, and the mdraid superblocks
/// that sit at the end of a member rather than the start.
pub const TAIL: u64 = 0x10_0000;

// ------------------------------------------------------------------ bytes
/// The bytes of a text of letters, digits and punctuation, one for each.
pub open spec fn letters(s: Seq<char>) -> Seq<u8> {
    Seq::new(s.len(), |i: int| s[i] as u8)
}

/// The bytes of a text of letters, digits and punctuation.
pub fn bytes_of_letters(s: &str) -> (r: Vec<u8>)
    ensures
        r@ == letters(s@),
{
    let c = text::chars_of(s);
    let mut r: Vec<u8> = Vec::new();
    let mut i: usize = 0;
    while i < c.len()
        invariant
            i <= c.len(),
            r@ == letters(c@).take(i as int),
        decreases c.len() - i,
    {
        r.push(c[i] as u8);
        i = i + 1;
    }
    assert(letters(c@).take(i as int) == letters(c@));
    r
}

/// Whether two runs of bytes are the same.
pub fn same_bytes(a: &[u8], b: &[u8]) -> (r: bool)
    ensures
        r == (a@ == b@),
{
    if a.len() != b.len() {
        return false;
    }
    let mut i: usize = 0;
    while i < a.len()
        invariant
            i <= a.len(),
            a.len() == b.len(),
            forall|k: int| 0 <= k < i ==> a@[k] == b@[k],
        decreases a.len() - i,
    {
        if a[i] != b[i] {
            return false;
        }
        i = i + 1;
    }
    assert(a@ == b@);
    true
}

/// What a stormblock slab begins with.
pub open spec fn slab_magic() -> Seq<u8> {
    letters("STRMSLAB"@)
}

/// What a GPT header begins with.
pub open spec fn gpt_magic() -> Seq<u8> {
    letters("EFI PART"@)
}

/// What an mdraid superblock begins with: 0xa92b4efc, least significant byte
/// first.
pub open spec fn md_magic() -> Seq<u8> {
    seq![0xfcu8, 0x4eu8, 0x2bu8, 0xa9u8]
}

// ------------------------------------------------------------------ sniffs
/// The first and last of what is on a drive. Enough to name what is there,
/// which is enough for every verdict except the one that formats something.
#[derive(Debug, PartialEq, Eq)]
pub struct Sniff {
    pub head: Vec<u8>,
    pub tail: Vec<u8>,
}

/// The bytes of a [`Sniff`].
pub struct SniffView {
    pub head: Seq<u8>,
    pub tail: Seq<u8>,
}

impl View for Sniff {
    type V = SniffView;

    open spec fn view(&self) -> SniffView {
        SniffView { head: self.head@, tail: self.tail@ }
    }
}

/// Whether `magic` stands at `off` in `head`.
pub open spec fn stands_at(head: Seq<u8>, off: int, magic: Seq<u8>) -> bool {
    off + magic.len() <= head.len() && head.subrange(off, off + magic.len()) == magic
}

impl SniffView {
    /// Whether the drive begins as a stormblock slab does.
    pub open spec fn is_slab(self) -> bool {
        stands_at(self.head, 0, slab_magic())
    }
}

/// Something known that can be on a drive: where its mark stands, the mark,
/// and its name.
pub struct Known {
    pub off: usize,
    pub magic: Vec<u8>,
    pub what: String,
}

/// What a [`Known`] says.
pub struct KnownView {
    pub off: usize,
    pub magic: Seq<u8>,
    pub what: Seq<char>,
}

impl View for Known {
    type V = KnownView;

    open spec fn view(&self) -> KnownView {
        KnownView { off: self.off, magic: self.magic@, what: self.what@ }
    }
}

/// A mark and its place.
pub open spec fn known(off: usize, magic: Seq<u8>, what: Seq<char>) -> KnownView {
    KnownView { off, magic, what }
}

/// Everything known, in the order in which it is looked for. The MBR comes
/// last, so that a protective MBR is reported as the GPT it protects.
pub open spec fn everything_known() -> Seq<KnownView> {
    seq![
        known(0, slab_magic(), "stormblock slab"@),
        known(512, gpt_magic(), "GPT"@),
        known(0, seq![0x4cu8, 0x55u8, 0x4bu8, 0x53u8, 0xbau8, 0xbeu8], "LUKS"@),
        known(0, letters("XFSB"@), "XFS"@),
        known(3, letters("NTFS    "@), "NTFS"@),
        known(3, letters("EXFAT   "@), "exFAT"@),
        known(0x10040, letters("_BHRfS_M"@), "btrfs"@),
        known(1024, letters("H+"@), "HFS+"@),
        known(32, letters("NXSB"@), "APFS"@),
        known(0x8001, letters("CD001"@), "ISO 9660"@),
        known(4086, letters("SWAPSPACE2"@), "swap"@),
        known(4086, letters("SWAP-SPACE"@), "swap"@),
        known(0x36, letters("FAT1"@), "FAT"@),
        known(0x52, letters("FAT32"@), "FAT32"@),
        known(0x438, seq![0x53u8, 0xefu8], "ext2/3/4"@),
        known(0, letters("LABELONE"@), "LVM2 physical volume"@),
        known(512, letters("LABELONE"@), "LVM2 physical volume"@),
        known(1024, letters("LABELONE"@), "LVM2 physical volume"@),
        known(1536, letters("LABELONE"@), "LVM2 physical volume"@),
        known(0, md_magic(), "Linux md RAID member"@),
        known(4096, md_magic(), "Linux md RAID member"@),
        known(0x20000, seq![0x0cu8, 0xb1u8, 0xbau8, 0x00u8], "ZFS vdev"@),
        known(510, seq![0x55u8, 0xaau8], "MBR partition table"@),
    ]
}

/// The name of the first thing of a list whose mark stands in its place.
pub open spec fn first_known(list: Seq<KnownView>, head: Seq<u8>) -> Option<Seq<char>>
    decreases list.len(),
{
    if list.len() == 0 {
        None
    } else if stands_at(head, list.first().off as int, list.first().magic) {
        Some(list.first().what)
    } else {
        first_known(list.drop_first(), head)
    }
}

/// What the front of a drive says is on it.
pub open spec fn front_name(s: SniffView) -> Option<Seq<char>> {
    first_known(everything_known(), s.head)
}

/// Whether an mdraid superblock stands at one of the 4 KiB boundaries of the
/// tail.
pub open spec fn md_in_tail(tail: Seq<u8>) -> bool {
    exists|k: int|
        0 <= k && #[trigger] (k * 4096) + 4096 <= tail.len() && tail.subrange(
            k * 4096,
            k * 4096 + 4,
        ) == md_magic()
}

/// What the end of a drive says is on it.
pub open spec fn end_name(s: SniffView) -> Option<Seq<char>> {
    let n = s.tail.len();
    if n >= 512 && s.tail.subrange(n - 512, n - 504) == gpt_magic() {
        Some("GPT (backup header only)"@)
    } else if md_in_tail(s.tail) {
        Some("Linux md RAID member (superblock at the end)"@)
    } else {
        None
    }
}

/// Adds something known to a list.
fn add_known(list: &mut Vec<Known>, off: usize, magic: Vec<u8>, what: &str)
    ensures
        known_views(final(list)@) == known_views(old(list)@).push(known(off, magic@, what@)),
{
    list.push(Known { off, magic, what: text::owned(what) });
    assert(known_views(list@) == known_views(old(list)@).push(known(off, magic@, what@)));
}

/// What each item of a list says.
pub open spec fn known_views(v: Seq<Known>) -> Seq<KnownView> {
    Seq::new(v.len(), |i: int| v[i]@)
}

/// Everything known, in the order in which it is looked for.
fn all_known() -> (r: Vec<Known>)
    ensures
        known_views(r@) == everything_known(),
{
    let mut r: Vec<Known> = Vec::new();
    assert(known_views(r@) == Seq::<KnownView>::empty());
    add_known(&mut r, 0, bytes_of_letters("STRMSLAB"), "stormblock slab");
    add_known(&mut r, 512, bytes_of_letters("EFI PART"), "GPT");
    add_known(&mut r, 0, vec![0x4cu8, 0x55u8, 0x4bu8, 0x53u8, 0xbau8, 0xbeu8], "LUKS");
    add_known(&mut r, 0, bytes_of_letters("XFSB"), "XFS");
    add_known(&mut r, 3, bytes_of_letters("NTFS    "), "NTFS");
    add_known(&mut r, 3, bytes_of_letters("EXFAT   "), "exFAT");
    add_known(&mut r, 0x10040, bytes_of_letters("_BHRfS_M"), "btrfs");
    add_known(&mut r, 1024, bytes_of_letters("H+"), "HFS+");
    add_known(&mut r, 32, bytes_of_letters("NXSB"), "APFS");
    add_known(&mut r, 0x8001, bytes_of_letters("CD001"), "ISO 9660");
    add_known(&mut r, 4086, bytes_of_letters("SWAPSPACE2"), "swap");
    add_known(&mut r, 4086, bytes_of_letters("SWAP-SPACE"), "swap");
    add_known(&mut r, 0x36, bytes_of_letters("FAT1"), "FAT");
    add_known(&mut r, 0x52, bytes_of_letters("FAT32"), "FAT32");
    add_known(&mut r, 0x438, vec![0x53u8, 0xefu8], "ext2/3/4");
    add_known(&mut r, 0, bytes_of_letters("LABELONE"), "LVM2 physical volume");
    add_known(&mut r, 512, bytes_of_letters("LABELONE"), "LVM2 physical volume");
    add_known(&mut r, 1024, bytes_of_letters("LABELONE"), "LVM2 physical volume");
    add_known(&mut r, 1536, bytes_of_letters("LABELONE"), "LVM2 physical volume");
    add_known(&mut r, 0, vec![0xfcu8, 0x4eu8, 0x2bu8, 0xa9u8], "Linux md RAID member");
    add_known(&mut r, 4096, vec![0xfcu8, 0x4eu8, 0x2bu8, 0xa9u8], "Linux md RAID member");
    add_known(&mut r, 0x20000, vec![0x0cu8, 0xb1u8, 0xbau8, 0x00u8], "ZFS vdev");
    add_known(&mut r, 510, vec![0x55u8, 0xaau8], "MBR partition table");
    r
}

impl Sniff {
    /// The bytes of the head from `off`, when it reaches that far.
    pub fn at(&self, off: usize, len: usize) -> (r: Option<&[u8]>)
        ensures
            match r {
                Some(b) => off + len <= self.head@.len() && b@ == self.head@.subrange(
                    off as int,
                    off + len,
                ),
                None => off + len > self.head@.len(),
            },
    {
        let n: usize = self.head.len();
        if off > n || len > n - off {
            return None;
        }
        Some(slice_subrange(self.head.as_slice(), off, off + len))
    }

    /// Whether the head holds `magic` at `off`.
    pub fn starts(&self, off: usize, magic: &[u8]) -> (r: bool)
        ensures
            r == stands_at(self.head@, off as int, magic@),
    {
        match self.at(off, magic.len()) {
            Some(b) => same_bytes(b, magic),
            None => false,
        }
    }

    /// Whether the drive begins as a stormblock slab does.
    pub fn is_slab(&self) -> (r: bool)
        ensures
            r == self@.is_slab(),
    {
        self.starts(0, bytes_of_letters("STRMSLAB").as_slice())
    }

    /// What is at the end of the drive rather than the start. Two things put
    /// themselves there and leave the front untouched: the backup GPT header
    /// in the last sector, and an mdraid v0.90 or v1.0 superblock, which is
    /// why a disk pulled out of an array can look blank from the front.
    pub fn tail_signature(&self) -> (r: Option<String>)
        ensures
            text::view_of(r) == end_name(self@),
    {
        let t = self.tail.as_slice();
        let n: usize = t.len();
        if n >= 512 && same_bytes(
            slice_subrange(t, n - 512, n - 504),
            bytes_of_letters("EFI PART").as_slice(),
        ) {
            return Some(text::owned("GPT (backup header only)"));
        }
        let md: Vec<u8> = vec![0xfcu8, 0x4eu8, 0x2bu8, 0xa9u8];
        let mut at: usize = 0;
        let ghost mut k: int = 0;
        while at <= n && 4096 <= n - at
            invariant
                at <= n,
                n == t@.len(),
                t@ == self.tail@,
                !(n >= 512 && t@.subrange(n - 512, n - 504) == gpt_magic()),
                md@ == md_magic(),
                at == k * 4096,
                0 <= k,
                forall|j: int|
                    0 <= j < k ==> t@.subrange(#[trigger] (j * 4096), j * 4096 + 4) != md_magic(),
            decreases n - at,
        {
            if same_bytes(slice_subrange(t, at, at + 4), md.as_slice()) {
                assert(md_in_tail(t@)) by {
                    assert(k * 4096 + 4096 <= t@.len());
                }
                return Some(text::owned("Linux md RAID member (superblock at the end)"));
            }
            at = at + 4096;
            proof {
                k = k + 1;
            }
        }
        assert(!md_in_tail(t@));
        None
    }
}

/// Names what is on the drive, when it is something known.
pub fn signature(s: &Sniff) -> (r: Option<String>)
    ensures
        text::view_of(r) == front_name(s@),
{
    let list = all_known();
    let ghost all = known_views(list@);
    let mut i: usize = 0;
    assert(all.skip(0) == all);
    while i < list.len()
        invariant
            i <= list.len(),
            all == known_views(list@),
            all == everything_known(),
            first_known(all, s@.head) == first_known(all.skip(i as int), s@.head),
        decreases list.len() - i,
    {
        let k = &list[i];
        assert(all.skip(i as int).first() == k@);
        assert(all.skip(i as int).drop_first() == all.skip(i + 1));
        if s.starts(k.off, k.magic.as_slice()) {
            return Some(k.what.clone());
        }
        i = i + 1;
    }
    None
}

// ---------------------------------------------------------- what is sniffed
/// How much of the front of a drive of `len` bytes is read on sight.
pub fn head_len(len: u64) -> (r: u64)
    ensures
        r == if len < HEAD {
            len
        } else {
            HEAD
        },
        len < 1048576 ==> r == len,
        len >= 1048576 ==> r == 1048576,
{
    if len < HEAD {
        len
    } else {
        HEAD
    }
}

/// Where the tail of a drive of `len` bytes begins, when there is more to it
/// than a head and a tail. [`TAIL`] bytes are read from there.
pub fn tail_start(len: u64) -> (r: Option<u64>)
    ensures
        r == if len > HEAD + TAIL {
            Some((len - TAIL) as u64)
        } else {
            None
        },
        len > 2097152 ==> r is Some && r->0 == len - 1048576,
        len <= 2097152 ==> r is None,
{
    if len > HEAD + TAIL {
        Some(len - TAIL)
    } else {
        None
    }
}

/// What is said of a drive that is there and answers with nothing.
pub open spec fn no_bytes() -> Seq<char> {
    "read returned no bytes"@
}

/// What was read of a drive. A drive that answers with no bytes was not read.
pub fn sniffed(head: Vec<u8>, tail: Vec<u8>) -> (r: Result<Sniff, String>)
    ensures
        match r {
            Ok(s) => head@.len() > 0 && s@ == (SniffView { head: head@, tail: tail@ }),
            Err(e) => head@.len() == 0 && e@ == no_bytes(),
        },
        match r {
            Ok(s) => head@.len() > 0 && s.head == head && s.tail == tail,
            Err(e) => head@.len() == 0 && e@ == "read returned no bytes"@,
        },
{
    if head.len() == 0 {
        return Err(text::owned("read returned no bytes"));
    }
    Ok(Sniff { head, tail })
}

/// What reading the ends of a drive that holds the given bytes comes to.
pub open spec fn ends_of(drive: Seq<u8>) -> Result<SniffView, Seq<char>> {
    let len = drive.len();
    if len == 0 {
        Err(no_bytes())
    } else {
        Ok(
            SniffView {
                head: drive.take(
                    if len < HEAD {
                        len as int
                    } else {
                        HEAD as int
                    },
                ),
                tail: if len > HEAD + TAIL {
                    drive.skip(len - TAIL)
                } else {
                    seq![]
                },
            },
        )
    }
}

// ------------------------------------------------------------------- zeros
/// Whether every byte is zero.
pub open spec fn all_zero(b: Seq<u8>) -> bool {
    forall|i: int| 0 <= i < b.len() ==> b[i] == 0
}

/// A mark that begins with a byte that is not zero.
spec fn shows(magic: Seq<u8>) -> bool {
    magic.len() > 0 && magic[0] != 0
}

proof fn lemma_zeros_hold_no_mark(head: Seq<u8>, off: int, magic: Seq<u8>)
    requires
        all_zero(head),
        shows(magic),
        0 <= off,
    ensures
        !stands_at(head, off, magic),
{
    if stands_at(head, off, magic) {
        assert(head.subrange(off, off + magic.len())[0] == head[off]);
    }
}

proof fn lemma_marks_show()
    ensures
        shows(slab_magic()),
        shows(gpt_magic()),
        shows(md_magic()),
        forall|i: int|
            0 <= i < everything_known().len() ==> shows(#[trigger] everything_known()[i].magic),
{
    reveal_strlit("STRMSLAB");
    reveal_strlit("EFI PART");
    reveal_strlit("XFSB");
    reveal_strlit("NTFS    ");
    reveal_strlit("EXFAT   ");
    reveal_strlit("_BHRfS_M");
    reveal_strlit("H+");
    reveal_strlit("NXSB");
    reveal_strlit("CD001");
    reveal_strlit("SWAPSPACE2");
    reveal_strlit("SWAP-SPACE");
    reveal_strlit("FAT1");
    reveal_strlit("FAT32");
    reveal_strlit("LABELONE");
}

proof fn lemma_first_known_of_zeros(list: Seq<KnownView>, head: Seq<u8>)
    requires
        all_zero(head),
        forall|i: int| 0 <= i < list.len() ==> shows(#[trigger] list[i].magic),
    ensures
        first_known(list, head) is None,
    decreases list.len(),
{
    if list.len() > 0 {
        assert(list.first() == list[0]);
        lemma_zeros_hold_no_mark(head, list.first().off as int, list.first().magic);
        assert forall|i: int| 0 <= i < list.drop_first().len() implies shows(
            #[trigger] list.drop_first()[i].magic,
        ) by {
            assert(list.drop_first()[i] == list[i + 1]);
        }
        lemma_first_known_of_zeros(list.drop_first(), head);
    }
}

/// Nothing known is made of zeros: the ends of a drive that are all zero are
/// not a slab and have no name.
pub proof fn law_zeros_have_no_name(s: SniffView)
    requires
        all_zero(s.head),
        all_zero(s.tail),
    ensures
        !s.is_slab(),
        front_name(s) is None,
        end_name(s) is None,
{
    lemma_marks_show();
    lemma_zeros_hold_no_mark(s.head, 0, slab_magic());
    lemma_first_known_of_zeros(everything_known(), s.head);
    let n = s.tail.len();
    if n >= 512 && s.tail.subrange(n - 512, n - 504) == gpt_magic() {
        assert(s.tail.subrange(n - 512, n - 504)[0] == s.tail[n - 512]);
    }
    if md_in_tail(s.tail) {
        let k = choose|k: int|
            0 <= k && #[trigger] (k * 4096) + 4096 <= s.tail.len() && s.tail.subrange(
                k * 4096,
                k * 4096 + 4,
            ) == md_magic();
        assert(s.tail.subrange(k * 4096, k * 4096 + 4)[0] == s.tail[k * 4096]);
    }
}

// -------------------------------------------------------------------- laws
/// Whether the given bytes stand at a place.
pub open spec fn bytes_at(b: Seq<u8>, off: int, m: Seq<u8>) -> bool {
    &&& off + m.len() <= b.len()
    &&& forall|k: int| 0 <= k < m.len() ==> b[off + k] == #[trigger] m[k]
}

/// Where each known thing leaves its mark at the front of a drive, the bytes of
/// the mark, and the name it goes by, the surest first.
pub open spec fn marks() -> Seq<(int, Seq<u8>, Seq<char>)> {
    seq![
        (0int, seq![0x53u8, 0x54u8, 0x52u8, 0x4du8, 0x53u8, 0x4cu8, 0x41u8, 0x42u8], "stormblock slab"@),
        (512int, seq![0x45u8, 0x46u8, 0x49u8, 0x20u8, 0x50u8, 0x41u8, 0x52u8, 0x54u8], "GPT"@),
        (0int, seq![0x4cu8, 0x55u8, 0x4bu8, 0x53u8, 0xbau8, 0xbeu8], "LUKS"@),
        (0int, seq![0x58u8, 0x46u8, 0x53u8, 0x42u8], "XFS"@),
        (3int, seq![0x4eu8, 0x54u8, 0x46u8, 0x53u8, 0x20u8, 0x20u8, 0x20u8, 0x20u8], "NTFS"@),
        (3int, seq![0x45u8, 0x58u8, 0x46u8, 0x41u8, 0x54u8, 0x20u8, 0x20u8, 0x20u8], "exFAT"@),
        (65600int, seq![0x5fu8, 0x42u8, 0x48u8, 0x52u8, 0x66u8, 0x53u8, 0x5fu8, 0x4du8], "btrfs"@),
        (1024int, seq![0x48u8, 0x2bu8], "HFS+"@),
        (32int, seq![0x4eu8, 0x58u8, 0x53u8, 0x42u8], "APFS"@),
        (32769int, seq![0x43u8, 0x44u8, 0x30u8, 0x30u8, 0x31u8], "ISO 9660"@),
        (4086int, seq![0x53u8, 0x57u8, 0x41u8, 0x50u8, 0x53u8, 0x50u8, 0x41u8, 0x43u8, 0x45u8, 0x32u8], "swap"@),
        (4086int, seq![0x53u8, 0x57u8, 0x41u8, 0x50u8, 0x2du8, 0x53u8, 0x50u8, 0x41u8, 0x43u8, 0x45u8], "swap"@),
        (54int, seq![0x46u8, 0x41u8, 0x54u8, 0x31u8], "FAT"@),
        (82int, seq![0x46u8, 0x41u8, 0x54u8, 0x33u8, 0x32u8], "FAT32"@),
        (1080int, seq![0x53u8, 0xefu8], "ext2/3/4"@),
        (0int, seq![0x4cu8, 0x41u8, 0x42u8, 0x45u8, 0x4cu8, 0x4fu8, 0x4eu8, 0x45u8], "LVM2 physical volume"@),
        (512int, seq![0x4cu8, 0x41u8, 0x42u8, 0x45u8, 0x4cu8, 0x4fu8, 0x4eu8, 0x45u8], "LVM2 physical volume"@),
        (1024int, seq![0x4cu8, 0x41u8, 0x42u8, 0x45u8, 0x4cu8, 0x4fu8, 0x4eu8, 0x45u8], "LVM2 physical volume"@),
        (1536int, seq![0x4cu8, 0x41u8, 0x42u8, 0x45u8, 0x4cu8, 0x4fu8, 0x4eu8, 0x45u8], "LVM2 physical volume"@),
        (0int, seq![0xfcu8, 0x4eu8, 0x2bu8, 0xa9u8], "Linux md RAID member"@),
        (4096int, seq![0xfcu8, 0x4eu8, 0x2bu8, 0xa9u8], "Linux md RAID member"@),
        (131072int, seq![0x0cu8, 0xb1u8, 0xbau8, 0x00u8], "ZFS vdev"@),
        (510int, seq![0x55u8, 0xaau8], "MBR partition table"@),
    ]
}

proof fn lemma_stands(b: Seq<u8>, off: int, m: Seq<u8>)
    requires
        0 <= off,
    ensures
        stands_at(b, off, m) == bytes_at(b, off, m),
{
    if stands_at(b, off, m) {
        assert forall|k: int| 0 <= k < m.len() implies b[off + k] == #[trigger] m[k] by {
            assert(b.subrange(off, off + m.len())[k] == b[off + k]);
        }
    }
    if bytes_at(b, off, m) {
        assert(b.subrange(off, off + m.len()) == m);
    }
}

proof fn lemma_marks()
    ensures
        marks().len() == everything_known().len(),
        forall|i: int|
            0 <= i < marks().len() ==> {
                &&& (#[trigger] everything_known()[i]).off == marks()[i].0
                &&& everything_known()[i].magic == marks()[i].1
                &&& everything_known()[i].what == marks()[i].2
            },
        slab_magic() == marks()[0].1,
        gpt_magic() == marks()[1].1,
{
    reveal_strlit("STRMSLAB");
    reveal_strlit("EFI PART");
    reveal_strlit("XFSB");
    reveal_strlit("NTFS    ");
    reveal_strlit("EXFAT   ");
    reveal_strlit("_BHRfS_M");
    reveal_strlit("H+");
    reveal_strlit("NXSB");
    reveal_strlit("CD001");
    reveal_strlit("SWAPSPACE2");
    reveal_strlit("SWAP-SPACE");
    reveal_strlit("FAT1");
    reveal_strlit("FAT32");
    reveal_strlit("LABELONE");
    let m = marks();
    let all = everything_known();
    assert(all[0].magic == m[0].1);
    assert(all[1].magic == m[1].1);
    assert(all[2].magic == m[2].1);
    assert(all[3].magic == m[3].1);
    assert(all[4].magic == m[4].1);
    assert(all[5].magic == m[5].1);
    assert(all[6].magic == m[6].1);
    assert(all[7].magic == m[7].1);
    assert(all[8].magic == m[8].1);
    assert(all[9].magic == m[9].1);
    assert(all[10].magic == m[10].1);
    assert(all[11].magic == m[11].1);
    assert(all[12].magic == m[12].1);
    assert(all[13].magic == m[13].1);
    assert(all[14].magic == m[14].1);
    assert(all[15].magic == m[15].1);
    assert(all[16].magic == m[16].1);
    assert(all[17].magic == m[17].1);
    assert(all[18].magic == m[18].1);
    assert(all[19].magic == m[19].1);
    assert(all[20].magic == m[20].1);
    assert(all[21].magic == m[21].1);
    assert(all[22].magic == m[22].1);
}

proof fn lemma_first_known_is(list: Seq<KnownView>, head: Seq<u8>, i: int)
    requires
        0 <= i <= list.len(),
        forall|j: int|
            0 <= j < i ==> !stands_at(head, (#[trigger] list[j]).off as int, list[j].magic),
        i < list.len() ==> stands_at(head, list[i].off as int, list[i].magic),
    ensures
        first_known(list, head) == if i < list.len() {
            Some(list[i].what)
        } else {
            None
        },
    decreases list.len(),
{
    if i > 0 {
        let rest = list.drop_first();
        assert(list[0] == list.first());
        assert forall|j: int| 0 <= j < i - 1 implies !stands_at(
            head,
            (#[trigger] rest[j]).off as int,
            rest[j].magic,
        ) by {
            assert(rest[j] == list[j + 1]);
        }
        if i < list.len() {
            assert(rest[i - 1] == list[i]);
        }
        lemma_first_known_is(rest, head, i - 1);
    }
}

/// A drive is named by the first of the known marks that stands in its place,
/// and not at all when none does.
pub proof fn law_a_drive_is_named_by_its_mark(s: SniffView, i: int)
    requires
        0 <= i <= marks().len(),
        forall|j: int|
            0 <= j < i ==> !bytes_at(s.head, (#[trigger] marks()[j]).0, marks()[j].1),
        i < marks().len() ==> bytes_at(s.head, marks()[i].0, marks()[i].1),
    ensures
        front_name(s) == if i < marks().len() {
            Some(marks()[i].2)
        } else {
            None
        },
{
    lemma_marks();
    let all = everything_known();
    assert forall|j: int| 0 <= j < i implies !stands_at(
        s.head,
        (#[trigger] all[j]).off as int,
        all[j].magic,
    ) by {
        lemma_stands(s.head, all[j].off as int, all[j].magic);
        assert(!bytes_at(s.head, marks()[j].0, marks()[j].1));
    }
    if i < all.len() {
        lemma_stands(s.head, all[i].off as int, all[i].magic);
    }
    lemma_first_known_is(all, s.head, i);
}

/// A slab is told by its first eight bytes, and is named as one whatever else
/// stands on the drive.
pub proof fn law_a_slab_is_told_by_its_first_bytes(s: SniffView)
    ensures
        s.is_slab() <==> bytes_at(
            s.head,
            0,
            seq![0x53u8, 0x54u8, 0x52u8, 0x4du8, 0x53u8, 0x4cu8, 0x41u8, 0x42u8],
        ),
        s.is_slab() ==> front_name(s) == Some("stormblock slab"@),
{
    lemma_marks();
    lemma_stands(s.head, 0, slab_magic());
    if s.is_slab() {
        law_a_drive_is_named_by_its_mark(s, 0);
    }
}

/// A protective MBR is reported as the GPT it protects: with the mark of a GPT
/// in its place a drive is never called an MBR.
pub proof fn law_a_gpt_is_not_taken_for_the_mbr_that_protects_it(s: SniffView)
    requires
        bytes_at(
            s.head,
            512,
            seq![0x45u8, 0x46u8, 0x49u8, 0x20u8, 0x50u8, 0x41u8, 0x52u8, 0x54u8],
        ),
    ensures
        !s.is_slab() ==> front_name(s) == Some("GPT"@),
{
    lemma_marks();
    law_a_slab_is_told_by_its_first_bytes(s);
    assert(marks()[1].0 == 512);
    if !s.is_slab() {
        assert(!bytes_at(s.head, marks()[0].0, marks()[0].1));
        law_a_drive_is_named_by_its_mark(s, 1);
    }
}

/// What the end of a drive is named by: the header of a GPT in its last sector,
/// or an mdraid superblock on a boundary of 4 KiB.
pub proof fn law_the_end_of_a_drive_is_named_by_its_mark(s: SniffView)
    ensures
        ({
            let n = s.tail.len() as int;
            let gpt = n >= 512 && bytes_at(
                s.tail,
                n - 512,
                seq![0x45u8, 0x46u8, 0x49u8, 0x20u8, 0x50u8, 0x41u8, 0x52u8, 0x54u8],
            );
            let md = exists|k: int|
                0 <= k && #[trigger] (k * 4096) + 4096 <= n && bytes_at(
                    s.tail,
                    k * 4096,
                    seq![0xfcu8, 0x4eu8, 0x2bu8, 0xa9u8],
                );
            &&& gpt ==> end_name(s) == Some("GPT (backup header only)"@)
            &&& !gpt && md ==> end_name(s) == Some(
                "Linux md RAID member (superblock at the end)"@,
            )
            &&& !gpt && !md ==> end_name(s) is None
        }),
{
    lemma_marks();
    let n = s.tail.len() as int;
    let mark = seq![0xfcu8, 0x4eu8, 0x2bu8, 0xa9u8];
    if n >= 512 {
        lemma_stands(s.tail, n - 512, gpt_magic());
        assert(n - 512 + 8 == n - 504);
    }
    assert forall|k: int| 0 <= k && #[trigger] (k * 4096) + 4096 <= n implies bytes_at(
        s.tail,
        k * 4096,
        mark,
    ) == (s.tail.subrange(k * 4096, k * 4096 + 4) == md_magic()) by {
        lemma_stands(s.tail, k * 4096, md_magic());
    }
}

/// The head of a drive is its first megabyte and the tail its last; a drive of no
/// more than two has no tail of its own, and one without bytes was not read.
pub proof fn law_the_ends_of_a_drive(drive: Seq<u8>)
    ensures
        drive.len() == 0 ==> ends_of(drive) == Err::<SniffView, Seq<char>>(
            "read returned no bytes"@,
        ),
        drive.len() > 0 ==> {
            &&& ends_of(drive) matches Ok(s)
            &&& drive.len() <= 1048576 ==> s.head == drive
            &&& drive.len() > 1048576 ==> s.head == drive.take(1048576)
            &&& drive.len() <= 2097152 ==> s.tail.len() == 0
            &&& drive.len() > 2097152 ==> s.tail == drive.skip(drive.len() - 1048576)
        },
{
    if drive.len() <= 1048576 {
        assert(drive.take(drive.len() as int) == drive);
    }
}

} // verus!
