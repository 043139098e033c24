//! Whole machines, made up of bytes in memory and looked at from end to end.

use zeroboot::esp;
use zeroboot::judge::{judge, Step};
use zeroboot::probe::{
    case_of, identify_slab, is_not_a_drive, look_at, machine_identity, partitions, read_u64,
    remote_transport, stormblock_candidates, Attributes, Child, Machine,
};
use zeroboot::scan::{first_nonzero, Next, CHUNK, DEEP, SAMPLE, STRIDE};
use zeroboot::sniff::{head_len, signature, sniffed, tail_start, Sniff, TAIL};
use zeroboot::survey::{Drive, Intent, Survey, Verdict};

const SLAB_MAGIC: &[u8] = b"STRMSLAB";

/// A device: zero but for a few patches.
struct Device {
    path: String,
    len: u64,
    patches: Vec<(u64, Vec<u8>)>,
}

impl Device {
    fn region(&self, at: u64, len: u64) -> Vec<u8> {
        let end = (at + len).min(self.len);
        let mut b = vec![0u8; end.saturating_sub(at) as usize];
        for (off, bytes) in &self.patches {
            for (i, byte) in bytes.iter().enumerate() {
                let pos = off + i as u64;
                if at <= pos && pos < end {
                    b[(pos - at) as usize] = *byte;
                }
            }
        }
        b
    }

    fn ends(&self) -> Result<Sniff, String> {
        let head = self.region(0, head_len(self.len));
        let tail = match tail_start(self.len) {
            Some(at) => self.region(at, TAIL),
            None => Vec::new(),
        };
        sniffed(head, tail)
    }

    fn scan(&self) -> Option<u64> {
        let mut next = first_nonzero(self.len);
        loop {
            match next {
                Next::Read { scan, at, len } => next = scan.read(&self.region(at, len)),
                Next::Done { first } => return first,
            }
        }
    }
}

struct FakeDrive {
    name: String,
    attrs: Attributes,
    parts: Vec<String>,
    found: Option<esp::Esp>,
}

struct FakeMachine {
    drives: Vec<FakeDrive>,
    devices: Vec<Device>,
    /// What the machine's stormblock answers, when there is one.
    answer: Option<String>,
}

fn attributes(size: u64, rotational: bool) -> Attributes {
    Attributes {
        size: Some(format!("{}\n", size / 512)),
        rotational: Some(if rotational { "1\n".into() } else { "0\n".into() }),
        removable: Some("0\n".into()),
        model: None,
        wwid: None,
        serial: None,
        transport: None,
        link: None,
    }
}

impl FakeMachine {
    fn new() -> Self {
        FakeMachine { drives: Vec::new(), devices: Vec::new(), answer: None }
    }

    fn drive(&mut self, name: &str, size: u64, rotational: bool, content: &[u8]) -> &mut FakeDrive {
        self.devices.push(Device {
            path: format!("/dev/{name}"),
            len: size,
            patches: vec![(0, content.to_vec())],
        });
        self.drives.push(FakeDrive {
            name: name.into(),
            attrs: attributes(size, rotational),
            parts: Vec::new(),
            found: None,
        });
        self.drives.last_mut().unwrap()
    }

    fn partition(&mut self, disk: &str, part: &str, content: &[u8]) {
        self.devices.push(Device {
            path: format!("/dev/{part}"),
            len: 1 << 20,
            patches: vec![(0, content.to_vec())],
        });
        self.drives.iter_mut().find(|d| d.name == disk).unwrap().parts.push(part.into());
    }

    fn dirty_at(&mut self, name: &str, at: u64, bytes: &[u8]) {
        let path = format!("/dev/{name}");
        let d = self.devices.iter_mut().find(|d| d.path == path).unwrap();
        d.patches.push((at, bytes.to_vec()));
    }

    fn device(&self, path: &str) -> Result<&Device, String> {
        self.devices.iter().find(|d| d.path == path).ok_or_else(|| format!("no {path}"))
    }

    fn machine(&self) -> Machine {
        Machine::here(self.answer.as_ref().map(|_| "/usr/sbin/stormblock".to_string()))
    }

    fn verdict(&self, m: &Machine, me: &Option<String>, d: &FakeDrive) -> Verdict {
        let children: Vec<Child> = d
            .parts
            .iter()
            .rev()
            .map(|p| Child { name: p.clone(), is_partition: true })
            .chain([Child { name: "queue".into(), is_partition: false }])
            .collect();
        let parts = partitions(&children, &d.name);
        let mut step = judge(case_of(m, me, &d.name, &d.attrs, parts, &d.found));
        loop {
            step = match step {
                Step::Sniff(s) => {
                    let seen = self.device(&s.device()).and_then(|d| d.ends());
                    s.sniffed(seen)
                }
                Step::Identify(s) => {
                    let said = format!("{}\n", self.answer.as_deref().unwrap_or(""));
                    s.identified(identify_slab(said.as_bytes()))
                }
                Step::Name(s) => {
                    let seen = self.device(&s.device()).and_then(|d| d.ends());
                    s.named(seen)
                }
                Step::Scan(s) => {
                    let found = self.device(&s.device()).map(|d| d.scan());
                    s.scanned(found)
                }
                Step::Settled(v) => return v,
            };
        }
    }

    fn survey(&self, m: &Machine) -> Survey {
        let me = m.who(&None);
        let listing: Vec<String> = self.drives.iter().map(|d| d.name.clone()).collect();
        let drives: Vec<Drive> = m
            .drive_names(&listing)
            .iter()
            .map(|name| {
                let d = self.drives.iter().find(|d| d.name == *name).unwrap();
                look_at(m, name, &d.attrs, None, d.found.clone(), self.verdict(m, &me, d))
            })
            .collect();
        Survey { drives }
    }
}

fn gpt_header() -> Vec<u8> {
    let mut v = vec![0u8; 1024];
    v[510] = 0x55;
    v[511] = 0xaa;
    v[512..520].copy_from_slice(b"EFI PART");
    v
}

const NAMED: &str =
    "slab 7661cf8b-1c4f-4a2e-9f11-7d3b5a2c8e60 (role=data, tier=hot, 4096 slots, 3900 free)";

/// One usable 2 TB disk carrying four partitions from a previous life, and an
/// iDRAC virtual floppy with no medium in it. Neither is available, and the
/// report says why for both.
#[test]
fn the_r230_as_it_actually_is() {
    let mut fake = FakeMachine::new();
    fake.drive("sda", 4 << 20, true, &gpt_header()).attrs.model = Some("WDC WD20EFAX-68F\n".into());
    for (i, p) in ["sda1", "sda2", "sda3", "sda4"].iter().enumerate() {
        fake.partition("sda", p, &[i as u8 + 1]);
    }
    // The virtual floppy: present, zero sectors, removable.
    let floppy = fake.drive("sdb", 0, true, &[]);
    floppy.attrs.removable = Some("1\n".into());
    floppy.attrs.model = Some("Virtual Floppy\n".into());

    let s = fake.survey(&fake.machine());
    assert_eq!(s.drives.len(), 2, "{:#?}", s.drives);

    let sda = &s.drives[0];
    assert_eq!(sda.path, "/dev/sda");
    assert_eq!(sda.model.as_deref(), Some("WDC WD20EFAX-68F"));
    assert_eq!(
        sda.verdict,
        Verdict::Foreign { what: "GPT, 4 partitions".into() },
        "four partitions from a previous life are not free space"
    );
    assert!(
        matches!(&s.drives[1].verdict, Verdict::Unreadable { why } if why.contains("no medium")),
        "{:?}",
        s.drives[1].verdict
    );
    assert!(s.available().is_empty(), "nothing on this machine may be taken");
    assert!(matches!(s.intent(), Intent::NothingToTake { .. }));
}

/// A drive is blank when it is zero, and one stray byte is enough to say it is
/// not.
#[test]
fn a_zeroed_drive_is_blank_and_a_dirtied_one_is_not() {
    let size = 3 << 30;
    let mut fake = FakeMachine::new();
    fake.drive("sda", size, false, &[]);
    let dirty = [
        // Inside the 64 MiB that is read whole, and not on a round boundary.
        ("sdb", (4 << 20) + 12345),
        ("sdc", DEEP - 1),
        // On the grain that covers the rest, which is anchored where the whole
        // read stops.
        ("sdd", DEEP + STRIDE),
        // And the last megabyte, which is read whole as well.
        ("sde", size - 4096),
    ];
    for (name, at) in dirty {
        fake.drive(name, size, false, &[]);
        fake.dirty_at(name, at, &[0x42]);
    }

    let s = fake.survey(&fake.machine());
    assert_eq!(s.drives[0].verdict, Verdict::Blank, "a zeroed drive is blank");
    for (drive, (_, at)) in s.drives[1..].iter().zip(dirty.iter()) {
        assert_eq!(
            drive.verdict,
            Verdict::Foreign { what: format!("unrecognised data at offset {at}") },
            "{} has a byte at {at} and is not blank",
            drive.path
        );
    }
    assert_eq!(s.available().len(), 1, "only the zeroed drive may be taken");
}

/// Past the first 64 MiB the drive is sampled, and a single byte that falls
/// between two samples is not seen.
#[test]
fn a_single_byte_between_two_samples_is_not_seen() {
    let mut fake = FakeMachine::new();
    fake.drive("sda", 3 << 30, false, &[]);
    fake.dirty_at("sda", DEEP + STRIDE / 2, &[0x42]);

    let s = fake.survey(&fake.machine());
    assert_eq!(s.drives[0].verdict, Verdict::Blank, "a sample is not a proof");
}

/// A disk pulled out of a Linux array keeps its superblock at the end and
/// nothing at the front.
#[test]
fn a_raid_member_that_is_blank_from_the_front_is_still_a_raid_member() {
    let size = 3 << 30;
    let mut fake = FakeMachine::new();
    fake.drive("sda", size, true, &[]);
    fake.dirty_at("sda", size - 8192, &[0xfc, 0x4e, 0x2b, 0xa9]);

    let s = fake.survey(&fake.machine());
    assert!(
        matches!(&s.drives[0].verdict, Verdict::Foreign { what } if what.contains("md RAID")),
        "{:?}",
        s.drives[0].verdict
    );
}

/// A node booting off the disk it assimilated onto: the slab is in a partition,
/// so the whole device looks like a GPT.
#[test]
fn a_slab_in_a_partition_on_a_local_disk_is_mine() {
    let mut fake = FakeMachine::new();
    fake.drive("sda", 8 << 20, true, &gpt_header());
    fake.partition("sda", "sda1", b"fake esp");
    fake.partition("sda", "sda2", SLAB_MAGIC);
    fake.answer = Some(format!("sda2: {NAMED}"));

    let s = fake.survey(&fake.machine());
    let slab = "/dev/sda2".to_string();
    assert_eq!(
        s.drives[0].verdict,
        Verdict::Mine {
            slab_id: "7661cf8b-1c4f-4a2e-9f11-7d3b5a2c8e60".into(),
            role: "data".into(),
            slab: slab.clone(),
        }
    );
    // A data slab boots on the word of an ESP. The drive is /dev/sda and the
    // thing that boots is /dev/sda2.
    fake.drives[0].found = Some(esp::Esp {
        boot: Some(esp::Boot { cmdline: String::new(), slab_device: None, boot_volume: None }),
        claim: None,
        missing: vec![],
    });
    let s = fake.survey(&fake.machine());
    match s.intent() {
        Intent::AlreadyMine { drive, slab: s2, .. } => {
            assert!(drive.ends_with("sda"), "{drive}");
            assert_eq!(s2, slab);
        }
        other => panic!("expected AlreadyMine, got {other:?}"),
    }
}

/// The same slab, arriving over nvme-tcp.
#[test]
fn the_same_slab_over_the_network_belongs_to_someone_else() {
    let mut fake = FakeMachine::new();
    fake.drive("nvme0n1", 8 << 20, false, SLAB_MAGIC).attrs.transport = Some("tcp\n".into());
    fake.answer = Some(format!("nvme0n1: {NAMED}"));

    let s = fake.survey(&fake.machine());
    assert!(
        matches!(&s.drives[0].verdict, Verdict::AnotherNode { owner, .. } if owner.contains("tcp")),
        "{:?}",
        s.drives[0].verdict
    );
    assert!(s.available().is_empty());
}

/// A blank drive that arrived over the network is still not ours.
#[test]
fn a_blank_network_drive_is_never_taken() {
    let mut fake = FakeMachine::new();
    fake.drive("nvme0n1", 8 << 20, false, &[]).attrs.transport = Some("tcp\n".into());

    let s = fake.survey(&fake.machine());
    assert!(
        matches!(&s.drives[0].verdict, Verdict::Foreign { what } if what.contains("nvme-tcp")),
        "{:?}",
        s.drives[0].verdict
    );
}

/// A local PCIe NVMe is not "attached over" anything.
#[test]
fn a_local_nvme_is_local() {
    let mut fake = FakeMachine::new();
    fake.drive("nvme0n1", 8 << 20, false, &[]).attrs.transport = Some("pcie\n".into());

    let s = fake.survey(&fake.machine());
    assert_eq!(s.drives[0].verdict, Verdict::Blank);
    assert!(!s.drives[0].rotational);
}

/// Without stormblock the magic still says "a slab", and a slab that cannot be
/// named is not one to format.
#[test]
fn a_slab_that_cannot_be_identified_is_left_alone() {
    let mut fake = FakeMachine::new();
    fake.drive("sda", 8 << 20, true, SLAB_MAGIC);

    let s = fake.survey(&fake.machine());
    assert!(
        matches!(&s.drives[0].verdict, Verdict::Foreign { what } if what.contains("no stormblock")),
        "{:?}",
        s.drives[0].verdict
    );
}

/// stormblock saying "not a slab" about a device carrying the magic means
/// something is wrong, not that the drive is free.
#[test]
fn stormblock_refusing_a_slab_is_not_permission() {
    let mut fake = FakeMachine::new();
    fake.drive("sda", 8 << 20, true, SLAB_MAGIC);
    fake.answer = Some("sda: not a slab (bad slab magic)".into());

    let s = fake.survey(&fake.machine());
    assert!(!s.drives[0].verdict.is_available(), "{:?}", s.drives[0].verdict);
    assert_eq!(
        s.drives[0].verdict,
        Verdict::Foreign {
            what: "stormblock slab magic on /dev/sda that stormblock would not identify".into()
        }
    );
}

#[test]
fn known_things_on_a_drive_are_named() {
    let cases: [(&str, Vec<u8>, &str); 4] = [
        ("sda", b"XFSB".to_vec(), "XFS"),
        ("sdb", {
            let mut v = vec![0u8; 2048];
            v[0x438] = 0x53;
            v[0x439] = 0xef;
            v
        }, "ext2/3/4"),
        ("sdc", b"LUKS\xba\xbe".to_vec(), "LUKS"),
        ("sdd", {
            let mut v = vec![0u8; 1024];
            v[512..520].copy_from_slice(b"LABELONE");
            v
        }, "LVM2 physical volume"),
    ];
    let mut fake = FakeMachine::new();
    for (name, content, _) in &cases {
        fake.drive(name, 8 << 20, true, content);
    }
    let s = fake.survey(&fake.machine());
    for (drive, (_, _, expect)) in s.drives.iter().zip(cases.iter()) {
        assert_eq!(
            drive.verdict,
            Verdict::Foreign { what: (*expect).to_string() },
            "{}",
            drive.path
        );
    }
}

#[test]
fn things_that_are_not_drives_are_not_surveyed() {
    let mut fake = FakeMachine::new();
    for name in ["loop0", "ram0", "dm-0", "sr0", "md0", "zram0"] {
        fake.drive(name, 8 << 20, false, &[]);
    }
    fake.drive("sda", 8 << 20, false, &[]);

    let s = fake.survey(&fake.machine());
    assert_eq!(s.drives.len(), 1);
    assert!(s.drives[0].path.ends_with("sda"));
}

#[test]
fn only_looks_at_the_drives_it_was_asked_about() {
    let mut fake = FakeMachine::new();
    fake.drive("sda", 8 << 20, true, &[]);
    fake.drive("sdb", 8 << 20, true, &[]);
    let mut m = fake.machine();
    m.only = vec!["/dev/sdb".into()];

    let s = fake.survey(&m);
    assert_eq!(s.drives.len(), 1);
    assert!(s.drives[0].path.ends_with("sdb"));
}

// ------------------------------------------------------------- more verdicts
#[test]
fn removable_media_is_left_alone_without_being_read() {
    let mut fake = FakeMachine::new();
    fake.drive("sda", 8 << 20, false, &[]).attrs.removable = Some("1".into());
    let stick = fake.drive("sdb", 8 << 20, false, SLAB_MAGIC);
    stick.attrs.removable = Some("1".into());
    stick.attrs.model = Some("  Cruzer  \n".into());
    fake.devices.clear();

    let s = fake.survey(&fake.machine());
    assert_eq!(s.drives[0].verdict, Verdict::Foreign { what: "removable media".into() });
    assert_eq!(s.drives[1].verdict, Verdict::Foreign { what: "removable media (Cruzer)".into() });
}

#[test]
fn a_drive_that_will_not_open_is_unreadable_and_a_partition_is_passed_over() {
    let mut fake = FakeMachine::new();
    fake.drive("sda", 8 << 20, true, &[]);
    fake.devices.clear();
    let s = fake.survey(&fake.machine());
    assert_eq!(s.drives[0].verdict, Verdict::Unreadable { why: "no /dev/sda".into() });

    let mut fake = FakeMachine::new();
    fake.drive("sda", 8 << 20, true, &[]);
    fake.partition("sda", "sda1", &[]);
    fake.partition("sda", "sda2", SLAB_MAGIC);
    fake.devices.retain(|d| d.path != "/dev/sda1");
    fake.answer = Some(format!("x: {NAMED}"));
    let s = fake.survey(&fake.machine());
    assert!(matches!(&s.drives[0].verdict, Verdict::Mine { slab, .. } if slab == "/dev/sda2"));
}

#[test]
fn a_drive_that_reads_nothing_is_unreadable() {
    let mut fake = FakeMachine::new();
    fake.drive("sda", 8 << 20, true, &[]);
    fake.devices[0].len = 0;
    let s = fake.survey(&fake.machine());
    assert_eq!(s.drives[0].verdict, Verdict::Unreadable { why: "read returned no bytes".into() });
}

#[test]
fn a_claim_decides_whose_a_local_slab_is() {
    let mut fake = FakeMachine::new();
    fake.drive("sda", 8 << 20, true, SLAB_MAGIC).found = Some(esp::Esp {
        boot: None,
        claim: Some(esp::Claim { node: "9ABCDE2".into(), claimed: "T".into() }),
        missing: vec![],
    });
    fake.answer = Some(format!("sda: {NAMED}"));

    let mut m = fake.machine();
    m.identity = Some("4F2XYZ1".into());
    assert_eq!(
        fake.survey(&m).drives[0].verdict,
        Verdict::AnotherNode {
            slab_id: "7661cf8b-1c4f-4a2e-9f11-7d3b5a2c8e60".into(),
            owner: "node 9ABCDE2 (claimed on its ESP)".into(),
        }
    );
    // The claim is this node's, or cannot be checked.
    m.identity = Some("9ABCDE2".into());
    assert!(fake.survey(&m).drives[0].verdict.is_mine());
    m.identity = None;
    assert!(fake.survey(&m).drives[0].verdict.is_mine());
}

#[test]
fn a_table_that_cannot_be_named_is_still_a_table() {
    let mut fake = FakeMachine::new();
    fake.drive("sda", 8 << 20, true, &[]);
    fake.partition("sda", "sda1", &[]);
    let s = fake.survey(&fake.machine());
    assert_eq!(
        s.drives[0].verdict,
        Verdict::Foreign { what: "partition table, 1 partition".into() }
    );
}

#[test]
fn a_backup_header_at_the_end_is_named() {
    let size = 8 << 20;
    let mut fake = FakeMachine::new();
    fake.drive("sda", size, true, &[]);
    fake.dirty_at("sda", size - 512, b"EFI PART");
    let s = fake.survey(&fake.machine());
    assert_eq!(
        s.drives[0].verdict,
        Verdict::Foreign { what: "GPT (backup header only)".into() }
    );
}

#[test]
fn every_mark_is_known_in_its_place() {
    let marks: [(usize, &[u8], &str); 20] = [
        (0, b"STRMSLAB", "stormblock slab"),
        (512, b"EFI PART", "GPT"),
        (3, b"NTFS    ", "NTFS"),
        (3, b"EXFAT   ", "exFAT"),
        (0x10040, b"_BHRfS_M", "btrfs"),
        (1024, b"H+", "HFS+"),
        (32, b"NXSB", "APFS"),
        (0x8001, b"CD001", "ISO 9660"),
        (4086, b"SWAPSPACE2", "swap"),
        (4086, b"SWAP-SPACE", "swap"),
        (0x36, b"FAT16", "FAT"),
        (0x52, b"FAT32", "FAT32"),
        (0, b"LABELONE", "LVM2 physical volume"),
        (1024, b"LABELONE", "LVM2 physical volume"),
        (1536, b"LABELONE", "LVM2 physical volume"),
        (0, &[0xfc, 0x4e, 0x2b, 0xa9], "Linux md RAID member"),
        (4096, &[0xfc, 0x4e, 0x2b, 0xa9], "Linux md RAID member"),
        (0x20000, &[0x0c, 0xb1, 0xba, 0x00], "ZFS vdev"),
        (510, &[0x55, 0xaa], "MBR partition table"),
        (0, b"XFSB", "XFS"),
    ];
    for (off, magic, what) in marks {
        let mut head = vec![0u8; 0x30000];
        head[off..off + magic.len()].copy_from_slice(magic);
        let s = Sniff { head, tail: vec![] };
        assert_eq!(signature(&s).as_deref(), Some(what));
    }
    assert_eq!(signature(&Sniff { head: vec![0u8; 0x30000], tail: vec![] }), None);
    // A head that ends inside a mark does not hold it.
    assert_eq!(signature(&Sniff { head: b"XFS".to_vec(), tail: vec![] }), None);
}

// ---------------------------------------------------------------- the looking
#[test]
fn a_look_reads_what_it_says_and_in_order() {
    // A drive smaller than the distance between samples is read whole.
    let mut next = first_nonzero(CHUNK + 5);
    let mut asked = Vec::new();
    while let Next::Read { scan, at, len } = next {
        asked.push((at, len));
        next = scan.read(&vec![0u8; len as usize]);
    }
    assert_eq!(next, Next::Done { first: None });
    assert_eq!(asked, vec![(0, CHUNK), (CHUNK, 5)]);

    // A larger one is sampled after 64 MiB, and its tail is read.
    let len = DEEP + 2 * STRIDE;
    let mut next = first_nonzero(len);
    let mut asked = Vec::new();
    while let Next::Read { scan, at, len } = next {
        asked.push((at, len));
        next = scan.read(&vec![0u8; len as usize]);
    }
    assert_eq!(asked.len(), 64 + 2 + 1);
    assert_eq!(asked[63], (63 * CHUNK, CHUNK));
    assert_eq!(asked[64], (DEEP, SAMPLE));
    assert_eq!(asked[65], (DEEP + STRIDE, SAMPLE));
    assert_eq!(asked[66], (len - TAIL, TAIL));
    assert_eq!(first_nonzero(0), Next::Done { first: None });
}

#[test]
fn a_drive_that_ends_early_is_looked_at_from_its_samples_on() {
    let Next::Read { scan, .. } = first_nonzero(2 * STRIDE) else { panic!("nothing to read") };
    assert_eq!(
        match scan.read(&[]) {
            Next::Read { at, len, .. } => (at, len),
            Next::Done { .. } => (0, 0),
        },
        (DEEP, SAMPLE)
    );
    // Fewer bytes than were asked for: the look goes on after them.
    assert!(matches!(scan.read(&[0, 0, 0]), Next::Read { at: 3, .. }));
    assert_eq!(scan.read(&[0, 0, 7, 0]), Next::Done { first: Some(2) });
}

#[test]
fn the_largest_drive_there_can_be_is_looked_through_without_overflow() {
    let mut next = first_nonzero(u64::MAX);
    let mut reads = 0;
    while let Next::Read { scan, at, len } = next {
        reads += 1;
        if reads > 70 {
            break;
        }
        assert!(at <= u64::MAX - len);
        next = scan.read(&vec![0u8; len as usize]);
    }
    assert_eq!(reads, 71);
}

#[test]
fn a_small_drive_is_read_to_its_last_byte() {
    let size = (9 << 20) + 77;
    for at in [0, 1 << 20, (5 << 20) + 1, size - 1] {
        let d = Device { path: String::new(), len: size, patches: vec![(at, vec![1])] };
        assert_eq!(d.scan(), Some(at));
    }
    assert_eq!(Device { path: String::new(), len: size, patches: vec![] }.scan(), None);
}

/// A sample can begin inside the last megabyte. The first byte that is not zero
/// is still the one that is told.
#[test]
fn a_sample_inside_the_tail_does_not_hide_an_earlier_byte() {
    let size = DEEP + STRIDE + (512 << 10);
    assert_eq!(size, 1_141_374_976);
    let first = 1_140_850_687;
    let patches = vec![(first, vec![0x42, 0x42])];
    let d = Device { path: String::new(), len: size, patches };
    assert_eq!(d.scan(), Some(first));

    let mut next = first_nonzero(size);
    let mut asked = Vec::new();
    while let Next::Read { scan, at, len } = next {
        asked.push((at, len));
        next = scan.read(&vec![0u8; len as usize]);
    }
    assert_eq!(asked[64..], [(DEEP, SAMPLE), (size - TAIL, TAIL)]);

    // One that begins before the tail and reaches into it is read.
    let size = DEEP + STRIDE + TAIL + 1;
    let patches = vec![(DEEP + STRIDE, vec![0x42, 0x42])];
    let d = Device { path: String::new(), len: size, patches };
    assert_eq!(d.scan(), Some(DEEP + STRIDE));
}

// ------------------------------------------------------------------ identities
fn serial(s: &str) -> Option<String> {
    machine_identity(&Some(s.to_string()))
}

#[test]
fn placeholders_are_not_identities() {
    for s in [
        "Not Specified",
        "To Be Filled By O.E.M.",
        "System Serial Number",
        "Default string",
        "none",
        "0",
        "Unknown",
        "",
        "  \n",
    ] {
        assert_eq!(serial(s), None, "{s:?}");
    }
    assert_eq!(machine_identity(&None), None);
    assert_eq!(serial("R230-SVCTAG\n"), Some("R230-SVCTAG".into()));
    assert_eq!(serial("00"), Some("00".into()));
}

#[test]
fn a_machine_that_was_told_who_it_is_believes_it() {
    let mut m = Machine::here(None);
    assert_eq!(m.sysfs, "/sys");
    assert_eq!(m.dev, "/dev");
    assert_eq!(m.who(&Some("TAG\n".into())), Some("TAG".into()));
    m.identity = Some("named".into());
    assert_eq!(m.who(&Some("TAG\n".into())), Some("named".into()));
    assert_eq!(m.clone(), m);
}

#[test]
fn stormblock_is_looked_for_in_the_initramfs_first() {
    let fixed = vec!["/usr/sbin/stormblock", "/sbin/stormblock", "/usr/bin/stormblock"];
    assert_eq!(stormblock_candidates(&None), fixed);
    assert_eq!(
        stormblock_candidates(&Some("/opt/bin:::/x/:rel".into())),
        [fixed, vec!["/opt/bin/stormblock", "/x/stormblock", "rel/stormblock"]].concat()
    );
}

#[test]
fn drives_are_wanted_by_name_or_by_path() {
    let mut m = Machine::here(None);
    assert!(m.wants("sda"));
    m.only = vec!["sda".into(), "/dev/sdb/".into(), "/dev/..".into()];
    assert!(m.wants("sda"));
    assert!(m.wants("sdb"));
    assert!(!m.wants("sdc"));
    assert!(!m.wants(".."));
    for n in ["loop7", "ram1", "zram0", "dm-3", "md127", "sr0", "fd0", "nbd4", "zd16"] {
        assert!(is_not_a_drive(n), "{n}");
    }
    for n in ["sda", "nvme0n1", "vda", "mmcblk0"] {
        assert!(!is_not_a_drive(n), "{n}");
    }
    m.only = vec![];
    let listing: Vec<String> =
        ["sdb", "sda", "loop0", "nvme1n1", "nvme0n1"].iter().map(|s| s.to_string()).collect();
    assert_eq!(m.drive_names(&listing), vec!["nvme0n1", "nvme1n1", "sda", "sdb"]);
}

#[test]
fn numbers_in_attributes_are_read_whole_or_not_at_all() {
    let n = |s: &str| read_u64(&Some(s.to_string()));
    assert_eq!(n("42\n"), Some(42));
    assert_eq!(n(" +7 "), Some(7));
    assert_eq!(n("18446744073709551615"), Some(u64::MAX));
    assert_eq!(n("18446744073709551616"), None);
    assert_eq!(n("-1"), None);
    assert_eq!(n("+"), None);
    assert_eq!(n("12 3"), None);
    assert_eq!(n(""), None);
    assert_eq!(read_u64(&None), None);
}

#[test]
fn where_a_drive_hangs_says_how_it_is_attached() {
    let by = |link: &str| remote_transport(&None, &Some(link.to_string()));
    assert_eq!(by("../devices/platform/host3/session1/target3:0:0"), Some("iSCSI".into()));
    assert_eq!(by("../devices/iscsi/x"), Some("iSCSI".into()));
    assert_eq!(by("../devices/pci/host1/rport-1:0-2/target"), Some("Fibre Channel".into()));
    assert_eq!(by("../class/fc_host/host1"), Some("Fibre Channel".into()));
    assert_eq!(by("../devices/virtual/nvme-fabrics/ctl/nvme0"), Some("NVMe-oF".into()));
    assert_eq!(by("../devices/pci0000:00/ata1/host0"), None);
    assert_eq!(remote_transport(&None, &None), None);
    assert_eq!(remote_transport(&Some("rdma\n".into()), &None), Some("nvme-rdma".into()));
    assert_eq!(remote_transport(&Some(" \n".into()), &None), None);
    assert_eq!(
        remote_transport(&Some("pcie".into()), &Some("x/nvme-fabrics/y".into())),
        Some("NVMe-oF".into())
    );
}

#[test]
fn only_partitions_named_after_the_drive_are_its_own() {
    let child = |name: &str, is_partition: bool| Child { name: name.into(), is_partition };
    let listing = vec![
        child("sda2", true),
        child("sda10", true),
        child("sda1", true),
        child("sda", true),
        child("sdb1", true),
        child("sda3", false),
        child("queue", false),
    ];
    assert_eq!(partitions(&listing, "sda"), vec!["sda1", "sda10", "sda2"]);
    assert!(partitions(&vec![], "sda").is_empty());
}

#[test]
fn a_drive_that_says_nothing_spins_stays_in_and_has_no_medium() {
    let m = Machine::here(None);
    let silent = Attributes {
        size: None,
        rotational: None,
        removable: None,
        model: Some(" \n".into()),
        wwid: Some("naa.5000c500a1b2c3d4\n".into()),
        serial: Some("WD-WCC4N1234567\n".into()),
        transport: None,
        link: None,
    };
    let d = look_at(&m, "sda", &silent, None, None, Verdict::Blank);
    assert!(d.rotational);
    assert_eq!(d.size_bytes, 0);
    assert_eq!(d.model, None);
    assert_eq!(d.wwid.as_deref(), Some("naa.5000c500a1b2c3d4"));
    assert_eq!(d.serial.as_deref(), Some("WD-WCC4N1234567"));
    let case = case_of(&m, &None, "sda", &silent, vec![], &None);
    assert!(!case.removable);
    assert!(matches!(judge(case), Step::Settled(Verdict::Unreadable { .. })));
}
