//! Bootable disk image assembly.
//!
//! A boot artifact is a GPT disk:
//!
//! ```text
//!   p1  ESP (FAT32)  systemd-boot + vmlinuz + initramfs + loader entry
//!   p2  raw          the stormblock slab (release + per-machine volumes)
//! ```
//!
//! UEFI loads systemd-boot from the ESP, which boots the kernel with an
//! initramfs carrying the stormblock client. The initramfs attaches the slab
//! partition and exports the boot volume as the root. This module decides what
//! goes into such a disk and where; it touches no file itself.

use vstd::prelude::*;

use crate::esp;
use crate::esp::LB_SIZE;
use crate::text;

verus! {

/// A mebibyte.
pub const MIB: u64 = 0x10_0000;

/// What GPT takes at either end of the disk, with its headers, and the
/// alignment every partition starts on.
pub const RESERVE: u64 = 0x10_0000;

/// The alignment of partitions, in logical blocks.
pub const ALIGN_LBA: u64 = 2048;

/// The smallest ESP that FAT32 fits in, in MiB.
pub const SMALLEST_ESP_MIB: u64 = 64;

/// The name of the first partition.
pub const ESP_NAME: &'static str = "ESP";

/// The name of the second partition.
pub const SLAB_NAME: &'static str = "stormblock";

/// The label of the FAT volume on the ESP, padded as FAT wants it.
pub const VOLUME_LABEL: &'static str = "STORMCOS   ";

// ------------------------------------------------------------ specifications
/// A writable thin volume to export and mount.
#[derive(Debug, PartialEq, Eq)]
pub struct WritableMount {
    pub volume: String,
    pub mount: String,
}

/// What a [`WritableMount`] says.
pub struct WritableMountView {
    pub volume: Seq<char>,
    pub mount: Seq<char>,
}

impl View for WritableMount {
    type V = WritableMountView;

    open spec fn view(&self) -> WritableMountView {
        WritableMountView { volume: self.volume@, mount: self.mount@ }
    }
}

/// What to build a boot disk out of.
#[derive(Debug, PartialEq, Eq)]
pub struct BootImageSpec {
    /// Kernel image for the pinned release kernel.
    pub kernel: String,
    /// Initramfs carrying the stormblock client and the boot handoff.
    pub initramfs: String,
    /// EFI bootloader binary.
    pub bootloader: String,
    /// stormblock slab holding the release volumes.
    pub slab: String,
    /// Boot volume to export as root, by name or UUID.
    pub volume: String,
    /// ESP size in MiB.
    pub esp_mib: u64,
    /// Preloaded image-store volume. The kernel command line does not carry
    /// it.
    pub image_store: Option<String>,
    /// Writable volumes. The kernel command line does not carry them.
    pub writable: Vec<WritableMount>,
    /// Guest device the disk appears as.
    pub disk_device: String,
    /// Extra kernel command line arguments.
    pub extra_cmdline: Option<String>,
    /// Where the image goes.
    pub out: String,
}

/// What was built.
#[derive(Debug, PartialEq, Eq)]
pub struct BootImageReport {
    pub image: String,
    pub image_bytes: u64,
    pub esp_bytes: u64,
    pub slab_bytes: u64,
    /// Partition the initramfs attaches as the stormblock slab.
    pub slab_partition: String,
    pub boot_volume: String,
    pub cmdline: String,
}

/// What is said of a writable volume that is not written as one.
pub open spec fn not_a_mount_text(w: Seq<char>) -> Seq<char> {
    "--writable must be volume:mount, got "@ + w
}

impl WritableMount {
    /// Reads a writable volume, written as `volume:mount`. The volume ends at
    /// the first colon.
    pub fn parse(w: &str) -> (r: Result<WritableMount, String>)
        ensures
            match r {
                Ok(m) => text::split_at_char(w@, ':') == Some((m@.volume, m@.mount)),
                Err(e) => text::split_at_char(w@, ':') is None && e@ == not_a_mount_text(w@),
            },
            match r {
                Ok(m) => w@ == m.volume@ + seq![':'] + m.mount@ && !m.volume@.contains(':'),
                Err(e) => !w@.contains(':') && e@ == "--writable must be volume:mount, got "@ + w@,
            },
    {
        proof {
            text::law_what_is_split_is_all_there(w@, ':');
        }
        let chars = text::chars_of(w);
        match text::split_once(chars.as_slice(), ':') {
            Some((volume, mount)) => Ok(
                WritableMount { volume: text::text_of(volume), mount: text::text_of(mount) },
            ),
            None => {
                let mut e = text::owned("--writable must be volume:mount, got ");
                e.append(w);
                Err(e)
            },
        }
    }

    /// Reads every writable volume of a list. The first that is not one is what
    /// the list is refused for.
    pub fn parse_all(list: &Vec<String>) -> (r: Result<Vec<WritableMount>, String>)
        ensures
            match r {
                Ok(v) => {
                    &&& v@.len() == list@.len()
                    &&& forall|i: int|
                        0 <= i < list@.len() ==> text::split_at_char(
                            (#[trigger] list@[i])@,
                            ':',
                        ) == Some((v@[i]@.volume, v@[i]@.mount))
                },
                Err(e) => exists|k: int|
                    {
                        &&& 0 <= k < list@.len()
                        &&& text::split_at_char((#[trigger] list@[k])@, ':') is None
                        &&& e@ == not_a_mount_text(list@[k]@)
                        &&& forall|i: int|
                            0 <= i < k ==> text::split_at_char((#[trigger] list@[i])@, ':') is Some
                    },
            },
    {
        let mut v: Vec<WritableMount> = Vec::new();
        let mut i: usize = 0;
        while i < list.len()
            invariant
                i <= list.len(),
                v@.len() == i,
                forall|k: int|
                    0 <= k < i ==> text::split_at_char((#[trigger] list@[k])@, ':') == Some(
                        (v@[k]@.volume, v@[k]@.mount),
                    ),
            decreases list.len() - i,
        {
            match WritableMount::parse(list[i].as_str()) {
                Ok(m) => v.push(m),
                Err(e) => return Err(e),
            }
            i = i + 1;
        }
        Ok(v)
    }
}

// ------------------------------------------------------------------ refusals
/// What was found where the inputs and the output should be.
#[derive(Debug, Clone, Copy, PartialEq, Eq)]
pub struct Found {
    /// Whether the kernel is a file.
    pub kernel: bool,
    /// Whether the initramfs is a file.
    pub initramfs: bool,
    /// Whether the bootloader is a file.
    pub bootloader: bool,
    /// Whether the slab is a file.
    pub slab: bool,
    /// Whether there is anything where the image goes.
    pub out: bool,
}

/// Why a disk is not built, when it is not: an input that is not there, an
/// output that is, or an ESP that is too small.
pub open spec fn refusal(spec: BootImageSpec, found: Found) -> Option<Seq<char>> {
    if !found.kernel {
        Some("kernel not found: "@ + spec.kernel@)
    } else if !found.initramfs {
        Some("initramfs not found: "@ + spec.initramfs@)
    } else if !found.bootloader {
        Some("bootloader not found: "@ + spec.bootloader@)
    } else if !found.slab {
        Some("slab not found: "@ + spec.slab@)
    } else if found.out {
        Some("refusing to overwrite "@ + spec.out@)
    } else if spec.esp_mib < SMALLEST_ESP_MIB {
        Some("ESP must be at least 64 MiB for FAT32"@)
    } else {
        None
    }
}

fn because(what: &str, path: &String) -> (r: Result<(), String>)
    ensures
        r matches Err(e) && e@ == what@ + path@,
{
    let mut e = text::owned(what);
    e.append(path.as_str());
    Err(e)
}

/// Decides whether a disk can be built. Nothing that is already there is
/// written over.
pub fn check(spec: &BootImageSpec, found: Found) -> (r: Result<(), String>)
    ensures
        match r {
            Ok(()) => refusal(*spec, found) is None,
            Err(e) => refusal(*spec, found) == Some(e@),
        },
        r is Ok <==> found.kernel && found.initramfs && found.bootloader && found.slab && !found.out
            && spec.esp_mib >= 64,
{
    if !found.kernel {
        return because("kernel not found: ", &spec.kernel);
    }
    if !found.initramfs {
        return because("initramfs not found: ", &spec.initramfs);
    }
    if !found.bootloader {
        return because("bootloader not found: ", &spec.bootloader);
    }
    if !found.slab {
        return because("slab not found: ", &spec.slab);
    }
    if found.out {
        return because("refusing to overwrite ", &spec.out);
    }
    if spec.esp_mib < SMALLEST_ESP_MIB {
        return Err(text::owned("ESP must be at least 64 MiB for FAT32"));
    }
    Ok(())
}

// -------------------------------------------------------------------- layout
/// How large the parts of a disk are, in bytes.
#[derive(Debug, Clone, Copy, PartialEq, Eq)]
pub struct Layout {
    pub esp_bytes: u64,
    /// The slab itself.
    pub slab_bytes: u64,
    /// The partition it goes into.
    pub slab_aligned: u64,
    /// The whole disk.
    pub total: u64,
}

/// The least multiple of a mebibyte that is no less than `n`.
pub open spec fn aligned(n: int) -> int {
    ((n + MIB - 1) / (MIB as int)) * MIB
}

/// How large a disk is: the ESP and the slab's partition, between what GPT
/// takes at either end.
pub open spec fn disk_len(esp_mib: u64, slab_bytes: u64) -> int {
    RESERVE + esp_mib * MIB + aligned(slab_bytes as int) + RESERVE
}

/// Whether the size of a disk is a number of bytes that can be written down.
pub fn layout_fits(esp_mib: u64, slab_bytes: u64) -> (r: bool)
    ensures
        r == (disk_len(esp_mib, slab_bytes) <= u64::MAX),
{
    let esp: u128 = esp_mib as u128 * 0x10_0000u128;
    let slab: u128 = ((slab_bytes as u128 + 0xf_ffffu128) / 0x10_0000u128) * 0x10_0000u128;
    0x20_0000u128 + esp + slab <= u64::MAX as u128
}

/// Lays a disk out.
pub fn layout(esp_mib: u64, slab_bytes: u64) -> (r: Layout)
    requires
        disk_len(esp_mib, slab_bytes) <= u64::MAX,
    ensures
        r == (Layout {
            esp_bytes: (esp_mib * MIB) as u64,
            slab_bytes,
            slab_aligned: aligned(slab_bytes as int) as u64,
            total: disk_len(esp_mib, slab_bytes) as u64,
        }),
        r.esp_bytes == esp_mib * 1048576,
        r.slab_bytes == slab_bytes,
        slab_bytes <= r.slab_aligned < slab_bytes + 1048576,
        r.slab_aligned % 1048576 == 0,
        r.total == 1048576 + r.esp_bytes + r.slab_aligned + 1048576,
{
    let esp_bytes: u64 = esp_mib * MIB;
    let over: u64 = slab_bytes % MIB;
    let slab_aligned: u64 = if over == 0 {
        slab_bytes
    } else {
        slab_bytes - over + MIB
    };
    Layout { esp_bytes, slab_bytes, slab_aligned, total: RESERVE + esp_bytes + slab_aligned + RESERVE }
}

/// The slab's partition holds the slab, with less than a mebibyte to spare, and
/// is a whole number of mebibytes; the parts of a disk and its two reserves are
/// the whole of it.
pub proof fn law_the_slab_fits_its_partition(esp_mib: u64, slab_bytes: u64)
    ensures
        slab_bytes <= aligned(slab_bytes as int) < slab_bytes + MIB,
        aligned(slab_bytes as int) % (MIB as int) == 0,
        disk_len(esp_mib, slab_bytes) == 2 * RESERVE + esp_mib * MIB + aligned(slab_bytes as int),
{
}

/// Where a partition begins, in bytes.
pub fn offset_of(first_lba: u64) -> (r: u64)
    requires
        first_lba * LB_SIZE <= u64::MAX,
    ensures
        r == first_lba * LB_SIZE,
        r == first_lba * 512,
{
    first_lba * LB_SIZE
}

/// Whether the slab was copied whole.
pub fn check_copied(copied: u64, slab_bytes: u64) -> (r: Result<(), String>)
    ensures
        match r {
            Ok(()) => copied == slab_bytes,
            Err(e) => {
                &&& copied != slab_bytes
                &&& e@ == "slab copy short: "@ + text::decimal(copied as nat) + " of "@
                    + text::decimal(slab_bytes as nat)
            },
        },
{
    if copied == slab_bytes {
        return Ok(());
    }
    let mut e = text::owned("slab copy short: ");
    text::push_decimal(&mut e, copied);
    e.append(" of ");
    text::push_decimal(&mut e, slab_bytes);
    Err(e)
}

// -------------------------------------------------------------- command line
/// The partition that holds the slab, as the guest sees it.
pub open spec fn slab_partition(disk_device: Seq<char>) -> Seq<char> {
    disk_device + "2"@
}

/// The kernel command line.
pub open spec fn cmdline_of(
    disk_device: Seq<char>,
    volume: Seq<char>,
    extra: Option<Seq<char>>,
) -> Seq<char> {
    "console=ttyS0 root=/dev/ublkb0 rd.stormblock.slab="@ + slab_partition(disk_device)
        + " rd.stormblock.meta=/etc/stormblock/meta stormblock.volume="@ + volume + (match extra {
        Some(e) => " "@ + e,
        None => seq![],
    })
}

/// Writes the kernel command line: the slab partition, the boot volume, and
/// whatever was given besides.
pub fn build_cmdline(spec: &BootImageSpec) -> (r: String)
    ensures
        r@ == cmdline_of(spec.disk_device@, spec.volume@, text::view_of(spec.extra_cmdline)),
        r@ == "console=ttyS0 root=/dev/ublkb0 rd.stormblock.slab="@ + spec.disk_device@ + "2"@
            + " rd.stormblock.meta=/etc/stormblock/meta stormblock.volume="@ + spec.volume@ + (
        match spec.extra_cmdline {
            Some(e) => " "@ + e@,
            None => seq![],
        }),
{
    let mut c = text::owned("console=ttyS0 root=/dev/ublkb0 rd.stormblock.slab=");
    c.append(spec.disk_device.as_str());
    c.append("2");
    c.append(" rd.stormblock.meta=/etc/stormblock/meta stormblock.volume=");
    c.append(spec.volume.as_str());
    if let Some(extra) = &spec.extra_cmdline {
        c.append(" ");
        c.append(extra.as_str());
    }
    assert(c@ == cmdline_of(spec.disk_device@, spec.volume@, text::view_of(spec.extra_cmdline)));
    c
}

// ----------------------------------------------------------------------- ESP
/// The configuration of systemd-boot.
pub open spec fn loader_conf() -> Seq<char> {
    "default stormcos\ntimeout 0\nconsole-mode max\n"@
}

/// The loader entry.
pub open spec fn loader_entry_text(cmdline: Seq<char>) -> Seq<char> {
    "title   Storm CoreOS\nlinux   /vmlinuz\ninitrd  /initramfs.img\noptions "@ + cmdline + "\n"@
}

/// One thing to put on the ESP.
#[derive(Debug, PartialEq, Eq)]
pub enum Put {
    /// Make a directory.
    Directory { path: String },
    /// Copy a file there.
    Copy { path: String, from: String },
    /// Write a text there.
    Write { path: String, text: String },
}

/// What a [`Put`] says.
pub enum PutView {
    Directory { path: Seq<char> },
    Copy { path: Seq<char>, from: Seq<char> },
    Write { path: Seq<char>, text: Seq<char> },
}

impl View for Put {
    type V = PutView;

    open spec fn view(&self) -> PutView {
        match *self {
            Put::Directory { path } => PutView::Directory { path: path@ },
            Put::Copy { path, from } => PutView::Copy { path: path@, from: from@ },
            Put::Write { path, text } => PutView::Write { path: path@, text: text@ },
        }
    }
}

/// What each step of a list says.
pub open spec fn put_views(v: Seq<Put>) -> Seq<PutView> {
    Seq::new(v.len(), |i: int| v[i]@)
}

/// What goes onto the ESP, in order: the bootloader at the path where UEFI
/// looks on removable media, the kernel and the initramfs, and the
/// configuration of systemd-boot.
pub open spec fn esp_contents(
    kernel: Seq<char>,
    initramfs: Seq<char>,
    bootloader: Seq<char>,
    cmdline: Seq<char>,
) -> Seq<PutView> {
    seq![
        PutView::Directory { path: "EFI"@ },
        PutView::Directory { path: "EFI/BOOT"@ },
        PutView::Copy { path: "EFI/BOOT/BOOTX64.EFI"@, from: bootloader },
        PutView::Copy { path: "vmlinuz"@, from: kernel },
        PutView::Copy { path: "initramfs.img"@, from: initramfs },
        PutView::Directory { path: "loader"@ },
        PutView::Write { path: "loader/loader.conf"@, text: loader_conf() },
        PutView::Directory { path: "loader/entries"@ },
        PutView::Write { path: "loader/entries/stormcos.conf"@, text: loader_entry_text(cmdline) },
    ]
}

fn put(list: &mut Vec<Put>, item: Put)
    ensures
        put_views(final(list)@) == put_views(old(list)@).push(item@),
{
    list.push(item);
    assert(put_views(list@) == put_views(old(list)@).push(item@));
}

/// Decides what goes onto the ESP.
pub fn plan_esp(spec: &BootImageSpec) -> (r: Vec<Put>)
    ensures
        put_views(r@) == esp_contents(
            spec.kernel@,
            spec.initramfs@,
            spec.bootloader@,
            cmdline_of(spec.disk_device@, spec.volume@, text::view_of(spec.extra_cmdline)),
        ),
{
    let mut entry = text::owned(
        "title   Storm CoreOS\nlinux   /vmlinuz\ninitrd  /initramfs.img\noptions ",
    );
    entry.append(build_cmdline(spec).as_str());
    entry.append("\n");
    let mut r: Vec<Put> = Vec::new();
    assert(put_views(r@) == Seq::<PutView>::empty());
    put(&mut r, Put::Directory { path: text::owned("EFI") });
    put(&mut r, Put::Directory { path: text::owned("EFI/BOOT") });
    put(
        &mut r,
        Put::Copy {
            path: text::owned("EFI/BOOT/BOOTX64.EFI"),
            from: spec.bootloader.clone(),
        },
    );
    put(&mut r, Put::Copy { path: text::owned("vmlinuz"), from: spec.kernel.clone() });
    put(&mut r, Put::Copy { path: text::owned("initramfs.img"), from: spec.initramfs.clone() });
    put(&mut r, Put::Directory { path: text::owned("loader") });
    put(
        &mut r,
        Put::Write {
            path: text::owned("loader/loader.conf"),
            text: text::owned("default stormcos\ntimeout 0\nconsole-mode max\n"),
        },
    );
    put(&mut r, Put::Directory { path: text::owned("loader/entries") });
    put(&mut r, Put::Write { path: text::owned("loader/entries/stormcos.conf"), text: entry });
    r
}

/// Tells what was built.
pub fn report(spec: &BootImageSpec, layout: Layout) -> (r: BootImageReport)
    ensures
        r.image@ == spec.out@,
        r.image_bytes == layout.total,
        r.esp_bytes == layout.esp_bytes,
        r.slab_bytes == layout.slab_bytes,
        r.slab_partition@ == slab_partition(spec.disk_device@),
        r.slab_partition@ == spec.disk_device@ + "2"@,
        r.boot_volume@ == spec.volume@,
        r.cmdline@ == cmdline_of(
            spec.disk_device@,
            spec.volume@,
            text::view_of(spec.extra_cmdline),
        ),
{
    let mut partition = spec.disk_device.clone();
    partition.append("2");
    BootImageReport {
        image: spec.out.clone(),
        image_bytes: layout.total,
        esp_bytes: layout.esp_bytes,
        slab_bytes: layout.slab_bytes,
        slab_partition: partition,
        boot_volume: spec.volume.clone(),
        cmdline: build_cmdline(spec),
    }
}

// ---------------------------------------------------- what is built reads back
/// Whether a text is one word: no white space in it.
pub open spec fn one_word(s: Seq<char>) -> bool {
    forall|i: int| 0 <= i < s.len() ==> !text::white_space(#[trigger] s[i])
}

/// The lines of a loader entry: three that are always the same, and those of
/// the command line.
proof fn lemma_entry_lines(cmdline: Seq<char>)
    ensures
        text::line_list(loader_entry_text(cmdline)) == seq![
            "title   Storm CoreOS"@,
            "linux   /vmlinuz"@,
            "initrd  /initramfs.img"@,
        ] + text::line_list("options "@ + cmdline + "\n"@),
{
    reveal_strlit("title   Storm CoreOS\nlinux   /vmlinuz\ninitrd  /initramfs.img\noptions ");
    reveal_strlit("title   Storm CoreOS");
    reveal_strlit("linux   /vmlinuz");
    reveal_strlit("initrd  /initramfs.img");
    reveal_strlit("options ");
    let nl = seq!['\n'];
    let a = "title   Storm CoreOS"@;
    let b = "linux   /vmlinuz"@;
    let c = "initrd  /initramfs.img"@;
    let d = "options "@ + cmdline + "\n"@;
    assert("title   Storm CoreOS\nlinux   /vmlinuz\ninitrd  /initramfs.img\noptions "@ == a + nl + b
        + nl + c + nl + "options "@);
    assert(loader_entry_text(cmdline) == a + nl + (b + nl + (c + nl + d)));
    text::lemma_line_list_step(a, b + nl + (c + nl + d));
    text::lemma_line_list_step(b, c + nl + d);
    text::lemma_line_list_step(c, d);
    assert(text::line_list(loader_entry_text(cmdline)) == seq![a, b, c] + text::line_list(d));
}

proof fn lemma_entry_files(cmdline: Seq<char>)
    ensures
        esp::entry_in(loader_entry_text(cmdline)).linux == Some("/vmlinuz"@),
        esp::entry_in(loader_entry_text(cmdline)).initrd == Some("/initramfs.img"@),
{
    lemma_entry_lines(cmdline);
    reveal_strlit("title   Storm CoreOS");
    reveal_strlit("linux   /vmlinuz");
    reveal_strlit("initrd  /initramfs.img");
    reveal_strlit("linux");
    reveal_strlit("initrd");
    reveal_strlit("/vmlinuz");
    reveal_strlit("/initramfs.img");
    let lines = text::line_list(loader_entry_text(cmdline));
    let title = "title   Storm CoreOS"@;
    let linux = "linux   /vmlinuz"@;
    let initrd = "initrd  /initramfs.img"@;
    assert(lines[0] == title && lines[1] == linux && lines[2] == initrd);
    assert(title.take(5)[0] != "linux"@[0]);
    assert(title.take(6)[0] != "initrd"@[0]);
    assert(linux.take(6)[0] != "initrd"@[0]);
    assert(linux.take(5) == "linux"@);
    assert(initrd.take(6) == "initrd"@);
    assert(lines.drop_first()[0] == linux);
    assert(lines.drop_first().drop_first()[0] == initrd);
    reveal_with_fuel(esp::first_after, 4);
    assert(linux.skip(5) == text::spaces(3) + "/vmlinuz"@);
    assert(initrd.skip(6) == text::spaces(2) + "/initramfs.img"@);
    lemma_trim_spaces(3, "/vmlinuz"@);
    lemma_trim_spaces(2, "/initramfs.img"@);
}

/// Spaces before a text are trimmed off it.
proof fn lemma_trim_spaces(n: int, s: Seq<char>)
    requires
        0 <= n,
        s.len() > 0,
        !text::white_space(s.first()),
        !text::white_space(s.last()),
    ensures
        text::trimmed(text::spaces(n) + s) == s,
    decreases n,
{
    let t = text::spaces(n) + s;
    if n > 0 {
        assert(t.drop_first() == text::spaces(n - 1) + s);
        lemma_trim_spaces(n - 1, s);
    } else {
        assert(t == s);
        text::lemma_trimmed_same(s);
    }
}

/// The words that a command line always begins with.
spec fn first_words(disk_device: Seq<char>, volume: Seq<char>) -> Seq<Seq<char>> {
    seq![
        "console=ttyS0"@,
        "root=/dev/ublkb0"@,
        "rd.stormblock.slab="@ + slab_partition(disk_device),
        "rd.stormblock.meta=/etc/stormblock/meta"@,
        "stormblock.volume="@ + volume,
    ]
}

/// The part of a command line that is always there.
spec fn fixed_part(disk_device: Seq<char>, volume: Seq<char>) -> Seq<char> {
    cmdline_of(disk_device, volume, None)
}

/// What stands after the fixed part, wherever it is cut off.
spec fn continues(t: Seq<char>) -> bool {
    t.len() == 0 || t.first() == ' '
}

proof fn lemma_fixed_words(disk_device: Seq<char>, volume: Seq<char>, t: Seq<char>)
    requires
        one_word(disk_device),
        one_word(volume),
        continues(t),
    ensures
        text::word_list(fixed_part(disk_device, volume) + t) == first_words(disk_device, volume)
            + text::word_list(t),
{
    reveal_strlit("console=ttyS0 root=/dev/ublkb0 rd.stormblock.slab=");
    reveal_strlit(" rd.stormblock.meta=/etc/stormblock/meta stormblock.volume=");
    reveal_strlit("console=ttyS0");
    reveal_strlit("root=/dev/ublkb0");
    reveal_strlit("rd.stormblock.slab=");
    reveal_strlit("rd.stormblock.meta=/etc/stormblock/meta");
    reveal_strlit("stormblock.volume=");
    reveal_strlit("2");
    let w = first_words(disk_device, volume);
    let sp = seq![' '];
    assert("console=ttyS0 root=/dev/ublkb0 rd.stormblock.slab="@ == w[0] + sp + w[1] + sp
        + "rd.stormblock.slab="@);
    assert(" rd.stormblock.meta=/etc/stormblock/meta stormblock.volume="@ == sp + w[3] + sp
        + "stormblock.volume="@);
    let r4 = t;
    let r3 = sp + (w[4] + r4);
    let r2 = sp + (w[3] + r3);
    let r1 = sp + (w[2] + r2);
    let r0 = sp + (w[1] + r1);
    assert(fixed_part(disk_device, volume) + t == w[0] + r0);
    text::lemma_word_list_step(w[0], r0);
    text::lemma_word_list_step(w[1], r1);
    text::lemma_word_list_step(w[2], r2);
    text::lemma_word_list_step(w[3], r3);
    text::lemma_word_list_step(w[4], r4);
    assert(r0.drop_first() == w[1] + r1);
    assert(r1.drop_first() == w[2] + r2);
    assert(r2.drop_first() == w[3] + r3);
    assert(r3.drop_first() == w[4] + r4);
    assert(text::word_list(w[0] + r0) == seq![w[0]] + (seq![w[1]] + (seq![w[2]] + (seq![w[3]] + (
    seq![w[4]] + text::word_list(t))))));
    assert(w == seq![w[0], w[1], w[2], w[3], w[4]]);
}

/// The slab and the volume that a command line names are those it was built
/// for, whatever was given besides.
proof fn lemma_named(disk_device: Seq<char>, volume: Seq<char>, t: Seq<char>)
    requires
        one_word(disk_device),
        one_word(volume),
        volume.len() > 0,
        continues(t),
    ensures
        esp::value_on(fixed_part(disk_device, volume) + t, "rd.stormblock.slab="@) == Some(
            slab_partition(disk_device),
        ),
        esp::value_on(fixed_part(disk_device, volume) + t, "stormblock.volume="@) == Some(volume),
{
    lemma_fixed_words(disk_device, volume, t);
    reveal_strlit("console=ttyS0");
    reveal_strlit("root=/dev/ublkb0");
    reveal_strlit("rd.stormblock.slab=");
    reveal_strlit("rd.stormblock.meta=/etc/stormblock/meta");
    reveal_strlit("stormblock.volume=");
    reveal_strlit("2");
    let w = first_words(disk_device, volume);
    let all = w + text::word_list(t);
    let slab = "rd.stormblock.slab="@;
    let vol = "stormblock.volume="@;
    reveal_with_fuel(esp::first_after, 6);
    assert(w[1].len() < slab.len());
    assert(w[2].take(19) == slab);
    assert(w[2].skip(19) == slab_partition(disk_device));
    assert(w[2].take(18)[0] != vol[0]);
    assert(w[3].take(18)[0] != vol[0]);
    assert(w[4].take(18) == vol);
    assert(w[4].skip(18) == volume);
    let d1 = all.drop_first();
    let d2 = d1.drop_first();
    let d3 = d2.drop_first();
    let d4 = d3.drop_first();
    assert(all.first() == w[0] && d1.first() == w[1] && d2.first() == w[2] && d3.first() == w[3]
        && d4.first() == w[4]);
    assert(esp::first_after(d2, slab) == Some(slab_partition(disk_device)));
    assert(esp::first_after(d4, vol) == Some(volume));
}

/// The command line names the slab partition and the volume that it was built
/// for, whatever was given besides.
pub proof fn law_the_command_line_names_slab_and_volume(
    disk_device: Seq<char>,
    volume: Seq<char>,
    extra: Option<Seq<char>>,
)
    requires
        one_word(disk_device),
        one_word(volume),
        volume.len() > 0,
    ensures
        esp::value_on(cmdline_of(disk_device, volume, extra), "rd.stormblock.slab="@) == Some(
            slab_partition(disk_device),
        ),
        esp::value_on(cmdline_of(disk_device, volume, extra), "stormblock.volume="@) == Some(
            volume,
        ),
{
    reveal_strlit(" ");
    let given = match extra {
        Some(e) => " "@ + e,
        None => seq![],
    };
    assert(cmdline_of(disk_device, volume, extra) == fixed_part(disk_device, volume) + given);
    lemma_named(disk_device, volume, given);
}

/// White space is trimmed off the end of what follows something else.
proof fn lemma_trim_end_of(a: Seq<char>, b: Seq<char>)
    requires
        a.len() > 0,
        !text::white_space(a.last()),
    ensures
        text::trimmed_end(a + b) == a + text::trimmed_end(b),
        text::trimmed_end(b).len() <= b.len(),
        text::trimmed_end(b) == b.take(text::trimmed_end(b).len() as int),
    decreases b.len(),
{
    let s = a + b;
    if b.len() == 0 {
        assert(s == a);
        assert(b.take(0) == b);
    } else {
        assert(s.last() == b.last());
        if text::white_space(b.last()) {
            assert(s.drop_last() == a + b.drop_last());
            lemma_trim_end_of(a, b.drop_last());
            let n = text::trimmed_end(b).len() as int;
            assert(b.drop_last().take(n) == b.take(n));
        } else {
            assert(b.take(b.len() as int) == b);
        }
    }
}

/// The command line that a loader entry gives back begins with the fixed part
/// of the one it was written with.
proof fn lemma_options(disk_device: Seq<char>, volume: Seq<char>, extra: Option<Seq<char>>)
    requires
        one_word(disk_device),
        one_word(volume),
        volume.len() > 0,
    ensures
        exists|t: Seq<char>| #[trigger]
            continues(t) && esp::entry_in(
                loader_entry_text(cmdline_of(disk_device, volume, extra)),
            ).options == Some(fixed_part(disk_device, volume) + t),
{
    let cmdline = cmdline_of(disk_device, volume, extra);
    let p = fixed_part(disk_device, volume);
    lemma_entry_lines(cmdline);
    lemma_fixed_ends(disk_device, volume);
    reveal_strlit("title   Storm CoreOS");
    reveal_strlit("linux   /vmlinuz");
    reveal_strlit("initrd  /initramfs.img");
    reveal_strlit("options ");
    reveal_strlit("options");
    reveal_strlit(" ");
    reveal_strlit("\n");
    let given = match extra {
        Some(e) => " "@ + e,
        None => seq![],
    };
    assert(cmdline == p + given);
    let d = "options "@ + cmdline + "\n"@;
    let head = "options "@ + p;
    let n = text::upto(d, '\n') as int;
    text::lemma_upto(d, '\n');
    assert(d[d.len() - 1] == '\n');
    assert(n < d.len()) by {
        if n >= d.len() {
            assert(d[d.len() - 1] != '\n');
        }
    }
    assert(n >= head.len()) by {
        if n < head.len() {
            assert(d[n] == head[n]);
            assert(text::white_space('\n'));
        }
    }
    let line = d.take(n);
    let t1 = line.skip(head.len() as int);
    assert(line == head + t1);
    assert(t1.len() > 0 ==> t1.first() == (given + "\n"@)[0]);
    assert(continues(t1)) by {
        if t1.len() > 0 {
            assert(t1[0] == d[head.len() as int]);
            assert(t1[0] != '\n');
        }
    }
    let f = text::without_cr(line);
    assert(text::white_space('\r'));
    let t2 = if t1.len() > 0 && line.last() == '\r' {
        t1.drop_last()
    } else {
        t1
    };
    assert(f == head + t2) by {
        if t1.len() == 0 {
            assert(line == head);
            assert(line.last() == p.last());
        }
    }
    let lines = text::line_list(loader_entry_text(cmdline));
    assert(lines[3] == f);
    let key = "options"@;
    let e0 = lines[0];
    let e1 = lines[1];
    let e2 = lines[2];
    assert(e0.take(7)[0] != key[0] && e1.take(7)[0] != key[0] && e2.take(7)[0] != key[0]);
    let l1 = lines.drop_first();
    let l2 = l1.drop_first();
    let l3 = l2.drop_first();
    assert(l1.first() == e1 && l2.first() == e2 && l3.first() == f);
    reveal_with_fuel(esp::first_after, 5);
    assert(f.take(7) == key);
    assert(esp::first_after(l3, key) == Some(f.skip(7)));
    assert(esp::first_after(lines, key) == Some(f.skip(7)));
    let v = f.skip(7);
    assert(v.first() == ' ');
    assert(v.drop_first() == p + t2);
    assert(text::trimmed_start(v) == text::trimmed_start(p + t2));
    assert((p + t2).first() == p.first());
    assert(text::trimmed_start(p + t2) == p + t2);
    lemma_trim_end_of(p, t2);
    let t3 = text::trimmed_end(t2);
    assert(continues(t3));
    assert(text::trimmed(v) == p + t3);
}

proof fn lemma_fixed_ends(disk_device: Seq<char>, volume: Seq<char>)
    requires
        one_word(disk_device),
        one_word(volume),
        volume.len() > 0,
    ensures
        fixed_part(disk_device, volume).len() > 0,
        !text::white_space(fixed_part(disk_device, volume).first()),
        !text::white_space(fixed_part(disk_device, volume).last()),
        !fixed_part(disk_device, volume).contains('\n'),
        forall|i: int|
            0 <= i < fixed_part(disk_device, volume).len() ==> fixed_part(disk_device, volume)[i]
                != '\n',
{
    reveal_strlit("console=ttyS0 root=/dev/ublkb0 rd.stormblock.slab=");
    reveal_strlit(" rd.stormblock.meta=/etc/stormblock/meta stormblock.volume=");
    reveal_strlit("2");
    let p = fixed_part(disk_device, volume);
    let a = "console=ttyS0 root=/dev/ublkb0 rd.stormblock.slab="@;
    let b = " rd.stormblock.meta=/etc/stormblock/meta stormblock.volume="@;
    assert(p == a + disk_device + "2"@ + b + volume);
    assert(p.first() == a[0]);
    assert(p.last() == volume.last());
    assert forall|i: int| 0 <= i < p.len() implies p[i] != '\n' by {
        assert(text::white_space('\n'));
        let k = i - a.len();
        let m = k - disk_device.len() - 1 - b.len();
        if 0 <= k < disk_device.len() {
            assert(p[i] == disk_device[k]);
        } else if 0 <= m {
            assert(p[i] == volume[m]);
        }
    }
}

/// A disk that was built reads back as bootable: with everything that was put
/// on its ESP there, it boots, and the slab and the volume that it names are
/// the ones it was built for. Whatever was given on the command line besides
/// does not change that.
pub proof fn law_what_is_built_reads_back_as_bootable(
    disk_device: Seq<char>,
    volume: Seq<char>,
    extra: Option<Seq<char>>,
    claim: Option<Seq<u8>>,
)
    requires
        one_word(disk_device),
        one_word(volume),
        volume.len() > 0,
    ensures
        ({
            let entry = esp::entry_in(loader_entry_text(cmdline_of(disk_device, volume, extra)));
            let there = esp::Present { kernel: true, initramfs: true, bootloader: true };
            let read = esp::esp_with(claim, Some(entry), there);
            &&& read.missing.len() == 0
            &&& read.boot matches Some(boot)
            &&& boot.slab_device == Some(slab_partition(disk_device))
            &&& boot.boot_volume == Some(volume)
            &&& text::has_prefix(boot.cmdline, cmdline_of(disk_device, volume, None))
        }),
{
    let cmdline = cmdline_of(disk_device, volume, extra);
    lemma_entry_files(cmdline);
    lemma_options(disk_device, volume, extra);
    let entry = esp::entry_in(loader_entry_text(cmdline));
    let t = choose|t: Seq<char>| #[trigger]
        continues(t) && entry.options == Some(fixed_part(disk_device, volume) + t);
    lemma_named(disk_device, volume, t);
    let p = fixed_part(disk_device, volume);
    assert((p + t).take(p.len() as int) == p);
}

/// The files that a loader entry names are those that were put on the ESP, at
/// its root.
pub proof fn law_the_entry_names_what_is_on_the_esp(cmdline: Seq<char>)
    ensures
        ({
            let entry = esp::entry_in(loader_entry_text(cmdline));
            &&& entry.linux matches Some(linux) && esp::from_root(linux) == "vmlinuz"@
            &&& entry.initrd matches Some(initrd) && esp::from_root(initrd) == "initramfs.img"@
        }),
{
    lemma_entry_files(cmdline);
    reveal_strlit("/vmlinuz");
    reveal_strlit("/initramfs.img");
    reveal_strlit("vmlinuz");
    reveal_strlit("initramfs.img");
    assert("/vmlinuz"@.drop_first() == "vmlinuz"@);
    assert("/initramfs.img"@.drop_first() == "initramfs.img"@);
    reveal_with_fuel(esp::from_root, 2);
}

// -------------------------------------------------------------------- laws
/// Where a step puts something.
pub open spec fn path_of(p: PutView) -> Seq<char> {
    match p {
        PutView::Directory { path } => path,
        PutView::Copy { path, .. } => path,
        PutView::Write { path, .. } => path,
    }
}

/// Whether a step is one of a list, and the only one that puts anything at its
/// path.
pub open spec fn put_once(list: Seq<PutView>, p: PutView) -> bool {
    exists|i: int|
        {
            &&& 0 <= i < list.len()
            &&& #[trigger] list[i] == p
            &&& forall|j: int|
                0 <= j < list.len() && path_of(#[trigger] list[j]) == path_of(p) ==> j == i
        }
}

proof fn lemma_paths()
    ensures
        "EFI"@.len() == 3,
        "EFI/BOOT"@.len() == 8,
        "EFI/BOOT/BOOTX64.EFI"@.len() == 20,
        "vmlinuz"@.len() == 7,
        "initramfs.img"@.len() == 13,
        "loader"@.len() == 6,
        "loader/loader.conf"@.len() == 18,
        "loader/entries"@.len() == 14,
        "loader/entries/stormcos.conf"@.len() == 28,
{
    reveal_strlit("EFI");
    reveal_strlit("EFI/BOOT");
    reveal_strlit("EFI/BOOT/BOOTX64.EFI");
    reveal_strlit("vmlinuz");
    reveal_strlit("initramfs.img");
    reveal_strlit("loader");
    reveal_strlit("loader/loader.conf");
    reveal_strlit("loader/entries");
    reveal_strlit("loader/entries/stormcos.conf");
}

/// What is put on the ESP boots what it was made of. The loader entry is written
/// once; the file at the path that it gives as `linux` is the kernel, the file
/// at the path that it gives as `initrd` is the initramfs, and the file where
/// UEFI looks is the bootloader; and nothing is put at any of these paths twice.
pub proof fn law_each_file_comes_from_its_own_input(
    kernel: Seq<char>,
    initramfs: Seq<char>,
    bootloader: Seq<char>,
    cmdline: Seq<char>,
)
    ensures
        ({
            let list = esp_contents(kernel, initramfs, bootloader, cmdline);
            let text = "title   Storm CoreOS\nlinux   /vmlinuz\ninitrd  /initramfs.img\noptions "@
                + cmdline + "\n"@;
            let entry = esp::entry_in(text);
            &&& put_once(list, PutView::Write { path: "loader/entries/stormcos.conf"@, text })
            &&& entry.linux == Some("/vmlinuz"@)
            &&& entry.initrd == Some("/initramfs.img"@)
            &&& put_once(
                list,
                PutView::Copy { path: esp::from_root(entry.linux->0), from: kernel },
            )
            &&& put_once(
                list,
                PutView::Copy { path: esp::from_root(entry.initrd->0), from: initramfs },
            )
            &&& put_once(list, PutView::Copy { path: "vmlinuz"@, from: kernel })
            &&& put_once(list, PutView::Copy { path: "initramfs.img"@, from: initramfs })
            &&& put_once(list, PutView::Copy { path: "EFI/BOOT/BOOTX64.EFI"@, from: bootloader })
            &&& put_once(
                list,
                PutView::Write {
                    path: "loader/loader.conf"@,
                    text: "default stormcos\ntimeout 0\nconsole-mode max\n"@,
                },
            )
            &&& forall|i: int|
                0 <= i < list.len() ==> {
                    ||| #[trigger] list[i] is Directory
                    ||| path_of(list[i]) == "loader/entries/stormcos.conf"@
                    ||| path_of(list[i]) == "loader/loader.conf"@
                    ||| path_of(list[i]) == "EFI/BOOT/BOOTX64.EFI"@
                    ||| path_of(list[i]) == "vmlinuz"@
                    ||| path_of(list[i]) == "initramfs.img"@
                }
        }),
{
    let list = esp_contents(kernel, initramfs, bootloader, cmdline);
    lemma_paths();
    lemma_entry_files(cmdline);
    law_the_entry_names_what_is_on_the_esp(cmdline);
    assert(list[2] == PutView::Copy { path: "EFI/BOOT/BOOTX64.EFI"@, from: bootloader });
    assert(list[3] == PutView::Copy { path: "vmlinuz"@, from: kernel });
    assert(list[4] == PutView::Copy { path: "initramfs.img"@, from: initramfs });
    assert(list[6] == PutView::Write {
        path: "loader/loader.conf"@,
        text: "default stormcos\ntimeout 0\nconsole-mode max\n"@,
    });
    assert(list[8] == PutView::Write {
        path: "loader/entries/stormcos.conf"@,
        text: loader_entry_text(cmdline),
    });
    assert forall|j: int| 0 <= j < list.len() implies path_of(#[trigger] list[j]).len() == (
    if j == 0 {
        3int
    } else if j == 1 {
        8
    } else if j == 2 {
        20
    } else if j == 3 {
        7
    } else if j == 4 {
        13
    } else if j == 5 {
        6
    } else if j == 6 {
        18
    } else if j == 7 {
        14
    } else {
        28
    }) by {
    }
}

/// Whatever is put into a directory of the ESP, the directory is made before.
pub proof fn law_directories_come_before_what_is_in_them(
    kernel: Seq<char>,
    initramfs: Seq<char>,
    bootloader: Seq<char>,
    cmdline: Seq<char>,
    i: int,
    k: int,
)
    requires
        0 <= i < esp_contents(kernel, initramfs, bootloader, cmdline).len(),
        0 <= k < path_of(esp_contents(kernel, initramfs, bootloader, cmdline)[i]).len(),
        path_of(esp_contents(kernel, initramfs, bootloader, cmdline)[i])[k] == '/',
    ensures
        ({
            let list = esp_contents(kernel, initramfs, bootloader, cmdline);
            let dir = PutView::Directory { path: path_of(list[i]).take(k) };
            exists|j: int| 0 <= j < i && #[trigger] list[j] == dir
        }),
{
    let list = esp_contents(kernel, initramfs, bootloader, cmdline);
    let path = path_of(list[i]);
    reveal_strlit("EFI");
    reveal_strlit("EFI/BOOT");
    reveal_strlit("EFI/BOOT/BOOTX64.EFI");
    reveal_strlit("vmlinuz");
    reveal_strlit("initramfs.img");
    reveal_strlit("loader");
    reveal_strlit("loader/loader.conf");
    reveal_strlit("loader/entries");
    reveal_strlit("loader/entries/stormcos.conf");
    if i == 1 || i == 2 {
        if k == 3 {
            assert(path.take(k) == "EFI"@);
            assert(list[0] == PutView::Directory { path: path.take(k) });
        } else {
            assert(path.take(k) == "EFI/BOOT"@);
            assert(list[1] == PutView::Directory { path: path.take(k) });
        }
    } else if i >= 6 {
        if k == 6 {
            assert(path.take(k) == "loader"@);
            assert(list[5] == PutView::Directory { path: path.take(k) });
        } else {
            assert(path.take(k) == "loader/entries"@);
            assert(list[7] == PutView::Directory { path: path.take(k) });
        }
    }
}

/// A disk holds its ESP, counted in mebibytes, and a partition that the slab
/// fits in with less than a mebibyte to spare, between a mebibyte at either end.
/// Partitions start on a mebibyte.
pub proof fn law_a_disk_is_its_parts(esp_mib: u64, slab_bytes: u64)
    ensures
        slab_bytes <= aligned(slab_bytes as int) < slab_bytes + 1048576,
        aligned(slab_bytes as int) % 1048576 == 0,
        disk_len(esp_mib, slab_bytes) == 1048576 + esp_mib * 1048576 + aligned(slab_bytes as int)
            + 1048576,
        ALIGN_LBA * 512 == 1048576,
{
}

/// A disk is built when every input is there, nothing is where the image goes,
/// and the ESP is large enough for FAT32. Otherwise what is said is the first
/// input that is not there, what would be written over, or that the ESP is too
/// small.
pub proof fn law_why_a_disk_is_not_built(spec: BootImageSpec, found: Found)
    ensures
        refusal(spec, found) is None <==> found.kernel && found.initramfs && found.bootloader
            && found.slab && !found.out && spec.esp_mib >= 64,
        !found.kernel ==> refusal(spec, found) == Some("kernel not found: "@ + spec.kernel@),
        found.kernel && !found.initramfs ==> refusal(spec, found) == Some(
            "initramfs not found: "@ + spec.initramfs@,
        ),
        found.kernel && found.initramfs && !found.bootloader ==> refusal(spec, found) == Some(
            "bootloader not found: "@ + spec.bootloader@,
        ),
        found.kernel && found.initramfs && found.bootloader && !found.slab ==> refusal(spec, found)
            == Some("slab not found: "@ + spec.slab@),
        found.kernel && found.initramfs && found.bootloader && found.slab && found.out ==> refusal(
            spec,
            found,
        ) == Some("refusing to overwrite "@ + spec.out@),
        found.kernel && found.initramfs && found.bootloader && found.slab && !found.out
            && spec.esp_mib < 64 ==> refusal(spec, found) == Some(
            "ESP must be at least 64 MiB for FAT32"@,
        ),
{
}

/// The words of a command line: the console, the root, the second partition of
/// the disk as the slab, where the slab's metadata is, and the volume; and after
/// them whatever was given besides.
pub proof fn law_the_words_of_a_command_line(
    disk_device: Seq<char>,
    volume: Seq<char>,
    extra: Seq<char>,
)
    requires
        one_word(disk_device),
        one_word(volume),
    ensures
        text::word_list(cmdline_of(disk_device, volume, None)) == seq![
            "console=ttyS0"@,
            "root=/dev/ublkb0"@,
            "rd.stormblock.slab="@ + disk_device + "2"@,
            "rd.stormblock.meta=/etc/stormblock/meta"@,
            "stormblock.volume="@ + volume,
        ],
        cmdline_of(disk_device, volume, Some(extra)) == cmdline_of(disk_device, volume, None)
            + " "@ + extra,
{
    let none = Seq::<char>::empty();
    lemma_fixed_words(disk_device, volume, none);
    assert(fixed_part(disk_device, volume) + none == cmdline_of(disk_device, volume, None));
    assert(text::word_list(none) == Seq::<Seq<char>>::empty());
    assert("rd.stormblock.slab="@ + (disk_device + "2"@) == "rd.stormblock.slab="@ + disk_device
        + "2"@);
    assert(first_words(disk_device, volume) + text::word_list(none) == first_words(
        disk_device,
        volume,
    ));
    assert(cmdline_of(disk_device, volume, Some(extra)) == cmdline_of(disk_device, volume, None)
        + " "@ + extra);
}

} // verus!
