//! A boot disk, built in memory as it is planned and read back.

use std::io::{Cursor, Read, Seek, SeekFrom, Write};

use fatfs::{FatType, FileSystem, FormatVolumeOptions, FsOptions};
use fscommon::StreamSlice;
use gpt::{partition_types, GptConfig};
use zeroboot::bootimage::{
    build_cmdline, check, check_copied, layout, layout_fits, offset_of, plan_esp, report,
    BootImageReport, BootImageSpec, Found, Layout, Put, WritableMount, ALIGN_LBA, ESP_NAME, MIB,
    SLAB_NAME, VOLUME_LABEL,
};
use zeroboot::esp::{
    cmdline_value, esp_extent, loader_entry, lookup_path, names_an_entry, read, table, Claim, Esp, GptEntry,
    Listed, Present, BOOTLOADER_PATH, CLAIM_DIR, CLAIM_PATH, ENTRIES_DIR, LB_SIZE,
};

type Files = Vec<(String, Vec<u8>)>;

fn spec() -> BootImageSpec {
    BootImageSpec {
        kernel: "in/vmlinuz".into(),
        initramfs: "in/initramfs.img".into(),
        bootloader: "in/systemd-bootx64.efi".into(),
        slab: "in/root.slab".into(),
        volume: "boot-cp-01".into(),
        esp_mib: 64,
        image_store: None,
        writable: vec![],
        disk_device: "/dev/vda".into(),
        extra_cmdline: None,
        out: "out/stormcos.img".into(),
    }
}

fn files() -> Files {
    vec![
        ("in/vmlinuz".into(), vec![0xAB; 4096]),
        ("in/initramfs.img".into(), vec![0xAB; 8192]),
        ("in/systemd-bootx64.efi".into(), vec![0xAB; 2048]),
        ("in/root.slab".into(), vec![0xAB; 3 * 1024 * 1024]),
    ]
}

fn content<'a>(files: &'a Files, path: &str) -> Option<&'a [u8]> {
    files.iter().find(|(p, _)| p == path).map(|(_, c)| c.as_slice())
}

fn found(spec: &BootImageSpec, files: &Files) -> Found {
    Found {
        kernel: content(files, &spec.kernel).is_some(),
        initramfs: content(files, &spec.initramfs).is_some(),
        bootloader: content(files, &spec.bootloader).is_some(),
        slab: content(files, &spec.slab).is_some(),
        out: content(files, &spec.out).is_some(),
    }
}

/// Builds the disk that is planned, out of files in memory.
fn build(spec: &BootImageSpec, files: &Files) -> Result<(Vec<u8>, BootImageReport), String> {
    check(spec, found(spec, files))?;
    let slab = content(files, &spec.slab).unwrap();
    assert!(layout_fits(spec.esp_mib, slab.len() as u64));
    let plan = layout(spec.esp_mib, slab.len() as u64);

    let mut gpt = GptConfig::new()
        .writable(true)
        .create_from_device(Cursor::new(vec![0u8; plan.total as usize]), None)
        .unwrap();
    let align = Some(ALIGN_LBA);
    let esp = gpt
        .add_partition(ESP_NAME, plan.esp_bytes, partition_types::EFI, 0, align)
        .unwrap();
    let raw = gpt
        .add_partition(SLAB_NAME, plan.slab_aligned, partition_types::LINUX_FS, 0, align)
        .unwrap();
    let esp_start = offset_of(gpt.partitions()[&esp].first_lba);
    let slab_start = offset_of(gpt.partitions()[&raw].first_lba);
    let mut disk = gpt.write().unwrap().into_inner();

    {
        let mut slice =
            StreamSlice::new(Cursor::new(&mut disk), esp_start, esp_start + plan.esp_bytes).unwrap();
        let mut label = [b' '; 11];
        label.copy_from_slice(VOLUME_LABEL.as_bytes());
        fatfs::format_volume(
            &mut slice,
            FormatVolumeOptions::new().fat_type(FatType::Fat32).volume_label(label),
        )
        .unwrap();
        let fs = FileSystem::new(slice, FsOptions::new()).unwrap();
        let root = fs.root_dir();
        for item in plan_esp(spec) {
            match item {
                Put::Directory { path } => {
                    root.create_dir(&path).unwrap();
                }
                Put::Copy { path, from } => {
                    root.create_file(&path).unwrap().write_all(content(files, &from).unwrap()).unwrap()
                }
                Put::Write { path, text } => {
                    root.create_file(&path).unwrap().write_all(text.as_bytes()).unwrap()
                }
            }
        }
    }

    let mut img = Cursor::new(&mut disk);
    img.seek(SeekFrom::Start(slab_start)).unwrap();
    let copied = std::io::copy(&mut &slab[..], &mut img).unwrap();
    check_copied(copied, plan.slab_bytes)?;
    Ok((disk, report(spec, plan)))
}

fn entries(disk: &mut Vec<u8>) -> Option<(String, Vec<GptEntry>)> {
    let gpt = GptConfig::new().open_from_device(Cursor::new(disk)).ok()?;
    let parts = gpt
        .partitions()
        .iter()
        .map(|(index, p)| GptEntry {
            index: *index,
            type_guid: p.part_type_guid.guid.as_u128(),
            name: p.name.clone(),
            guid: p.part_guid.to_string(),
            first_lba: p.first_lba,
            last_lba: p.last_lba,
        })
        .collect();
    Some((gpt.guid().to_string(), parts))
}

fn esp_of(disk: &mut Vec<u8>) -> FileSystem<StreamSlice<Cursor<&mut Vec<u8>>>> {
    let (start, end) = esp_extent(&entries(disk).unwrap().1).unwrap();
    FileSystem::new(StreamSlice::new(Cursor::new(disk), start, end).unwrap(), FsOptions::new())
        .unwrap()
}

/// Reads what the ESP of a disk says, when it has one.
fn read_disk(disk: &mut Vec<u8>) -> Option<Esp> {
    esp_extent(&entries(disk)?.1)?;
    let fs = esp_of(disk);
    let root = fs.root_dir();
    let file = |path: &str| -> Option<Vec<u8>> {
        let mut b = Vec::new();
        root.open_file(path).ok()?.read_to_end(&mut b).ok()?;
        Some(b)
    };
    let listing: Vec<Listed> = root
        .open_dir(ENTRIES_DIR)
        .map(|dir| {
            dir.iter()
                .flatten()
                .map(|e| {
                    let (name, is_dir) = (e.file_name(), e.is_dir());
                    let content = if names_an_entry(&name, is_dir) {
                        file(&format!("{ENTRIES_DIR}/{name}"))
                    } else {
                        None
                    };
                    Listed { name, is_dir, content }
                })
                .collect()
        })
        .unwrap_or_default();
    let entry = loader_entry(&listing);
    let there = |path: Option<&String>| path.is_some_and(|p| file(&lookup_path(p)).is_some());
    let present = Present {
        kernel: there(entry.as_ref().and_then(|e| e.linux.as_ref())),
        initramfs: there(entry.as_ref().and_then(|e| e.initrd.as_ref())),
        bootloader: root.open_file(BOOTLOADER_PATH).is_ok(),
    };
    Some(read(&file(CLAIM_PATH), &entry, present))
}

fn write_claim(disk: &mut Vec<u8>, claim: &Claim) {
    let fs = esp_of(disk);
    let root = fs.root_dir();
    let _ = root.create_dir(CLAIM_DIR);
    let mut f = root.create_file(CLAIM_PATH).unwrap();
    f.truncate().unwrap();
    f.write_all(claim.render().as_bytes()).unwrap();
    f.flush().unwrap();
}

fn a_real_disk() -> Vec<u8> {
    let mut s = spec();
    s.bootloader = "in/boot.efi".into();
    s.disk_device = "/dev/sda".into();
    s.out = "out/disk.img".into();
    let f = vec![
        ("in/vmlinuz".to_string(), b"kernel".to_vec()),
        ("in/initramfs.img".to_string(), b"initramfs".to_vec()),
        ("in/boot.efi".to_string(), b"MZ".to_vec()),
        // A slab payload only has to be bytes for this: nothing here opens it.
        ("in/root.slab".to_string(), vec![0u8; 4 << 20]),
    ];
    build(&s, &f).unwrap().0
}

#[test]
fn builds_bootable_layout_with_esp_and_slab() {
    let (mut disk, report) = build(&spec(), &files()).unwrap();

    assert_eq!(report.slab_partition, "/dev/vda2");
    assert!(report.cmdline.contains("root=/dev/ublkb0"));
    assert!(report.cmdline.contains("stormblock.volume=boot-cp-01"));
    assert!(report.cmdline.contains("rd.stormblock.slab=/dev/vda2"));
    assert_eq!(disk.len() as u64, report.image_bytes);

    // The image must carry a real GPT with our two partitions.
    let (guid, parts) = entries(&mut disk).expect("valid GPT");
    assert_eq!(parts.len(), 2, "ESP + slab");
    assert!(parts.iter().any(|p| p.name == "ESP"));
    assert!(parts.iter().any(|p| p.name == "stormblock"));

    // The inventory: stable identity, not device paths.
    let t = table(&guid, &parts);
    assert_eq!(t.disk_guid.len(), 36, "a real GPT disk GUID");
    assert_eq!(t.partitions[0].index, 1);
    assert_eq!(t.partitions[0].name, "ESP");
    assert_eq!(t.partitions[1].name, "stormblock");
    assert_ne!(t.partitions[0].guid, t.partitions[1].guid);
    assert_eq!(t.partitions[1].guid.len(), 36);
}

#[test]
fn esp_is_fat_with_bootloader_kernel_and_entry() {
    let (mut disk, _) = build(&spec(), &files()).unwrap();
    let fs = esp_of(&mut disk);
    let root = fs.root_dir();
    assert!(root.open_file("EFI/BOOT/BOOTX64.EFI").is_ok());
    assert!(root.open_file("vmlinuz").is_ok());
    assert!(root.open_file("initramfs.img").is_ok());
    let mut entry = String::new();
    root.open_file("loader/entries/stormcos.conf").unwrap().read_to_string(&mut entry).unwrap();
    assert!(entry.contains("linux   /vmlinuz"));
    assert!(entry.contains("stormblock.volume=boot-cp-01"));
}

#[test]
fn slab_payload_lands_verbatim() {
    let payload: Vec<u8> = (0..3 * 1024 * 1024).map(|i| (i % 251) as u8).collect();
    let mut f = files();
    f[3].1 = payload.clone();
    let (mut disk, _) = build(&spec(), &f).unwrap();
    let part = entries(&mut disk).unwrap().1.into_iter().find(|p| p.name == "stormblock").unwrap();
    let start = (part.first_lba * LB_SIZE) as usize;
    assert_eq!(&disk[start..start + payload.len()], &payload[..], "slab must land byte-for-byte");
}

#[test]
fn refuses_to_overwrite_existing_image() {
    let mut f = files();
    f.push(("out/stormcos.img".into(), b"existing".to_vec()));
    assert!(build(&spec(), &f).unwrap_err().contains("refusing"));
}

#[test]
fn a_disk_bootimage_built_reads_back_as_bootable() {
    let mut disk = a_real_disk();

    let esp = read_disk(&mut disk).expect("the disk has an ESP");
    assert!(esp.missing.is_empty(), "{:?}", esp.missing);
    let boot = esp.boot.expect("it boots");
    assert_eq!(boot.slab_device.as_deref(), Some("/dev/sda2"));
    assert_eq!(boot.boot_volume.as_deref(), Some("boot-cp-01"));
    assert!(boot.cmdline.contains("root=/dev/ublkb0"), "{}", boot.cmdline);
    assert!(esp.claim.is_none(), "nobody has claimed it yet");
}

/// A kernel is not text, and one that is there boots.
#[test]
fn a_disk_with_a_kernel_that_is_not_text_boots() {
    let (mut disk, _) = build(&spec(), &files()).unwrap();
    let esp = read_disk(&mut disk).expect("the disk has an ESP");
    assert!(esp.missing.is_empty(), "{:?}", esp.missing);
    assert_eq!(esp.boot.expect("it boots").slab_device.as_deref(), Some("/dev/vda2"));
}

#[test]
fn an_entry_naming_a_kernel_that_is_not_there_does_not_boot() {
    let mut disk = a_real_disk();
    esp_of(&mut disk).root_dir().remove("vmlinuz").unwrap();

    let esp = read_disk(&mut disk).unwrap();
    assert!(esp.boot.is_none());
    assert!(esp.missing.iter().any(|m| m.contains("kernel /vmlinuz")), "{:?}", esp.missing);
}

#[test]
fn a_claim_survives_being_written_and_read() {
    let mut disk = a_real_disk();

    let claim = Claim { node: "4F2XYZ1".into(), claimed: "2026-09-08T12:00:00Z".into() };
    write_claim(&mut disk, &claim);
    assert_eq!(read_disk(&mut disk).unwrap().claim, Some(claim));

    // And claiming again replaces it rather than appending to it.
    let second = Claim { node: "9ABCDE2".into(), claimed: "2026-09-09T00:00:00Z".into() };
    write_claim(&mut disk, &second);
    assert_eq!(read_disk(&mut disk).unwrap().claim, Some(second));

    // Still bootable: claiming writes a file, it does not disturb the disk.
    assert!(read_disk(&mut disk).unwrap().boot.is_some());
}

#[test]
fn a_drive_with_no_gpt_has_no_esp_and_that_is_not_an_error() {
    assert!(read_disk(&mut vec![0u8; 4 << 20]).is_none());
}

#[test]
fn what_is_given_besides_does_not_change_what_is_booted() {
    let mut s = spec();
    s.extra_cmdline =
        Some("quiet stormblock.volume=other rd.stormblock.slab=/dev/x \r\nlinux /evil\n".into());
    let (mut disk, _) = build(&s, &files()).unwrap();
    let boot = read_disk(&mut disk).unwrap().boot.expect("it boots");
    assert_eq!(boot.slab_device.as_deref(), Some("/dev/vda2"));
    assert_eq!(boot.boot_volume.as_deref(), Some("boot-cp-01"));
}

// ------------------------------------------------------------------ decisions
#[test]
fn every_input_has_to_be_there() {
    for (i, what) in ["kernel", "initramfs", "bootloader", "slab"].iter().enumerate() {
        let mut f = files();
        let (path, _) = f.remove(i);
        assert_eq!(check(&spec(), found(&spec(), &f)), Err(format!("{what} not found: {path}")));
    }
    let all = Found { kernel: true, initramfs: true, bootloader: true, slab: true, out: false };
    assert_eq!(check(&spec(), all), Ok(()));
    assert_eq!(
        check(&spec(), Found { out: true, ..all }),
        Err("refusing to overwrite out/stormcos.img".into())
    );
    let mut small = spec();
    small.esp_mib = 63;
    assert_eq!(check(&small, all), Err("ESP must be at least 64 MiB for FAT32".into()));
}

#[test]
fn a_disk_is_as_large_as_its_parts() {
    assert_eq!(
        layout(64, 3 * MIB + 1),
        Layout {
            esp_bytes: 64 * MIB,
            slab_bytes: 3 * MIB + 1,
            slab_aligned: 4 * MIB,
            total: 70 * MIB,
        }
    );
    assert_eq!(layout(256, 2 * MIB).slab_aligned, 2 * MIB);
    assert!(!layout_fits(u64::MAX, 0));
    assert!(!layout_fits(64, u64::MAX));
    assert!(layout_fits(64, 1 << 40));
    assert_eq!(offset_of(2048), MIB);
}

#[test]
fn a_slab_that_was_not_copied_whole_is_told() {
    assert_eq!(check_copied(5, 5), Ok(()));
    assert_eq!(check_copied(3, 5), Err("slab copy short: 3 of 5".into()));
}

#[test]
fn the_command_line_names_the_slab_and_the_volume() {
    let fixed = "console=ttyS0 root=/dev/ublkb0 rd.stormblock.slab=/dev/vda2 \
                 rd.stormblock.meta=/etc/stormblock/meta stormblock.volume=boot-cp-01";
    assert_eq!(build_cmdline(&spec()), fixed);
    let mut s = spec();
    s.extra_cmdline = Some("quiet splash".into());
    assert_eq!(build_cmdline(&s), format!("{fixed} quiet splash"));
}

#[test]
fn the_command_line_gives_back_what_it_was_built_for() {
    for extra in [None, Some(""), Some("quiet"), Some("stormblock.volume=x rd.stormblock.slab=y")] {
        let mut s = spec();
        s.extra_cmdline = extra.map(str::to_string);
        let c = build_cmdline(&s);
        assert_eq!(cmdline_value(&c, "rd.stormblock.slab=").as_deref(), Some("/dev/vda2"));
        assert_eq!(cmdline_value(&c, "stormblock.volume=").as_deref(), Some("boot-cp-01"));
    }
}

#[test]
fn a_writable_volume_is_a_volume_and_a_mount() {
    assert_eq!(
        WritableMount::parse("var-stormcos-0.1.0:/var"),
        Ok(WritableMount { volume: "var-stormcos-0.1.0".into(), mount: "/var".into() })
    );
    assert_eq!(
        WritableMount::parse("a:b:c"),
        Ok(WritableMount { volume: "a".into(), mount: "b:c".into() })
    );
    assert_eq!(
        WritableMount::parse("nothing"),
        Err("--writable must be volume:mount, got nothing".into())
    );
    let list = |v: &[&str]| v.iter().map(|s| s.to_string()).collect::<Vec<String>>();
    assert_eq!(WritableMount::parse_all(&list(&["a:b", "c:d"])).unwrap().len(), 2);
    assert_eq!(
        WritableMount::parse_all(&list(&["a:b", "x", "y"])),
        Err("--writable must be volume:mount, got x".into())
    );
}
