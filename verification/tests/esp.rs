//! Claims, loader entries and what an ESP says.

use zeroboot::esp::{
    cmdline_value, esp_extent, loader_entry, lookup_path, names_an_entry, read, table, Boot, Claim,
    Entry, Esp, GptEntry, Listed, Partition, Present, Table,
};

const EFI_TYPE: u128 = 0xC12A7328_F81F_11D2_BA4B_00A0C93EC93B;
const LINUX_TYPE: u128 = 0x0FC63DAF_8483_4772_8E79_3D69D8477DE4;

fn claim(node: &str, claimed: &str) -> Claim {
    Claim { node: node.into(), claimed: claimed.into() }
}

fn entry(text: &str) -> Option<Entry> {
    Some(Entry::parse(text))
}

const ALL_THERE: Present = Present { kernel: true, initramfs: true, bootloader: true };

const ENTRY: &str = "title   Storm CoreOS\nlinux   /vmlinuz\ninitrd  /initramfs.img\n\
                     options console=ttyS0 rd.stormblock.slab=/dev/sda2 stormblock.volume=boot-cp-01\n";

#[test]
fn a_claim_is_parsed_and_junk_is_not() {
    assert_eq!(
        Claim::parse("node=4F2XYZ1\nclaimed=2026-09-08T12:00:00Z\n"),
        Some(Claim { node: "4F2XYZ1".into(), claimed: "2026-09-08T12:00:00Z".into() })
    );
    // A claim with no node names nobody and is not a claim.
    assert_eq!(Claim::parse("claimed=2026-09-08T12:00:00Z\n"), None);
    assert_eq!(Claim::parse("node=\n"), None);
    assert_eq!(Claim::parse(""), None);
}

#[test]
fn cmdline_values_are_pulled_out_whole() {
    let c = "console=ttyS0 rd.stormblock.slab=/dev/sda2 stormblock.volume=boot-cp-01 quiet";
    assert_eq!(cmdline_value(c, "rd.stormblock.slab="), Some("/dev/sda2".into()));
    assert_eq!(cmdline_value(c, "stormblock.volume="), Some("boot-cp-01".into()));
    assert_eq!(cmdline_value(c, "rd.stormblock.boothost="), None);
}

#[test]
fn a_value_that_is_empty_is_no_value() {
    assert_eq!(cmdline_value("quiet a= b=2", "a="), None);
    assert_eq!(cmdline_value("a=1 a=2", "a="), Some("1".into()));
    assert_eq!(cmdline_value("\u{a0}a=1\u{2003}b=2", "b="), Some("2".into()));
    assert_eq!(cmdline_value("", "a="), None);
}

#[test]
fn a_claim_is_rendered_as_two_lines() {
    let c = claim("4F2XYZ1", "2026-09-08T12:00:00Z");
    assert_eq!(c.render(), "node=4F2XYZ1\nclaimed=2026-09-08T12:00:00Z\n");
    assert_eq!(Claim::parse(&c.render()), Some(c));
}

#[test]
fn the_last_line_of_a_claim_with_a_key_counts() {
    assert_eq!(
        Claim::parse("node = a \r\nnoise\nnode=b\nclaimed= 1 \n"),
        Some(claim("b", "1"))
    );
    assert_eq!(Claim::parse("node=a"), Some(claim("a", "")));
    assert_eq!(Claim::parse("node=a=b\n"), Some(claim("a=b", "")));
}

#[test]
fn a_loader_entry_is_read_field_by_field() {
    assert_eq!(
        Entry::parse(ENTRY),
        Entry {
            linux: Some("/vmlinuz".into()),
            initrd: Some("/initramfs.img".into()),
            options: Some(
                "console=ttyS0 rd.stormblock.slab=/dev/sda2 stormblock.volume=boot-cp-01".into()
            ),
        }
    );
    assert_eq!(
        Entry::parse("linux\ninitrd   \noptions x\n"),
        Entry { linux: None, initrd: None, options: Some("x".into()) }
    );
}

fn listed(name: &str, is_dir: bool, content: Option<&[u8]>) -> Listed {
    Listed { name: name.into(), is_dir, content: content.map(|c| c.to_vec()) }
}

#[test]
fn the_first_readable_conf_file_is_the_entry() {
    assert!(names_an_entry("stormcos.conf", false));
    assert!(names_an_entry("STORMCOS.CONF", false));
    assert!(!names_an_entry("stormcos.conf", true));
    assert!(!names_an_entry("stormcos.txt", false));

    let entries = vec![
        listed(".", true, None),
        listed("readme.txt", false, Some(b"linux /no\n")),
        listed("broken.conf", false, None),
        listed("binary.conf", false, Some(&[0xff, 0xfe])),
        listed("Good.Conf", false, Some(b"linux /a\n")),
        listed("later.conf", false, Some(b"linux /b\n")),
    ];
    assert_eq!(
        loader_entry(&entries),
        Some(Entry { linux: Some("/a".into()), initrd: None, options: None })
    );
    assert_eq!(loader_entry(&vec![]), None);
}

#[test]
fn a_path_is_looked_up_from_the_root() {
    assert_eq!(lookup_path("/vmlinuz"), "vmlinuz");
    assert_eq!(lookup_path("//a/b"), "a/b");
    assert_eq!(lookup_path("a/b"), "a/b");
    assert_eq!(lookup_path("/"), "");
}

#[test]
fn an_esp_with_everything_boots() {
    let e = read(&Some(b"node=N1\nclaimed=T\n".to_vec()), &entry(ENTRY), ALL_THERE);
    assert_eq!(
        e,
        Esp {
            boot: Some(Boot {
                cmdline: "console=ttyS0 rd.stormblock.slab=/dev/sda2 stormblock.volume=boot-cp-01"
                    .into(),
                slab_device: Some("/dev/sda2".into()),
                boot_volume: Some("boot-cp-01".into()),
            }),
            claim: Some(claim("N1", "T")),
            missing: vec![],
        }
    );
}

#[test]
fn what_is_missing_on_an_esp_is_told() {
    let none = Present { kernel: false, initramfs: false, bootloader: false };
    assert_eq!(
        read(&None, &None, ALL_THERE),
        Esp {
            boot: None,
            claim: None,
            missing: vec!["no loader entry under /loader/entries".into()],
        }
    );
    assert_eq!(
        read(&None, &entry(ENTRY), none).missing,
        vec![
            "kernel /vmlinuz named by the loader entry is not on the ESP".to_string(),
            "initramfs /initramfs.img named by the loader entry is not on the ESP".to_string(),
            "no /EFI/BOOT/BOOTX64.EFI".to_string(),
        ]
    );
    assert_eq!(
        read(&None, &entry("options x\n"), ALL_THERE).missing,
        vec!["loader entry names no kernel".to_string(), "loader entry names no initramfs".to_string()]
    );
}

#[test]
fn a_claim_that_is_not_text_is_no_claim() {
    assert_eq!(read(&Some(vec![b'n', b'o', b'd', b'e', b'=', 0xff]), &None, ALL_THERE).claim, None);
    assert_eq!(
        read(&Some("node=n\u{f6}d\u{e9}\n".as_bytes().to_vec()), &None, ALL_THERE).claim,
        Some(claim("n\u{f6}d\u{e9}", ""))
    );
}

fn partition(index: u32, kind: u128, name: &str, first: u64, last: u64) -> GptEntry {
    GptEntry {
        index,
        type_guid: kind,
        name: name.into(),
        guid: format!("guid-{index}"),
        first_lba: first,
        last_lba: last,
    }
}

#[test]
fn the_first_efi_system_partition_is_the_esp() {
    let parts = vec![
        partition(1, LINUX_TYPE, "root", 34, 2047),
        partition(2, EFI_TYPE, "ESP", 2048, 133119),
        partition(3, EFI_TYPE, "other", 200000, 200001),
    ];
    assert_eq!(esp_extent(&parts), Some((2048 * 512, 133120 * 512)));
    assert_eq!(esp_extent(&vec![partition(1, LINUX_TYPE, "root", 34, 2047)]), None);
    assert_eq!(esp_extent(&vec![]), None);
    assert_eq!(EFI_TYPE, gpt::partition_types::EFI.guid.as_u128());
}

#[test]
fn a_table_names_the_disk_and_every_partition() {
    let parts = vec![partition(1, EFI_TYPE, "ESP", 1, 2), partition(2, LINUX_TYPE, "stormblock", 3, 4)];
    assert_eq!(
        table("the-disk", &parts),
        Table {
            disk_guid: "the-disk".into(),
            partitions: vec![
                Partition { index: 1, name: "ESP".into(), guid: "guid-1".into() },
                Partition { index: 2, name: "stormblock".into(), guid: "guid-2".into() },
            ],
        }
    );
}
