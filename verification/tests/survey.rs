//! What follows from the drives of a machine.

use zeroboot::esp;
use zeroboot::survey::{Drive, Intent, Report, Survey, Verdict};

fn drive(path: &str, size: u64, rotational: bool, verdict: Verdict) -> Drive {
    Drive {
        path: path.into(),
        size_bytes: size,
        rotational,
        model: None,
        wwid: None,
        serial: None,
        table: None,
        esp: Some(esp::Esp {
            boot: Some(esp::Boot {
                cmdline: String::new(),
                slab_device: None,
                boot_volume: None,
            }),
            claim: None,
            missing: vec![],
        }),
        verdict,
    }
}

fn without_an_esp(mut d: Drive) -> Drive {
    d.esp = None;
    d
}

trait BrokenEsp {
    fn with_broken_esp(self, missing: &str) -> Drive;
}
impl BrokenEsp for Drive {
    /// An ESP that is there and does not have what it names — the one case
    /// where a drive positively says it cannot boot.
    fn with_broken_esp(mut self, missing: &str) -> Drive {
        self.esp =
            Some(esp::Esp { boot: None, claim: None, missing: vec![missing.to_string()] });
        self
    }
}

#[test]
fn only_a_blank_drive_may_be_taken() {
    assert!(Verdict::Blank.is_available());
    assert!(!Verdict::Foreign { what: "GPT with 4 partitions".into() }.is_available());
    assert!(!Verdict::Unreadable { why: "no medium".into() }.is_available());
    assert!(!Verdict::AnotherNode {
        slab_id: "abc".into(),
        owner: "node-2".into()
    }
    .is_available());
    assert!(!Verdict::Mine {
        slab_id: "abc".into(),
        role: "data".into(),
        slab: "/dev/sda".into()
    }
    .is_available());
}

/// The R230 that prompted this: a 2 TB disk carrying four partitions from
/// a previous life. It is not blank and it is not ours, and the only safe
/// reading of that is "leave it".
#[test]
fn a_disk_with_someone_elses_partitions_is_never_taken() {
    let s = Survey {
        drives: vec![drive(
            "/dev/sda",
            2_000_398_934_016,
            true,
            Verdict::Foreign { what: "GPT, 4 partitions".into() },
        )],
    };
    assert!(s.available().is_empty());
    assert!(matches!(s.intent(), Intent::NothingToTake { .. }));
}

/// An empty removable drive answers ENOMEDIUM, and that is not an
/// invitation. Same lesson as the slab probe: absence of a known error is
/// not evidence of emptiness.
#[test]
fn an_unreadable_drive_is_not_treated_as_empty() {
    let s = Survey {
        drives: vec![drive(
            "/dev/sda",
            0,
            false,
            Verdict::Unreadable { why: "no medium found (os error 123)".into() },
        )],
    };
    assert!(s.available().is_empty());
}

#[test]
fn a_node_that_already_owns_a_slab_just_boots() {
    let s = Survey {
        drives: vec![
            drive("/dev/sda", 1 << 40, true, Verdict::Mine {
                slab_id: "7661cf8b".into(),
                role: "data".into(),
                slab: "/dev/sda2".into(),
            }),
            drive("/dev/sdb", 1 << 40, false, Verdict::Blank),
        ],
    };
    assert_eq!(
        s.intent(),
        Intent::AlreadyMine {
            drive: "/dev/sda".into(),
            slab: "/dev/sda2".into(),
            slab_id: "7661cf8b".into(),
        },
        "owning a slab settles it, and says which device to boot"
    );
}

/// A node with both a system slab and a data slab boots off the system
/// one. The drives are seen in name order and the roles decide, not the
/// order — otherwise which disk a node boots from depends on which SATA
/// port it happens to be in.
#[test]
fn the_system_slab_is_the_one_that_boots() {
    let s = Survey {
        drives: vec![
            drive("/dev/sda", 4 << 40, true, Verdict::Mine {
                slab_id: "data-slab".into(),
                role: "data".into(),
                slab: "/dev/sda".into(),
            }),
            drive("/dev/sdb", 1 << 40, false, Verdict::Mine {
                slab_id: "system-slab".into(),
                role: "system".into(),
                slab: "/dev/sdb2".into(),
            }),
        ],
    };
    match s.intent() {
        Intent::AlreadyMine { slab, slab_id, .. } => {
            assert_eq!(slab, "/dev/sdb2");
            assert_eq!(slab_id, "system-slab");
        }
        other => panic!("expected AlreadyMine, got {other:?}"),
    }
}

#[test]
fn solid_state_is_preferred_and_then_the_larger_drive() {
    let s = Survey {
        drives: vec![
            drive("/dev/sda", 4 << 40, true, Verdict::Blank),
            drive("/dev/sdb", 1 << 40, false, Verdict::Blank),
            drive("/dev/sdc", 2 << 40, false, Verdict::Blank),
        ],
    };
    let order: Vec<&str> = s.available().iter().map(|d| d.path.as_str()).collect();
    assert_eq!(order, vec!["/dev/sdc", "/dev/sdb", "/dev/sda"]);
    assert_eq!(s.intent(), Intent::TakeOver { path: "/dev/sdc".into() });
}

/// Owning a slab is not the same as being able to start from it. A node
/// whose system disk carries a slab but no bootloader — a slab formatted
/// and never filled, or a boot disk whose ESP was wiped — must ask the
/// appliance, exactly as a node with no disk does. Calling that
/// `AlreadyMine` is how a node declines to fetch the image it cannot start
/// without.
#[test]
fn a_slab_that_boots_nothing_does_not_settle_the_boot() {
    let s = Survey {
        drives: vec![drive("/dev/sda", 1 << 40, true, Verdict::Mine {
            slab_id: "7661cf8b".into(),
            role: "system".into(),
            slab: "/dev/sda2".into(),
        })
        .with_broken_esp("kernel /vmlinuz named by the loader entry is not on the ESP")],
    };
    match s.intent() {
        Intent::MineButNoneBoots { because } => {
            assert_eq!(because.len(), 1);
            assert!(because[0].contains("/dev/sda"), "{because:?}");
            assert!(because[0].contains("vmlinuz"), "{because:?}");
        }
        other => panic!("expected MineButNoneBoots, got {other:?}"),
    }
    // And it is still not a drive to take: it is already ours.
    assert!(s.available().is_empty());
}

/// A drive the flow-over assimilated: two slabs, no ESP, because the node
/// netboots its kernel and only the slab is local. There is nothing here
/// to check and nothing missing — and calling that "does not boot" would
/// send a node that assimilated perfectly well back to the appliance on
/// every boot for the rest of its life.
#[test]
fn a_flow_over_drive_has_no_esp_and_boots_anyway() {
    let s = Survey {
        drives: vec![
            without_an_esp(drive("/dev/sda", 4 << 40, true, Verdict::Mine {
                slab_id: "data-slab".into(),
                role: "data".into(),
                slab: "/dev/sda1".into(),
            })),
            without_an_esp(drive("/dev/sda", 4 << 40, true, Verdict::Mine {
                slab_id: "system-slab".into(),
                role: "system".into(),
                slab: "/dev/sda2".into(),
            })),
        ],
    };
    match s.intent() {
        Intent::AlreadyMine { slab, slab_id, .. } => {
            assert_eq!(slab_id, "system-slab", "the system half is the one that boots");
            assert_eq!(slab, "/dev/sda2");
        }
        other => panic!("expected AlreadyMine, got {other:?}"),
    }
}

/// The case that makes the distinction earn its keep: the system disk died
/// and the data disk survived. The node owns a slab, the slab is fine, and
/// there is nothing on it to boot.
#[test]
fn a_surviving_data_slab_does_not_pretend_to_be_a_boot_disk() {
    let s = Survey {
        drives: vec![without_an_esp(drive("/dev/sdb", 4 << 40, true, Verdict::Mine {
            slab_id: "data-slab".into(),
            role: "data".into(),
            slab: "/dev/sdb".into(),
        }))],
    };
    assert!(matches!(s.intent(), Intent::MineButNoneBoots { .. }));
}

/// With one of each, the bootable one settles it — and it is picked
/// because it boots, not because of where it sits in the list.
#[test]
fn the_drive_that_boots_is_the_one_chosen() {
    let s = Survey {
        drives: vec![
            drive("/dev/sda", 4 << 40, true, Verdict::Mine {
                slab_id: "data-slab".into(),
                role: "system".into(),
                slab: "/dev/sda".into(),
            })
            .with_broken_esp("no /EFI/BOOT/BOOTX64.EFI"),
            drive("/dev/sdb", 1 << 40, false, Verdict::Mine {
                slab_id: "boot-slab".into(),
                role: "data".into(),
                slab: "/dev/sdb2".into(),
            }),
        ],
    };
    match s.intent() {
        Intent::AlreadyMine { slab_id, slab, .. } => {
            assert_eq!(slab_id, "boot-slab");
            assert_eq!(slab, "/dev/sdb2");
        }
        other => panic!("expected AlreadyMine, got {other:?}"),
    }
}

/// Nowhere to go is not a failure. The node still boots on what the
/// appliance is serving — but it says which drives it looked at and what
/// each one was, because "did not assimilate" and "could not" look the
/// same from outside.
#[test]
fn nowhere_to_go_still_reports_what_it_saw() {
    let s = Survey {
        drives: vec![
            drive("/dev/sda", 1 << 40, true, Verdict::Foreign { what: "ext4".into() }),
            drive("/dev/sdb", 1 << 40, true, Verdict::AnotherNode {
                slab_id: "aaaa".into(),
                owner: "node-7".into(),
            }),
        ],
    };
    match s.intent() {
        Intent::NothingToTake { because } => {
            assert_eq!(because.len(), 2);
            assert!(because[0].contains("/dev/sda"), "{because:?}");
            assert!(because[1].contains("node-7"), "{because:?}");
        }
        other => panic!("expected NothingToTake, got {other:?}"),
    }
}

// ------------------------------------------------------------------ in words
fn mine(id: &str, role: &str, slab: &str) -> Verdict {
    Verdict::Mine { slab_id: id.into(), role: role.into(), slab: slab.into() }
}

#[test]
fn every_verdict_is_told_with_its_evidence() {
    assert_eq!(
        mine("7661cf8b", "data", "/dev/sda2").describe(),
        "mine - stormblock slab 7661cf8b on /dev/sda2 (data)"
    );
    assert_eq!(
        Verdict::AnotherNode { slab_id: "abc".into(), owner: "node-2".into() }.describe(),
        "another node's - slab abc owned by node-2"
    );
    assert_eq!(
        Verdict::Foreign { what: "GPT, 4 partitions".into() }.describe(),
        "not ours - GPT, 4 partitions"
    );
    assert_eq!(Verdict::Blank.describe(), "blank - available");
    assert_eq!(
        Verdict::Unreadable { why: "no medium".into() }.describe(),
        "unreadable - no medium"
    );
}

#[test]
fn only_a_slab_of_ours_is_mine_and_has_a_role() {
    assert!(mine("a", "system", "/dev/sda").is_mine());
    assert_eq!(mine("a", "system", "/dev/sda").slab_role(), Some("system"));
    for v in [
        Verdict::Blank,
        Verdict::Foreign { what: "ext4".into() },
        Verdict::Unreadable { why: "no medium".into() },
        Verdict::AnotherNode { slab_id: "a".into(), owner: "b".into() },
    ] {
        assert!(!v.is_mine());
        assert_eq!(v.slab_role(), None);
    }
}

#[test]
fn why_a_drive_does_not_boot_is_said() {
    let data = without_an_esp(drive("/dev/sda", 1, true, mine("a", "data", "/dev/sda")));
    assert!(!data.boots());
    assert_eq!(data.why_not(), "a data slab, which does not boot a node");

    let blank = without_an_esp(drive("/dev/sda", 1, true, Verdict::Blank));
    assert!(!blank.boots());
    assert_eq!(blank.why_not(), "nothing on it that boots");

    let mut broken = drive("/dev/sda", 1, true, mine("a", "system", "/dev/sda"));
    broken.esp = Some(esp::Esp {
        boot: None,
        claim: None,
        missing: vec!["no kernel".into(), "no initramfs".into()],
    });
    assert!(!broken.boots());
    assert_eq!(broken.why_not(), "no kernel; no initramfs");

    broken.esp = Some(esp::Esp { boot: None, claim: None, missing: vec![] });
    assert_eq!(broken.why_not(), "nothing bootable on its ESP");
}

#[test]
fn what_does_not_boot_is_told_with_its_verdict_and_why() {
    let s = Survey {
        drives: vec![drive("/dev/sda", 1, true, mine("a", "system", "/dev/sda2"))
            .with_broken_esp("no /EFI/BOOT/BOOTX64.EFI")],
    };
    assert_eq!(
        s.intent(),
        Intent::MineButNoneBoots {
            because: vec![
                "/dev/sda mine - stormblock slab a on /dev/sda2 (system) - no /EFI/BOOT/BOOTX64.EFI"
                    .into()
            ]
        }
    );
}

#[test]
fn drives_alike_are_taken_in_the_order_they_were_seen_in() {
    let s = Survey {
        drives: vec![
            drive("/dev/sdb", 7, false, Verdict::Blank),
            drive("/dev/sda", 7, false, Verdict::Blank),
            drive("/dev/sdc", 9, true, Verdict::Foreign { what: "ext4".into() }),
        ],
    };
    let order: Vec<&str> = s.available().iter().map(|d| d.path.as_str()).collect();
    assert_eq!(order, vec!["/dev/sdb", "/dev/sda"]);
}

#[test]
fn owned_drives_are_listed_system_slabs_first() {
    let s = Survey {
        drives: vec![
            drive("/dev/sda", 1, true, mine("a", "data", "/dev/sda")),
            drive("/dev/sdb", 1, true, Verdict::Blank),
            drive("/dev/sdc", 1, true, mine("c", "system", "/dev/sdc")),
            drive("/dev/sdd", 1, true, mine("d", "data", "/dev/sdd")).with_broken_esp("x"),
        ],
    };
    let owned: Vec<&str> = s.mine().iter().map(|d| d.path.as_str()).collect();
    assert_eq!(owned, vec!["/dev/sdc", "/dev/sda", "/dev/sdd"]);
    let boots: Vec<&str> = s.bootable().iter().map(|d| d.path.as_str()).collect();
    assert_eq!(boots, vec!["/dev/sdc", "/dev/sda"]);
}

#[test]
fn a_report_holds_the_evidence_and_the_conclusion() {
    let s = Survey { drives: vec![drive("/dev/sda", 1 << 30, false, Verdict::Blank)] };
    assert_eq!(s.clone(), s);
    assert_eq!(s.report().clone(), s.report());
    let Report { drives, intent } = s.report();
    assert_eq!(drives, s.drives);
    assert_eq!(intent, Intent::TakeOver { path: "/dev/sda".into() });
}

#[test]
fn a_machine_with_no_drives_has_nothing_to_take() {
    let s = Survey { drives: vec![] };
    assert_eq!(s.intent(), Intent::NothingToTake { because: vec![] });
}
