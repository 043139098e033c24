//! A survey as something to read.

use zeroboot::esp::{Boot, Claim, Esp};
use zeroboot::listing::listing;
use zeroboot::survey::{Drive, Survey, Verdict};

fn drive(path: &str, rotational: bool, model: Option<&str>, verdict: Verdict) -> Drive {
    Drive {
        path: path.into(),
        size_bytes: 0,
        rotational,
        model: model.map(str::to_string),
        wwid: None,
        serial: None,
        table: None,
        esp: None,
        verdict,
    }
}

fn sizes(list: &[&str]) -> Vec<String> {
    list.iter().map(|s| s.to_string()).collect()
}

#[test]
fn a_machine_with_nothing_to_take_is_told_of_drive_by_drive() {
    let s = Survey {
        drives: vec![
            drive(
                "/dev/sda",
                true,
                Some("WDC WD20EFAX-68F"),
                Verdict::Foreign { what: "GPT, 4 partitions".into() },
            ),
            drive(
                "/dev/sdb",
                true,
                Some("Virtual Floppy"),
                Verdict::Unreadable { why: "no medium (reports zero sectors)".into() },
            ),
        ],
    };
    let expect = format!(
        "{:<14} {:>9}  {:<9} {:<18} {}\n{:<14} {:>9}  {:<9} {:<18} {}\n\nnothing to take:\n  {}\n  {}\n",
        "/dev/sda",
        "2.00 TB",
        "spinning",
        "WDC WD20EFAX-68F",
        "not ours - GPT, 4 partitions",
        "/dev/sdb",
        "0 B",
        "spinning",
        "Virtual Floppy",
        "unreadable - no medium (reports zero sectors)",
        "/dev/sda not ours - GPT, 4 partitions",
        "/dev/sdb unreadable - no medium (reports zero sectors)",
    );
    assert_eq!(listing(&s, &sizes(&["2.00 TB", "0 B"])), expect);
}

#[test]
fn what_an_esp_says_stands_under_its_drive() {
    let mine = Verdict::Mine { slab_id: "id".into(), role: "system".into(), slab: "/dev/sda2".into() };
    let mut d = drive("/dev/sda", false, None, mine);
    d.esp = Some(Esp {
        boot: Some(Boot {
            cmdline: String::new(),
            slab_device: None,
            boot_volume: Some("boot-cp-01".into()),
        }),
        claim: Some(Claim { node: "N1".into(), claimed: "T1".into() }),
        missing: vec![],
    });
    let said = listing(&Survey { drives: vec![d.clone()] }, &sizes(&["1.00 GB"]));
    let lines: Vec<&str> = said.lines().collect();
    assert_eq!(
        lines,
        vec![
            "/dev/sda         1.00 GB  solid     -                  mine - stormblock slab id on /dev/sda2 (system)",
            "                claimed by N1 at T1",
            "                boots boot-cp-01 from (no slab named)",
            "",
            "already assimilated - would boot slab id on /dev/sda2 (/dev/sda)",
        ]
    );

    d.esp = Some(Esp { boot: None, claim: None, missing: vec!["a".into(), "b".into()] });
    let said = listing(&Survey { drives: vec![d] }, &sizes(&["1.00 GB"]));
    let lines: Vec<&str> = said.lines().collect();
    assert_eq!(lines[1], "                does not boot: a; b");
    assert_eq!(lines[3], "ours, but nothing here boots - would ask the appliance:");
    assert_eq!(
        lines[4],
        "  /dev/sda mine - stormblock slab id on /dev/sda2 (system) - a; b"
    );
}

#[test]
fn a_drive_to_take_is_named() {
    let s = Survey { drives: vec![drive("/dev/nvme0n1", false, None, Verdict::Blank)] };
    assert!(listing(&s, &sizes(&["1 B"])).ends_with("\n\nwould take /dev/nvme0n1\n"));
}
