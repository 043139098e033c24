//! What a boot is told, and what a shell makes of it.

use zeroboot::boot::{boot, script, shell_quote, BootPlan, Variable};
use zeroboot::esp::{Boot, Claim, Esp};
use zeroboot::survey::{Drive, Survey, Verdict};

fn drive(verdict: Verdict, esp: Option<Esp>) -> Drive {
    Drive {
        path: "/dev/sda".into(),
        size_bytes: 1 << 30,
        rotational: true,
        model: Some("WDC WD20 'EFAX'".into()),
        wwid: None,
        serial: None,
        table: None,
        esp,
        verdict,
    }
}

fn boots(claim: Option<Claim>) -> Option<Esp> {
    Some(Esp {
        boot: Some(Boot {
            cmdline: "stormblock.volume=boot-cp-01".into(),
            slab_device: Some("/dev/sda2".into()),
            boot_volume: Some("boot-cp-01".into()),
        }),
        claim,
        missing: vec![],
    })
}

fn system() -> Verdict {
    Verdict::Mine { slab_id: "7661".into(), role: "system".into(), slab: "/dev/sda2".into() }
}

fn me() -> Option<String> {
    Some("R230-SVCTAG".into())
}

fn plan(d: Drive, me: &Option<String>) -> BootPlan {
    boot(&Survey { drives: vec![d] }, me, "2026-09-08T12:00:00Z")
}

/// What a shell reads in a word of single quoted and escaped parts.
fn shell_reads(word: &str) -> Option<String> {
    let mut out = String::new();
    let mut inside = false;
    let mut chars = word.chars();
    while let Some(c) = chars.next() {
        match (c, inside) {
            ('\'', _) => inside = !inside,
            (c, true) => out.push(c),
            ('\\', false) => out.push(chars.next()?),
            (_, false) => return None,
        }
    }
    if inside { None } else { Some(out) }
}

/// Every line must be a `KEY='value'` a shell can evaluate, and nothing else.
#[test]
fn stdout_is_only_shell_assignments() {
    let p = plan(drive(system(), boots(None)), &me());
    let stdout = script(&p.variables);

    assert!(!stdout.trim().is_empty(), "it must say something");
    for line in stdout.lines() {
        let (k, v) = line.split_once('=').unwrap_or_else(|| panic!("not an assignment: {line:?}"));
        assert!(
            k.starts_with("ZB_") && k.chars().all(|c| c.is_ascii_uppercase() || c == '_'),
            "not a key: {k:?}"
        );
        assert!(v.starts_with('\'') && v.ends_with('\''), "not quoted: {line:?}");
    }
    assert_eq!(p.exit, 0, "a disk of ours that boots is exit 0");
    assert!(stdout.contains("ZB_ACTION='boot-local'"), "{stdout}");
    assert!(stdout.contains("ZB_VOLUME='boot-cp-01'"), "{stdout}");
    assert!(stdout.contains("/dev/sda2'"), "the slab device init boots: {stdout}");
}

/// Nothing of ours boots: exit 2, and a reason carried whole through the shell.
#[test]
fn nothing_of_ours_asks_the_appliance() {
    let foreign = Verdict::Foreign { what: "it's, a \"disk\"; $HOME `x` \\ & more".into() };
    let p = plan(drive(foreign, None), &me());
    let stdout = script(&p.variables);

    assert_eq!(p.exit, 2);
    assert!(stdout.contains("ZB_ACTION='ask-appliance'"), "{stdout}");
    let quoted = stdout
        .lines()
        .find_map(|l| l.strip_prefix("ZB_REASON="))
        .expect("a reason is given");
    assert_eq!(
        shell_reads(quoted).as_deref(),
        Some("/dev/sda not ours - it's, a \"disk\"; $HOME `x` \\ & more"),
        "the reason survives the shell whole"
    );
}

/// A boot claims the drive it boots, because there is no operator in a boot.
#[test]
fn booting_a_drive_claims_it() {
    let p = plan(drive(system(), boots(None)), &me());
    assert_eq!(
        p.claim,
        Some((
            "/dev/sda".to_string(),
            Claim { node: "R230-SVCTAG".into(), claimed: "2026-09-08T12:00:00Z".into() }
        ))
    );
}

#[test]
fn a_boot_never_writes_over_a_claim() {
    let held = |node: &str| Some(Claim { node: node.into(), claimed: "T".into() });
    assert_eq!(plan(drive(system(), boots(held("R230-SVCTAG"))), &me()).claim, None);
    assert_eq!(plan(drive(system(), boots(held("other"))), &me()).claim, None);
    // Nobody to claim it for, nowhere to put it, nothing booted.
    assert_eq!(plan(drive(system(), boots(None)), &None).claim, None);
    assert_eq!(plan(drive(system(), None), &me()).claim, None);
    assert_eq!(plan(drive(Verdict::Blank, boots(None)), &me()).claim, None);
}

#[test]
fn a_slab_without_an_esp_boots_with_no_volume_named() {
    let p = plan(drive(system(), None), &me());
    assert_eq!(
        script(&p.variables),
        "ZB_ACTION='boot-local'\nZB_SLAB='/dev/sda2'\nZB_VOLUME=''\n"
    );
}

#[test]
fn the_reasons_for_asking_are_told() {
    let broken = Some(Esp { boot: None, claim: None, missing: vec!["no kernel".into()] });
    let said = |d: Drive| plan(d, &me()).variables[1].value.clone();
    assert_eq!(
        said(drive(system(), broken)),
        "/dev/sda mine - stormblock slab 7661 on /dev/sda2 (system) - no kernel"
    );
    assert_eq!(said(drive(Verdict::Blank, None)), "would take /dev/sda");
    let two = Survey {
        drives: vec![
            drive(Verdict::Unreadable { why: "a".into() }, None),
            drive(Verdict::Unreadable { why: "b".into() }, None),
        ],
    };
    assert_eq!(
        boot(&two, &None, "T").variables[1].value,
        "/dev/sda unreadable - a; /dev/sda unreadable - b"
    );
}

#[test]
fn what_is_quoted_is_read_back() {
    assert_eq!(shell_quote(""), "''");
    assert_eq!(shell_quote("a b"), "'a b'");
    assert_eq!(shell_quote("it's"), "'it'\\''s'");
    for s in ["", "'", "''", "a'b'c", "\\", "$(x) \"y\" #z\n", "\u{e9}"] {
        assert_eq!(shell_reads(&shell_quote(s)).as_deref(), Some(s));
    }
    let list = vec![
        Variable { key: "ZB_A".into(), value: "1".into() },
        Variable { key: "ZB_B".into(), value: "x'y".into() },
    ];
    assert_eq!(script(&list), "ZB_A='1'\nZB_B='x'\\''y'\n");
}

#[test]
fn every_line_of_a_boot_assigns_its_variable() {
    let missing = vec!["kernel /a=b named by the loader entry is not on the ESP".to_string()];
    let broken = Some(Esp { boot: None, claim: None, missing });
    for d in [
        drive(system(), boots(None)),
        drive(system(), broken),
        drive(Verdict::Blank, None),
        drive(Verdict::Foreign { what: "it's = a 'disk'".into() }, None),
    ] {
        let p = plan(d, &me());
        let out = script(&p.variables);
        assert_eq!(out.lines().count(), p.variables.len());
        for (line, v) in out.lines().zip(&p.variables) {
            let (key, value) = line.split_once('=').unwrap();
            assert_eq!(key, v.key);
            assert_eq!(shell_reads(value), Some(v.value.clone()));
        }
    }
}

/// A line feed in what a drive says does not make a second line.
#[test]
fn a_line_feed_in_what_a_boot_is_told_is_a_space() {
    let foreign = Verdict::Foreign { what: "removable media (A\necho hello\n)".into() };
    let p = plan(drive(foreign, None), &me());
    assert_eq!(
        script(&p.variables),
        "ZB_ACTION='ask-appliance'\nZB_REASON='/dev/sda not ours - removable media (A echo hello )'\n"
    );

    let mine = Verdict::Mine { slab_id: "i".into(), role: "system".into(), slab: "/dev/s\nda".into() };
    let mut esp = boots(None);
    esp.as_mut().unwrap().boot.as_mut().unwrap().boot_volume = Some("a\n\nb".into());
    let p = plan(drive(mine, esp), &me());
    assert_eq!(
        script(&p.variables),
        "ZB_ACTION='boot-local'\nZB_SLAB='/dev/s da'\nZB_VOLUME='a  b'\n"
    );
    // What is quoted on its own is left as it is.
    assert_eq!(shell_quote("a\nb"), "'a\nb'");
}
