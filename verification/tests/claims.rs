//! Writing a node's name onto a drive.

use zeroboot::claim::{claim, claimant, Claiming};
use zeroboot::esp::{Claim, Esp};

fn esp(held: Option<(&str, &str)>) -> Option<Esp> {
    Some(Esp {
        boot: None,
        claim: held.map(|(node, claimed)| Claim { node: node.into(), claimed: claimed.into() }),
        missing: vec![],
    })
}

fn written(node: &str, claimed: &str) -> Result<Claiming, String> {
    Ok(Claiming::Write(Claim { node: node.into(), claimed: claimed.into() }))
}

#[test]
fn a_drive_nobody_has_claimed_is_claimed() {
    assert_eq!(claim("/dev/sda", "N1", &esp(None), false, "T1"), written("N1", "T1"));
    assert_eq!(
        written("N1", "T1").unwrap().describe("/dev/sda", "N1"),
        "/dev/sda claimed by N1 at T1"
    );
}

#[test]
fn claiming_a_drive_again_writes_nothing() {
    for force in [false, true] {
        assert_eq!(
            claim("/dev/sda", "N1", &esp(Some(("N1", "T0"))), force, "T1"),
            Ok(Claiming::Already)
        );
    }
    assert_eq!(
        Claiming::Already.describe("/dev/sda", "N1"),
        "/dev/sda is already claimed by N1"
    );
}

#[test]
fn a_drive_of_another_node_is_refused_unless_it_is_forced() {
    let held = esp(Some(("N2", "T0")));
    assert_eq!(
        claim("/dev/sda", "N1", &held, false, "T1"),
        Err("/dev/sda is claimed by node N2 (on T0). That claim is what stops a disk changing \
             hands by accident; pass --force to take it anyway."
            .into())
    );
    assert_eq!(claim("/dev/sda", "N1", &held, true, "T1"), written("N1", "T1"));
}

#[test]
fn a_drive_without_an_esp_has_nowhere_to_put_a_claim() {
    assert_eq!(
        claim("/dev/sda", "N1", &None, true, "T1"),
        Err("/dev/sda has no EFI System Partition to claim in - a claim lives on the ESP, so a \
             drive carrying a bare slab has nowhere to put one"
            .into())
    );
}

#[test]
fn a_machine_that_will_not_say_who_it_is_claims_nothing() {
    assert_eq!(claimant(Some("N1".into()), &Some("TAG".into()), "/sys"), Ok("N1".into()));
    assert_eq!(claimant(None, &Some("TAG\n".into()), "/sys"), Ok("TAG".into()));
    assert_eq!(
        claimant(None, &Some("Default string\n".into()), "/sys"),
        Err("this machine will not say who it is - no usable SMBIOS serial in \
             /sys/class/dmi/id/product_serial. Pass --node."
            .into())
    );
}
