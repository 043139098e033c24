//! What stormblock says of a device.

use zeroboot::probe::{identify_slab, parse_slab_line, slab_listed};

const ID: &str = "7661cf8b-1c4f-4a2e-9f11-7d3b5a2c8e60";

fn named(role: &str) -> Option<(String, String)> {
    Some((ID.to_string(), role.to_string()))
}

#[test]
fn a_slab_line_is_parsed_and_anything_else_is_not() {
    assert_eq!(
        parse_slab_line(
            "/dev/sdb: slab 7661cf8b-1c4f-4a2e-9f11-7d3b5a2c8e60 (role=data, tier=hot, 4096 slots, 3900 free)"
        ),
        Some((
            "7661cf8b-1c4f-4a2e-9f11-7d3b5a2c8e60".to_string(),
            "data".to_string()
        ))
    );
    assert_eq!(parse_slab_line("/dev/sda: not a slab (bad slab magic)"), None);
    assert_eq!(parse_slab_line("/dev/sda: cannot open (No medium found (os error 123))"), None);
    assert_eq!(parse_slab_line("/dev/sda: slab short"), None);
    assert_eq!(parse_slab_line(""), None);
}

#[test]
fn a_role_ends_at_a_comma_or_a_bracket_and_may_be_unknown() {
    assert_eq!(parse_slab_line(&format!("x: slab {ID} (role=system)")), named("system"));
    assert_eq!(parse_slab_line(&format!("x: slab {ID} (role= a b ,c)")), named("a b"));
    assert_eq!(parse_slab_line(&format!("x: slab {ID} (role=, tier=hot)")), named("unknown"));
    assert_eq!(parse_slab_line(&format!("x: slab {ID}")), named("unknown"));
    assert_eq!(parse_slab_line(&format!("x: slab {ID} role=data")), named("data"));
    // One character more than a UUID has is not a UUID.
    assert_eq!(parse_slab_line(&format!("x: slab {ID}0 (role=data)")), None);
}

#[test]
fn the_first_line_that_names_a_slab_counts() {
    let out = format!("noise\r\nx: not a slab\nx: slab {ID} (role=data)\ny: slab {ID} (role=b)\n");
    assert_eq!(slab_listed(&out), named("data"));
    assert_eq!(slab_listed("nothing here\n"), None);
}

#[test]
fn bytes_that_are_not_text_do_not_hide_a_slab() {
    let mut out = vec![0xff, 0xfe, b'\n'];
    out.extend_from_slice(format!("x: slab {ID} (role=da").as_bytes());
    out.push(0xff);
    out.extend_from_slice(b"ta)\n");
    assert_eq!(identify_slab(&out), named("da\u{fffd}ta"));
    assert_eq!(identify_slab(format!("x: slab {ID} (role=\u{e9}t\u{e9})\n").as_bytes()), named("\u{e9}t\u{e9}"));
    assert_eq!(identify_slab(&[]), None);
}
