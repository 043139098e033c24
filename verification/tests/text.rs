//! Text, held against what the standard library does with it.

use zeroboot::names::{beside, comes_before, file_name, join_path, sort};
use zeroboot::text::{
    ascii_lower, chars_of, contains, find, is_white_space, join, lines, parse_u64, push_decimal,
    split_once, strip_prefix, text_of, trim, words,
};

const SAMPLES: [&str; 16] = [
    "",
    " ",
    "a",
    "  a b  ",
    "\ta\u{a0}b\u{2003}",
    "a\nb\r\nc",
    "a\n\nb\n",
    "\r\n",
    "a\r",
    "one two  three\u{3000}four",
    "key=value=more",
    "/a/b/c",
    "./x/../y/",
    "\u{e9}t\u{e9} na\u{ef}ve",
    "UPPER lower 123",
    "\u{85}next\u{2028}line\u{2029}",
];

fn strings(v: Vec<&[char]>) -> Vec<String> {
    v.into_iter().map(text_of).collect()
}

#[test]
fn white_space_is_what_unicode_says_it_is() {
    for n in 0..=0x10ffffu32 {
        if let Some(c) = char::from_u32(n) {
            assert_eq!(is_white_space(c), c.is_whitespace(), "U+{n:04X}");
        }
    }
}

#[test]
fn text_is_taken_apart_as_the_standard_library_does() {
    for s in SAMPLES {
        let c = chars_of(s);
        assert_eq!(text_of(&c), s);
        assert_eq!(text_of(trim(&c)), s.trim(), "{s:?}");
        assert_eq!(strings(lines(&c)), s.lines().map(str::to_string).collect::<Vec<_>>(), "{s:?}");
        assert_eq!(
            strings(words(&c)),
            s.split_whitespace().map(str::to_string).collect::<Vec<_>>(),
            "{s:?}"
        );
        assert_eq!(text_of(&ascii_lower(&c)), s.to_ascii_lowercase());
        assert_eq!(
            split_once(&c, '=').map(|(a, b)| (text_of(a), text_of(b))),
            s.split_once('=').map(|(a, b)| (a.to_string(), b.to_string()))
        );
        for p in ["", "a", "/a", "\n", "two"] {
            let q = chars_of(p);
            assert_eq!(strip_prefix(&c, &q).map(text_of), s.strip_prefix(p).map(str::to_string));
            assert_eq!(contains(&c, &q), s.contains(p), "{s:?} {p:?}");
            assert_eq!(find(&c, &q), s.find(p).map(|i| s[..i].chars().count()));
        }
    }
}

#[test]
fn numbers_are_written_and_read() {
    for n in [0, 7, 10, 42, 999, 1 << 40, u64::MAX] {
        let mut s = String::from("n=");
        push_decimal(&mut s, n);
        assert_eq!(s, format!("n={n}"));
        assert_eq!(parse_u64(&chars_of(&n.to_string())), Some(n));
    }
    for s in ["", "+", "-1", "1x", "+1", "007", "18446744073709551616", "\u{661}"] {
        assert_eq!(parse_u64(&chars_of(s)), s.parse::<u64>().ok(), "{s:?}");
    }
}

#[test]
fn lists_are_joined() {
    let list: Vec<String> = vec!["a".into(), "b".into(), "c".into()];
    assert_eq!(join(&list, "; "), "a; b; c");
    assert_eq!(join(&vec![], "; "), "");
}

#[test]
fn names_are_put_in_order() {
    let mut names: Vec<String> = ["sdb", "sda10", "sda", "sda1", "\u{e9}", "nvme0n1", "sda", ""]
        .iter()
        .map(|s| s.to_string())
        .collect();
    let sorted = sort(&names);
    names.reverse();
    assert_eq!(sort(&names), sorted);
    names.sort();
    assert_eq!(sorted, names);
    for a in &names {
        for b in &names {
            assert_eq!(comes_before(&chars_of(a), &chars_of(b)), a < b);
        }
    }
}

#[test]
fn paths_are_put_together_as_the_standard_library_does() {
    for base in ["/dev", "/dev/", "", "rel", "/"] {
        for name in ["sda", "", "/abs", "a/b"] {
            assert_eq!(
                join_path(base, name),
                std::path::Path::new(base).join(name).to_string_lossy(),
                "{base:?} {name:?}"
            );
        }
    }
    for p in SAMPLES.iter().copied().chain(["/", ".", "..", "/dev/sda", "/dev/sda/", "a/..", "a/."]) {
        assert_eq!(
            file_name(&chars_of(p)).map(text_of),
            std::path::Path::new(p).file_name().map(|f| f.to_string_lossy().into_owned()),
            "{p:?}"
        );
    }
    let paths = [
        "/dev/sda", "sda", "/sda", "dev/x/sda", "/dev/sda/", "/dev/sda//", "/dev/sda/.",
        "/dev/sda/./", "sda/", "sda/.", "x/..", "x/../", "..", "../", ".", "./", "", "/", "//",
        "/.", "/..", "/sda/", "//sda", "./sda", "././sda/", ".//sda", "/./sda", "a/./sda",
        "a//./sda//", "a/../sda", "/dev/...", "/dev/.hidden", "x.", "a/b.", "/dev/sda/..",
    ];
    for p in paths {
        for name in ["sda1", "/abs", "a/b"] {
            assert_eq!(
                beside(p, name),
                std::path::Path::new(p).with_file_name(name).to_string_lossy(),
                "{p:?} {name:?}"
            );
        }
    }
}
