//! A survey as something to read. A verdict nobody looks at is a verdict nobody
//! checks, and this one decides whether a disk gets formatted.

use vstd::prelude::*;

use crate::esp;
use crate::survey;
use crate::survey::{Drive, Intent, IntentView, Survey};
use crate::text;

verus! {

// ------------------------------------------------------------------- drives
/// A text, or what is put in its place.
pub open spec fn text_or(s: Option<Seq<char>>, otherwise: Seq<char>) -> Seq<char> {
    match s {
        Some(t) => t,
        None => otherwise,
    }
}

/// What kind of drive it is.
pub open spec fn kind_of(rotational: bool) -> Seq<char> {
    if rotational {
        "spinning"@
    } else {
        "solid"@
    }
}

/// The line of a drive: its path, its size in words, its kind, its model and
/// the verdict on it, in columns.
pub open spec fn drive_line(d: Drive, size: Seq<char>) -> Seq<char> {
    text::at_left(d.path@, 14) + " "@ + text::at_right(size, 9) + "  "@ + text::at_left(
        kind_of(d.rotational),
        9,
    ) + " "@ + text::at_left(text_or(text::view_of(d.model), "-"@), 18) + " "@
        + survey::verdict_text(d.verdict@) + "\n"@
}

/// Where what follows under a drive begins.
pub open spec fn margin() -> Seq<char> {
    "                "@
}

/// What is said of a drive's ESP under its line: who has claimed it, and whether
/// it boots.
pub open spec fn esp_lines(e: esp::EspView) -> Seq<char> {
    (match e.claim {
        Some(c) => margin() + "claimed by "@ + c.node + " at "@ + c.claimed + "\n"@,
        None => seq![],
    }) + (match e.boot {
        Some(b) => margin() + "boots "@ + text_or(b.boot_volume, "(no volume named)"@) + " from "@
            + text_or(b.slab_device, "(no slab named)"@) + "\n"@,
        None => if e.missing.len() > 0 {
            margin() + "does not boot: "@ + text::joined(e.missing, "; "@) + "\n"@
        } else {
            seq![]
        },
    })
}

/// Everything that is said of a drive.
pub open spec fn drive_text(d: Drive, size: Seq<char>) -> Seq<char> {
    drive_line(d, size) + match d.esp {
        Some(e) => esp_lines(e@),
        None => seq![],
    }
}

/// Everything that is said of the drives of a list.
pub open spec fn drives_text(s: Seq<Drive>, sizes: Seq<Seq<char>>) -> Seq<char>
    decreases s.len(),
{
    if s.len() == 0 {
        seq![]
    } else {
        drives_text(s.drop_last(), sizes) + drive_text(s.last(), sizes[s.len() - 1])
    }
}

fn push_or(r: &mut String, s: &Option<String>, otherwise: &str)
    ensures
        final(r)@ == old(r)@ + text_or(text::view_of(*s), otherwise@),
{
    match s {
        Some(t) => r.append(t.as_str()),
        None => r.append(otherwise),
    }
}

fn push_drive_line(r: &mut String, d: &Drive, size: &str)
    ensures
        final(r)@ == old(r)@ + drive_line(*d, size@),
{
    text::push_at_left(r, d.path.as_str(), 14);
    r.append(" ");
    text::push_at_right(r, size, 9);
    r.append("  ");
    let kind = if d.rotational {
        "spinning"
    } else {
        "solid"
    };
    text::push_at_left(r, kind, 9);
    r.append(" ");
    let mut model = String::new();
    push_or(&mut model, &d.model, "-");
    assert(model@ == text_or(text::view_of(d.model), "-"@));
    text::push_at_left(r, model.as_str(), 18);
    r.append(" ");
    r.append(d.verdict.describe().as_str());
    r.append("\n");
    assert(r@ == old(r)@ + drive_line(*d, size@));
}

fn push_esp_lines(r: &mut String, e: &esp::Esp)
    ensures
        final(r)@ == old(r)@ + esp_lines(e@),
{
    let ghost start = r@;
    if let Some(c) = &e.claim {
        r.append("                ");
        r.append("claimed by ");
        r.append(c.node.as_str());
        r.append(" at ");
        r.append(c.claimed.as_str());
        r.append("\n");
    }
    let ghost claimed = match e@.claim {
        Some(c) => margin() + "claimed by "@ + c.node + " at "@ + c.claimed + "\n"@,
        None => seq![],
    };
    assert(r@ == start + claimed);
    match &e.boot {
        Some(b) => {
            r.append("                ");
            r.append("boots ");
            push_or(r, &b.boot_volume, "(no volume named)");
            r.append(" from ");
            push_or(r, &b.slab_device, "(no slab named)");
            r.append("\n");
        },
        None => {
            if e.missing.len() > 0 {
                r.append("                ");
                r.append("does not boot: ");
                r.append(text::join(&e.missing, "; ").as_str());
                r.append("\n");
            }
        },
    }
    assert(r@ == start + esp_lines(e@));
}

// ------------------------------------------------------------------ intents
/// The lines of a list, each set in.
pub open spec fn set_in(lines: Seq<Seq<char>>) -> Seq<char>
    decreases lines.len(),
{
    if lines.len() == 0 {
        seq![]
    } else {
        set_in(lines.drop_last()) + "  "@ + lines.last() + "\n"@
    }
}

/// What is said of what follows from a survey.
pub open spec fn intent_text(intent: IntentView) -> Seq<char> {
    match intent {
        IntentView::AlreadyMine { drive, slab, slab_id } =>
            "already assimilated - would boot slab "@ + slab_id + " on "@ + slab + " ("@ + drive
                + ")\n"@,
        IntentView::TakeOver { path } => "would take "@ + path + "\n"@,
        IntentView::MineButNoneBoots { because } =>
            "ours, but nothing here boots - would ask the appliance:\n"@ + set_in(because),
        IntentView::NothingToTake { because } => "nothing to take:\n"@ + set_in(because),
    }
}

fn push_set_in(r: &mut String, lines: &Vec<String>)
    ensures
        final(r)@ == old(r)@ + set_in(text::texts(lines@)),
{
    let ghost all = text::texts(lines@);
    let mut i: usize = 0;
    assert(r@ == old(r)@ + set_in(all.take(0)));
    while i < lines.len()
        invariant
            i <= lines.len(),
            all == text::texts(lines@),
            r@ == old(r)@ + set_in(all.take(i as int)),
        decreases lines.len() - i,
    {
        assert(all.take(i + 1).drop_last() == all.take(i as int));
        r.append("  ");
        r.append(lines[i].as_str());
        r.append("\n");
        assert(r@ == old(r)@ + set_in(all.take(i + 1)));
        i = i + 1;
    }
    assert(all.take(i as int) == all);
}

fn push_intent(r: &mut String, intent: &Intent)
    ensures
        final(r)@ == old(r)@ + intent_text(intent@),
{
    match intent {
        Intent::AlreadyMine { drive, slab, slab_id } => {
            r.append("already assimilated - would boot slab ");
            r.append(slab_id.as_str());
            r.append(" on ");
            r.append(slab.as_str());
            r.append(" (");
            r.append(drive.as_str());
            r.append(")\n");
        },
        Intent::TakeOver { path } => {
            r.append("would take ");
            r.append(path.as_str());
            r.append("\n");
        },
        Intent::MineButNoneBoots { because } => {
            r.append("ours, but nothing here boots - would ask the appliance:\n");
            push_set_in(r, because);
        },
        Intent::NothingToTake { because } => {
            r.append("nothing to take:\n");
            push_set_in(r, because);
        },
    }
    assert(r@ == old(r)@ + intent_text(intent@));
}

/// Writes a survey out for somebody to read: every drive, an empty line, and
/// what follows. The sizes of the drives are given in words.
pub fn listing(s: &Survey, sizes: &Vec<String>) -> (r: String)
    requires
        sizes@.len() == s.drives@.len(),
    ensures
        r@ == drives_text(s.drives@, text::texts(sizes@)) + "\n"@ + intent_text(
            survey::intent_of(s.drives@),
        ),
{
    let drives = &s.drives;
    let ghost all = drives@;
    let ghost words = text::texts(sizes@);
    let mut r = String::new();
    let mut i: usize = 0;
    assert(r@ == drives_text(all.take(0), words));
    while i < drives.len()
        invariant
            i <= drives.len(),
            all == drives@,
            words == text::texts(sizes@),
            sizes@.len() == drives@.len(),
            r@ == drives_text(all.take(i as int), words),
        decreases drives.len() - i,
    {
        let d = &drives[i];
        let ghost before = r@;
        assert(all.take(i + 1).drop_last() == all.take(i as int));
        push_drive_line(&mut r, d, sizes[i].as_str());
        if let Some(e) = &d.esp {
            push_esp_lines(&mut r, e);
        }
        assert(r@ == before + drive_text(*d, words[i as int]));
        i = i + 1;
    }
    assert(all.take(i as int) == all);
    r.append("\n");
    push_intent(&mut r, &s.intent());
    r
}

// -------------------------------------------------------------------- laws
/// The line of a drive holds, each in its own column, its path, its size, what
/// kind it is, its model and the verdict, and ends there.
pub proof fn law_the_columns_of_a_drive(d: Drive, size: Seq<char>)
    requires
        d.path@.len() <= 14,
        size.len() <= 9,
        d.model matches Some(m) ==> m@.len() <= 18,
    ensures
        ({
            let line = drive_line(d, size);
            let kind = line.subrange(26, 35);
            let model = line.subrange(36, 54);
            &&& line.len() == 56 + survey::verdict_text(d.verdict@).len()
            &&& line.take(d.path@.len() as int) == d.path@
            &&& forall|i: int| d.path@.len() <= i < 15 ==> line[i] == ' '
            &&& forall|i: int| 15 <= i < 24 - size.len() ==> line[i] == ' '
            &&& line.subrange(24 - size.len(), 24) == size
            &&& line[24] == ' ' && line[25] == ' ' && line[35] == ' ' && line[54] == ' '
            &&& d.rotational ==> kind == "spinning "@
            &&& !d.rotational ==> kind == "solid    "@
            &&& d.model matches Some(m) ==> model.take(m@.len() as int) == m@ && forall|i: int|
                m@.len() <= i < 18 ==> model[i] == ' '
            &&& d.model is None ==> model == "-                 "@
            &&& line.subrange(55, line.len() - 1) == survey::verdict_text(d.verdict@)
            &&& line.last() == '\n'
        }),
{
    reveal_strlit(" ");
    reveal_strlit("  ");
    reveal_strlit("-");
    reveal_strlit("\n");
    reveal_strlit("spinning");
    reveal_strlit("spinning ");
    reveal_strlit("solid");
    reveal_strlit("solid    ");
    reveal_strlit("-                 ");
    let path = text::at_left(d.path@, 14);
    let words = text::at_right(size, 9);
    let kind = text::at_left(kind_of(d.rotational), 9);
    let named = text_or(text::view_of(d.model), "-"@);
    let model = text::at_left(named, 18);
    let verdict = survey::verdict_text(d.verdict@);
    text::law_a_column_keeps_its_text(d.path@, 14);
    text::law_a_column_keeps_its_text(size, 9);
    text::law_a_column_keeps_its_text(kind_of(d.rotational), 9);
    text::law_a_column_keeps_its_text(named, 18);
    assert(path.len() == 14 && words.len() == 9 && kind.len() == 9 && model.len() == 18);
    let line = drive_line(d, size);
    lemma_columns(path, words, kind, model, verdict);
    assert(line.take(d.path@.len() as int) == path.take(d.path@.len() as int));
    assert forall|i: int| d.path@.len() <= i < 15 implies line[i] == ' ' by {
        if i < 14 {
            assert(line[i] == path[i]);
        }
    }
    assert forall|i: int| 15 <= i < 24 - size.len() implies line[i] == ' ' by {
        assert(line[i] == words[i - 15]);
    }
    assert(line.subrange(24 - size.len(), 24) == words.skip(9 - size.len()));
    assert(line.subrange(26, 35) == kind);
    assert(line.subrange(36, 54) == model);
    assert(kind == if d.rotational {
        "spinning "@
    } else {
        "solid    "@
    });
    if d.model is None {
        assert(model == "-                 "@);
    }
}

proof fn lemma_columns(
    a: Seq<char>,
    b: Seq<char>,
    c: Seq<char>,
    d: Seq<char>,
    e: Seq<char>,
)
    requires
        a.len() == 14,
        b.len() == 9,
        c.len() == 9,
        d.len() == 18,
    ensures
        ({
            let line = a + " "@ + b + "  "@ + c + " "@ + d + " "@ + e + "\n"@;
            &&& line.len() == 56 + e.len()
            &&& line.take(14) == a
            &&& line[14] == ' '
            &&& line.subrange(15, 24) == b
            &&& line[24] == ' ' && line[25] == ' '
            &&& line.subrange(26, 35) == c
            &&& line[35] == ' '
            &&& line.subrange(36, 54) == d
            &&& line[54] == ' '
            &&& line.subrange(55, line.len() - 1) == e
            &&& line.last() == '\n'
        }),
{
    reveal_strlit(" ");
    reveal_strlit("  ");
    reveal_strlit("\n");
    let line = a + " "@ + b + "  "@ + c + " "@ + d + " "@ + e + "\n"@;
    assert(line.take(14) == a);
    assert(line.subrange(15, 24) == b);
    assert(line.subrange(26, 35) == c);
    assert(line.subrange(36, 54) == d);
    assert(line.subrange(55, line.len() - 1) == e);
}

/// What is said under a drive: who has claimed it and when, when anyone has; and
/// what it boots from where, or what it lacks, when anything is known of that.
pub proof fn law_what_is_said_of_an_esp(e: esp::EspView)
    ensures
        ({
            let claimed = match e.claim {
                Some(c) => "                claimed by "@ + c.node + " at "@ + c.claimed + "\n"@,
                None => seq![],
            };
            let on = |v: Seq<char>, s: Seq<char>|
                claimed + ("                boots "@ + v + " from "@ + s + "\n"@);
            &&& e.boot is None && e.missing.len() == 0 ==> esp_lines(e) == claimed
            &&& e.boot is None && e.missing.len() > 0 ==> esp_lines(e) == claimed + (
            "                does not boot: "@ + text::joined(e.missing, "; "@) + "\n"@)
            &&& e.boot matches Some(b) ==> {
                &&& b.boot_volume is Some && b.slab_device is Some ==> esp_lines(e) == on(
                    b.boot_volume->0,
                    b.slab_device->0,
                )
                &&& b.boot_volume is None && b.slab_device is Some ==> esp_lines(e) == on(
                    "(no volume named)"@,
                    b.slab_device->0,
                )
                &&& b.boot_volume is Some && b.slab_device is None ==> esp_lines(e) == on(
                    b.boot_volume->0,
                    "(no slab named)"@,
                )
                &&& b.boot_volume is None && b.slab_device is None ==> esp_lines(e) == on(
                    "(no volume named)"@,
                    "(no slab named)"@,
                )
            }
        }),
{
    reveal_strlit("                ");
    reveal_strlit("claimed by ");
    reveal_strlit("                claimed by ");
    reveal_strlit("boots ");
    reveal_strlit("                boots ");
    reveal_strlit("does not boot: ");
    reveal_strlit("                does not boot: ");
    assert("                "@ + "claimed by "@ == "                claimed by "@);
    assert("                "@ + "boots "@ == "                boots "@);
    assert("                "@ + "does not boot: "@ == "                does not boot: "@);
    let claimed: Seq<char> = match e.claim {
        Some(c) => "                claimed by "@ + c.node + " at "@ + c.claimed + "\n"@,
        None => seq![],
    };
    assert(claimed + Seq::<char>::empty() == claimed);
}

/// The drives are told one after the other, each with its own size, in the order
/// in which they were seen.
pub proof fn law_the_drives_are_told_in_order(
    s: Seq<Drive>,
    d: Drive,
    sizes: Seq<Seq<char>>,
    size: Seq<char>,
)
    requires
        sizes.len() == s.len(),
    ensures
        drives_text(s.push(d), sizes.push(size)) == drives_text(s, sizes) + drive_line(d, size) + (
        match d.esp {
            Some(e) => esp_lines(e@),
            None => seq![],
        }),
        drives_text(seq![], seq![]) == Seq::<char>::empty(),
{
    assert(s.push(d).drop_last() == s);
    lemma_sizes_after(s, sizes, sizes.push(size));
    let rest: Seq<char> = match d.esp {
        Some(e) => esp_lines(e@),
        None => seq![],
    };
    assert(drives_text(s, sizes) + (drive_line(d, size) + rest) == drives_text(s, sizes)
        + drive_line(d, size) + rest);
}

/// Only the sizes of the drives that are told matter.
proof fn lemma_sizes_after(s: Seq<Drive>, a: Seq<Seq<char>>, b: Seq<Seq<char>>)
    requires
        forall|i: int| 0 <= i < s.len() ==> a[i] == b[i],
    ensures
        drives_text(s, a) == drives_text(s, b),
    decreases s.len(),
{
    if s.len() > 0 {
        lemma_sizes_after(s.drop_last(), a, b);
    }
}

/// What follows from a survey is told by what it names, and a list of reasons one
/// to a line, set in.
pub proof fn law_what_follows_is_told(
    drive: Seq<char>,
    slab: Seq<char>,
    slab_id: Seq<char>,
    because: Seq<Seq<char>>,
    line: Seq<char>,
)
    ensures
        intent_text(IntentView::AlreadyMine { drive, slab, slab_id })
            == "already assimilated - would boot slab "@ + slab_id + " on "@ + slab + " ("@ + drive
            + ")\n"@,
        intent_text(IntentView::TakeOver { path: drive }) == "would take "@ + drive + "\n"@,
        intent_text(IntentView::MineButNoneBoots { because: seq![] })
            == "ours, but nothing here boots - would ask the appliance:\n"@,
        intent_text(IntentView::NothingToTake { because: seq![] }) == "nothing to take:\n"@,
        intent_text(IntentView::MineButNoneBoots { because: because.push(line) }) == intent_text(
            IntentView::MineButNoneBoots { because },
        ) + "  "@ + line + "\n"@,
        intent_text(IntentView::NothingToTake { because: because.push(line) }) == intent_text(
            IntentView::NothingToTake { because },
        ) + "  "@ + line + "\n"@,
{
    let none = Seq::<Seq<char>>::empty();
    assert(set_in(none) == Seq::<char>::empty());
    assert(because.push(line).drop_last() == because);
    assert(because.push(line).last() == line);
    let a = "ours, but nothing here boots - would ask the appliance:\n"@;
    let b = "nothing to take:\n"@;
    assert(a + set_in(none) == a);
    assert(b + set_in(none) == b);
    assert(a + (set_in(because) + "  "@ + line + "\n"@) == a + set_in(because) + "  "@ + line
        + "\n"@);
    assert(b + (set_in(because) + "  "@ + line + "\n"@) == b + set_in(because) + "  "@ + line
        + "\n"@);
}

} // verus!
