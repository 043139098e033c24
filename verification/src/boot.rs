//! What a boot is told.
//!
//! The initramfs evaluates what is written here in a shell and branches on the
//! exit code. That makes the output an interface with a shell on the other end
//! of it, and the failure mode is not a wrong answer: it is PID 1 executing a
//! line that was meant to be a log message. So every line is a `KEY='value'`
//! that a shell can evaluate, and nothing else.

use vstd::prelude::*;

use crate::claim;
use crate::claim::Claiming;
use crate::esp::{Claim, ClaimView};
use crate::survey;
use crate::survey::{Drive, Intent, IntentView, Survey};
use crate::text;

verus! {

// ----------------------------------------------------------------- quoting
/// A text with every single quote closed, escaped and opened again.
pub open spec fn escaped(s: Seq<char>) -> Seq<char>
    decreases s.len(),
{
    if s.len() == 0 {
        seq![]
    } else if s.last() == '\'' {
        escaped(s.drop_last()) + seq!['\'', '\\', '\'', '\'']
    } else {
        escaped(s.drop_last()).push(s.last())
    }
}

/// A text as one word of a shell script.
pub open spec fn quoted(s: Seq<char>) -> Seq<char> {
    seq!['\''] + escaped(s) + seq!['\'']
}

/// Writes a text as one word of a shell script.
pub fn shell_quote(s: &str) -> (r: String)
    ensures
        r@ == quoted(s@),
{
    let chars = text::chars_of(s);
    let mut r = String::new();
    r.push('\'');
    let mut i: usize = 0;
    assert(r@ == seq!['\''] + escaped(s@.take(0)));
    while i < chars.len()
        invariant
            i <= chars.len(),
            chars@ == s@,
            r@ == seq!['\''] + escaped(s@.take(i as int)),
        decreases chars.len() - i,
    {
        assert(s@.take(i + 1).drop_last() == s@.take(i as int));
        assert(s@.take(i + 1).last() == s@[i as int]);
        if chars[i] == '\'' {
            r.push('\'');
            r.push('\\');
            r.push('\'');
            r.push('\'');
        } else {
            r.push(chars[i]);
        }
        assert(r@ == seq!['\''] + escaped(s@.take(i + 1)));
        i = i + 1;
    }
    assert(s@.take(i as int) == s@);
    r.push('\'');
    assert(r@ == quoted(s@));
    r
}

/// What a shell reads in a word that is made of single quoted parts and of
/// characters with a backslash before them. Anything else in a word would mean
/// something to the shell; nothing is read in such a word.
pub open spec fn shell_reads(s: Seq<char>, inside: bool) -> Option<Seq<char>>
    decreases s.len(),
{
    if s.len() == 0 {
        if inside {
            None
        } else {
            Some(seq![])
        }
    } else if s.first() == '\'' {
        shell_reads(s.drop_first(), !inside)
    } else if inside {
        match shell_reads(s.drop_first(), true) {
            Some(t) => Some(seq![s.first()] + t),
            None => None,
        }
    } else if s.first() == '\\' && s.len() >= 2 && s[1] != '\n' {
        match shell_reads(s.skip(2), false) {
            Some(t) => Some(seq![s[1]] + t),
            None => None,
        }
    } else {
        None
    }
}

proof fn lemma_shell_reads_on(s: Seq<char>, rest: Seq<char>)
    ensures
        shell_reads(escaped(s) + rest, true) == match shell_reads(rest, true) {
            Some(t) => Some(s + t),
            None => None,
        },
    decreases s.len(),
{
    if s.len() == 0 {
        assert(escaped(s) + rest == rest);
        if let Some(t) = shell_reads(rest, true) {
            assert(s + t == t);
        }
    } else {
        let c = s.last();
        let front = s.drop_last();
        let tail = if c == '\'' {
            seq!['\'', '\\', '\'', '\''] + rest
        } else {
            seq![c] + rest
        };
        assert(escaped(s) + rest == escaped(front) + tail);
        lemma_shell_reads_on(front, tail);
        if c == '\'' {
            let t1 = tail.drop_first();
            let t2 = t1.skip(2);
            assert(t1 == seq!['\\', '\'', '\''] + rest);
            assert(t2 == seq!['\''] + rest);
            assert(t2.drop_first() == rest);
            assert(shell_reads(t2, false) == shell_reads(rest, true));
            assert(tail.first() == '\'');
            assert(shell_reads(tail, true) == shell_reads(t1, false));
            assert(t1.first() == '\\' && t1[1] == '\'');
            assert(shell_reads(t1, false) == match shell_reads(t2, false) {
                Some(t) => Some(seq![t1[1]] + t),
                None => None,
            });
        } else {
            assert(tail.first() == c);
            assert(tail.drop_first() == rest);
            assert(shell_reads(tail, true) == match shell_reads(rest, true) {
                Some(t) => Some(seq![c] + t),
                None => None,
            });
        }
        if let Some(t) = shell_reads(rest, true) {
            assert(shell_reads(tail, true) == Some(seq![c] + t));
            assert(front + (seq![c] + t) == s + t);
        }
    }
}

/// What is quoted survives the shell whole, whatever is in it.
pub proof fn law_what_is_quoted_survives_the_shell(s: Seq<char>)
    ensures
        shell_reads(quoted(s), false) == Some(s),
{
    let end = seq!['\''];
    assert(quoted(s).drop_first() == escaped(s) + end);
    lemma_shell_reads_on(s, end);
    assert(end.drop_first() == Seq::<char>::empty());
    assert(shell_reads(end.drop_first(), false) == Some(Seq::<char>::empty()));
    assert(s + Seq::<char>::empty() == s);
}

// ------------------------------------------------------------- assignments
/// A variable that a boot is told.
#[derive(Debug, PartialEq, Eq)]
pub struct Variable {
    pub key: String,
    pub value: String,
}

/// What a [`Variable`] says.
pub struct VariableView {
    pub key: Seq<char>,
    pub value: Seq<char>,
}

impl View for Variable {
    type V = VariableView;

    open spec fn view(&self) -> VariableView {
        VariableView { key: self.key@, value: self.value@ }
    }
}

/// What each variable of a list says.
pub open spec fn variable_views(v: Seq<Variable>) -> Seq<VariableView> {
    Seq::new(v.len(), |i: int| v[i]@)
}

/// An assignment, as a shell reads one.
pub open spec fn assignment(v: VariableView) -> Seq<char> {
    v.key + "="@ + quoted(v.value)
}

/// A script of assignments, one to a line.
pub open spec fn script_of(list: Seq<VariableView>) -> Seq<char>
    decreases list.len(),
{
    if list.len() == 0 {
        seq![]
    } else {
        script_of(list.drop_last()) + assignment(list.last()) + "\n"@
    }
}

/// Writes a script of assignments.
pub fn script(list: &Vec<Variable>) -> (r: String)
    ensures
        r@ == script_of(variable_views(list@)),
{
    let mut r = String::new();
    let ghost all = variable_views(list@);
    let mut i: usize = 0;
    assert(r@ == script_of(all.take(0)));
    while i < list.len()
        invariant
            i <= list.len(),
            all == variable_views(list@),
            r@ == script_of(all.take(i as int)),
        decreases list.len() - i,
    {
        let v = &list[i];
        assert(all.take(i + 1).drop_last() == all.take(i as int));
        assert(all.take(i + 1).last() == v@);
        let ghost before = r@;
        r.append(v.key.as_str());
        r.append("=");
        r.append(shell_quote(v.value.as_str()).as_str());
        r.append("\n");
        assert(r@ == before + assignment(v@) + "\n"@);
        i = i + 1;
    }
    assert(all.take(i as int) == all);
    r
}

/// A key that a shell can assign to, and that is ours: capitals and
/// underscores, beginning with `ZB_`.
pub open spec fn is_key(s: Seq<char>) -> bool {
    &&& text::has_prefix(s, "ZB_"@)
    &&& forall|i: int| 0 <= i < s.len() ==> 'A' <= #[trigger] s[i] <= 'Z' || s[i] == '_'
}

/// Whether a line is an assignment to one of our keys, of a word that the shell
/// reads as the given text.
pub open spec fn assigns(line: Seq<char>, v: VariableView) -> bool {
    &&& text::split_at_char(line, '=') == Some((v.key, quoted(v.value)))
    &&& quoted(v.value).len() >= 2
    &&& quoted(v.value).first() == '\''
    &&& quoted(v.value).last() == '\''
    &&& shell_reads(quoted(v.value), false) == Some(v.value)
}

proof fn lemma_escaped_lines(s: Seq<char>)
    requires
        !s.contains('\n'),
    ensures
        !escaped(s).contains('\n'),
    decreases s.len(),
{
    if s.len() > 0 {
        assert(!s.drop_last().contains('\n')) by {
            if s.drop_last().contains('\n') {
                let i = choose|i: int| 0 <= i < s.drop_last().len() && s.drop_last()[i] == '\n';
                assert(s[i] == '\n');
            }
        }
        assert(s.contains(s.last()));
        lemma_escaped_lines(s.drop_last());
        assert forall|i: int| 0 <= i < escaped(s).len() implies escaped(s)[i] != '\n' by {
            if i < escaped(s.drop_last()).len() {
                assert(escaped(s)[i] == escaped(s.drop_last())[i]);
                assert(escaped(s.drop_last()).contains(escaped(s.drop_last())[i]));
            }
        }
    }
}

proof fn lemma_assignment(v: VariableView)
    requires
        is_key(v.key),
        !v.value.contains('\n'),
    ensures
        !assignment(v).contains('\n'),
        text::without_cr(assignment(v)) == assignment(v),
        assigns(assignment(v), v),
{
    reveal_strlit("=");
    let q = quoted(v.value);
    lemma_escaped_lines(v.value);
    law_what_is_quoted_survives_the_shell(v.value);
    assert(assignment(v) == v.key + seq!['='] + q);
    assert(!v.key.contains('=')) by {
        if v.key.contains('=') {
            let i = choose|i: int| 0 <= i < v.key.len() && v.key[i] == '=';
            assert(v.key[i] == '=');
        }
    }
    text::lemma_split_at_char(v.key, '=', q);
    assert forall|i: int| 0 <= i < assignment(v).len() implies assignment(v)[i] != '\n' by {
        let k = v.key.len() as int;
        if i < k {
            assert(assignment(v)[i] == v.key[i]);
        } else if i > k + 1 && i < k + 2 + escaped(v.value).len() {
            assert(assignment(v)[i] == escaped(v.value)[i - k - 2]);
            assert(escaped(v.value).contains(escaped(v.value)[i - k - 2]));
        }
    }
    assert(assignment(v).last() == '\'');
}

proof fn lemma_script_lines(list: Seq<VariableView>, rest: Seq<char>)
    requires
        forall|i: int|
            0 <= i < list.len() ==> is_key((#[trigger] list[i]).key) && !list[i].value.contains(
                '\n',
            ),
    ensures
        text::line_list(script_of(list) + rest) == Seq::new(
            list.len(),
            |i: int| assignment(list[i]),
        ) + text::line_list(rest),
    decreases list.len(),
{
    reveal_strlit("\n");
    let told = Seq::new(list.len(), |i: int| assignment(list[i]));
    if list.len() == 0 {
        assert(script_of(list) + rest == rest);
        assert(told + text::line_list(rest) == text::line_list(rest));
    } else {
        let front = list.drop_last();
        let v = list.last();
        let on = assignment(v) + seq!['\n'] + rest;
        assert(script_of(list) + rest == script_of(front) + on);
        assert forall|i: int| 0 <= i < front.len() implies is_key((#[trigger] front[i]).key)
            && !front[i].value.contains('\n') by {
            assert(front[i] == list[i]);
        }
        lemma_script_lines(front, on);
        lemma_assignment(v);
        text::lemma_line_list_step(assignment(v), rest);
        let before = Seq::new(front.len(), |i: int| assignment(front[i]));
        assert(told == before + seq![assignment(v)]);
        assert(before + (seq![assignment(v)] + text::line_list(rest)) == told + text::line_list(
            rest,
        ));
    }
}

/// Every line of a script is an assignment that a shell can evaluate, and
/// nothing else: one line for each variable, in order, that assigns its value to
/// its key. Values hold on one line.
pub proof fn law_every_line_is_an_assignment(list: Seq<VariableView>)
    requires
        forall|i: int|
            0 <= i < list.len() ==> is_key((#[trigger] list[i]).key) && !list[i].value.contains(
                '\n',
            ),
    ensures
        text::line_list(script_of(list)).len() == list.len(),
        forall|i: int|
            0 <= i < list.len() ==> assigns(
                #[trigger] text::line_list(script_of(list))[i],
                list[i],
            ),
{
    let none = Seq::<char>::empty();
    lemma_script_lines(list, none);
    assert(script_of(list) + none == script_of(list));
    assert forall|i: int| 0 <= i < list.len() implies assigns(
        #[trigger] text::line_list(script_of(list))[i],
        list[i],
    ) by {
        lemma_assignment(list[i]);
    }
}

// ------------------------------------------------------------------- boots
/// What a boot is told, and what is done besides.
#[derive(Debug, PartialEq, Eq)]
pub struct BootPlan {
    pub variables: Vec<Variable>,
    /// 0 for a disk of ours that boots, 2 for asking the appliance.
    pub exit: i32,
    /// The drive to claim, and the claim to write onto its ESP. A boot claims
    /// the drive it boots, because there is no operator in a boot to do it.
    pub claim: Option<(String, Claim)>,
}

/// The volume that a drive boots, as its ESP names it; nothing when it names
/// none.
pub open spec fn volume_of(d: Drive) -> Seq<char> {
    match d.esp {
        Some(e) => match e.boot {
            Some(b) => match b.boot_volume {
                Some(v) => v@,
                None => seq![],
            },
            None => seq![],
        },
        None => seq![],
    }
}

/// Why the appliance is asked.
pub open spec fn reason_of(intent: IntentView) -> Seq<char> {
    match intent {
        IntentView::AlreadyMine { .. } => seq![],
        IntentView::MineButNoneBoots { because } => text::joined(because, "; "@),
        IntentView::TakeOver { path } => "would take "@ + path,
        IntentView::NothingToTake { because } => text::joined(because, "; "@),
    }
}

/// A text on one line: with a space in place of every line feed.
pub open spec fn unbroken(s: Seq<char>) -> Seq<char> {
    Seq::new(
        s.len(),
        |i: int|
            if s[i] == '\n' {
                ' '
            } else {
                s[i]
            },
    )
}

/// A text on one line holds no line feed, and one that held none is as it was.
proof fn lemma_unbroken(s: Seq<char>)
    ensures
        !unbroken(s).contains('\n'),
        !s.contains('\n') ==> unbroken(s) == s,
{
    if !s.contains('\n') {
        assert forall|i: int| 0 <= i < s.len() implies unbroken(s)[i] == s[i] by {
            assert(s.contains(s[i]));
        }
        assert(unbroken(s) == s);
    }
}

/// Puts a text on one line.
fn on_one_line(s: &str) -> (r: String)
    ensures
        r@ == unbroken(s@),
{
    let chars = text::chars_of(s);
    let mut r = String::new();
    let mut i: usize = 0;
    while i < chars.len()
        invariant
            i <= chars.len(),
            chars@ == s@,
            r@ == unbroken(s@).take(i as int),
        decreases chars.len() - i,
    {
        if chars[i] == '\n' {
            r.push(' ');
        } else {
            r.push(chars[i]);
        }
        assert(unbroken(s@).take(i + 1) == unbroken(s@).take(i as int).push(unbroken(s@)[i as int]));
        i = i + 1;
    }
    assert(unbroken(s@).take(i as int) == unbroken(s@));
    r
}

/// What a boot is told: to boot a slab of ours and which volume on it, or to
/// ask the appliance and why. Every value is on one line, since a second line
/// would be no assignment.
pub open spec fn told(s: Seq<Drive>) -> Seq<VariableView> {
    let bootable = survey::bootable_drives(s);
    if bootable.len() > 0 {
        seq![
            VariableView { key: "ZB_ACTION"@, value: "boot-local"@ },
            VariableView { key: "ZB_SLAB"@, value: unbroken(bootable[0].verdict->slab@) },
            VariableView { key: "ZB_VOLUME"@, value: unbroken(volume_of(bootable[0])) },
        ]
    } else {
        seq![
            VariableView { key: "ZB_ACTION"@, value: "ask-appliance"@ },
            VariableView { key: "ZB_REASON"@, value: unbroken(reason_of(survey::intent_of(s))) },
        ]
    }
}

/// What a boot claims: the drive that it boots, for this machine when it says
/// who it is, when the drive has an ESP that nobody has claimed.
pub open spec fn to_claim(s: Seq<Drive>, me: Option<Seq<char>>, now: Seq<char>) -> Option<
    (Seq<char>, ClaimView),
> {
    let bootable = survey::bootable_drives(s);
    match me {
        Some(m) => if bootable.len() > 0 && bootable[0]@.esp is Some && bootable[0]@.esp->0.claim
            is None {
            Some((bootable[0].path@, ClaimView { node: m, claimed: now }))
        } else {
            None
        },
        None => None,
    }
}

/// A claim to write, as a value.
pub open spec fn claim_view(c: Option<(String, Claim)>) -> Option<(Seq<char>, ClaimView)> {
    match c {
        Some((device, c)) => Some((device@, c@)),
        None => None,
    }
}

fn tell(list: &mut Vec<Variable>, key: &str, value: &str)
    ensures
        variable_views(final(list)@) == variable_views(old(list)@).push(
            VariableView { key: key@, value: value@ },
        ),
{
    list.push(Variable { key: text::owned(key), value: text::owned(value) });
    assert(variable_views(list@) == variable_views(old(list)@).push(
        VariableView { key: key@, value: value@ },
    ));
}

fn volume(d: &Drive) -> (r: String)
    ensures
        r@ == volume_of(*d),
{
    if let Some(e) = &d.esp {
        if let Some(b) = &e.boot {
            if let Some(v) = &b.boot_volume {
                return v.clone();
            }
        }
    }
    String::new()
}

fn claim_booted(d: &Drive, me: &Option<String>, now: &str) -> (r: Option<(String, Claim)>)
    ensures
        claim_view(r) == match text::view_of(*me) {
            Some(m) => if d@.esp is Some && d@.esp->0.claim is None {
                Some((d.path@, ClaimView { node: m, claimed: now@ }))
            } else {
                None
            },
            None => None,
        },
{
    if let Some(m) = me {
        if let Ok(Claiming::Write(c)) = claim::claim(
            d.path.as_str(),
            m.as_str(),
            &d.esp,
            false,
            now,
        ) {
            return Some((d.path.clone(), c));
        }
    }
    None
}

fn reason(intent: &Intent) -> (r: String)
    ensures
        r@ == reason_of(intent@),
{
    match intent {
        Intent::AlreadyMine { .. } => String::new(),
        Intent::MineButNoneBoots { because } => text::join(because, "; "),
        Intent::TakeOver { path } => {
            let mut s = text::owned("would take ");
            s.append(path.as_str());
            s
        },
        Intent::NothingToTake { because } => text::join(because, "; "),
    }
}

/// Decides what a boot is told, from the drives of the machine, who the machine
/// is and the time.
pub fn boot(s: &Survey, me: &Option<String>, now: &str) -> (r: BootPlan)
    ensures
        variable_views(r.variables@) == told(s.drives@),
        r.exit == if survey::bootable_drives(s.drives@).len() > 0 {
            0i32
        } else {
            2i32
        },
        claim_view(r.claim) == to_claim(s.drives@, text::view_of(*me), now@),
        r.exit == 0 <==> exists|i: int|
            0 <= i < s.drives@.len() && survey::starts_the_node(#[trigger] s.drives@[i]),
        r.exit == 0 || r.exit == 2,
        r.exit == 2 ==> r.claim is None,
        me is None ==> r.claim is None,
{
    proof {
        lemma_boots_locally(s.drives@);
    }
    let mut variables: Vec<Variable> = Vec::new();
    assert(variable_views(variables@) == Seq::<VariableView>::empty());
    let bootable = s.bootable();
    if bootable.len() > 0 {
        let d = bootable[0];
        assert(*d == survey::bootable_drives(s.drives@)[0]);
        proof {
            survey::lemma_bootable_is_owned(s.drives@, 0);
        }
        let slab = match &d.verdict {
            survey::Verdict::Mine { slab, .. } => slab.clone(),
            _ => String::new(),
        };
        tell(&mut variables, "ZB_ACTION", "boot-local");
        tell(&mut variables, "ZB_SLAB", on_one_line(slab.as_str()).as_str());
        tell(&mut variables, "ZB_VOLUME", on_one_line(volume(d).as_str()).as_str());
        return BootPlan { variables, exit: 0, claim: claim_booted(d, me, now) };
    }
    tell(&mut variables, "ZB_ACTION", "ask-appliance");
    tell(&mut variables, "ZB_REASON", on_one_line(reason(&s.intent()).as_str()).as_str());
    BootPlan { variables, exit: 2, claim: None }
}

/// What a boot is told is a list of assignments to keys of ours.
pub proof fn law_a_boot_is_told_by_keys_of_ours(s: Seq<Drive>)
    ensures
        forall|i: int| 0 <= i < told(s).len() ==> is_key((#[trigger] told(s)[i]).key),
{
    reveal_strlit("ZB_");
    reveal_strlit("ZB_ACTION");
    reveal_strlit("ZB_SLAB");
    reveal_strlit("ZB_VOLUME");
    reveal_strlit("ZB_REASON");
    assert("ZB_ACTION"@.take(3) == "ZB_"@);
    assert("ZB_SLAB"@.take(3) == "ZB_"@);
    assert("ZB_VOLUME"@.take(3) == "ZB_"@);
    assert("ZB_REASON"@.take(3) == "ZB_"@);
}

/// Every line that a boot is told is an assignment that a shell can evaluate,
/// and nothing else, whatever the drives say: one line for each variable, in
/// order, that assigns to a key of ours a value that the shell reads back whole.
pub proof fn law_every_line_of_a_boot_assigns(s: Seq<Drive>)
    ensures
        text::line_list(script_of(told(s))).len() == told(s).len(),
        forall|i: int|
            0 <= i < told(s).len() ==> is_key(told(s)[i].key) && assigns(
                #[trigger] text::line_list(script_of(told(s)))[i],
                told(s)[i],
            ),
{
    reveal_strlit("boot-local");
    reveal_strlit("ask-appliance");
    law_a_boot_is_told_by_keys_of_ours(s);
    let bootable = survey::bootable_drives(s);
    if bootable.len() > 0 {
        lemma_unbroken(bootable[0].verdict->slab@);
        lemma_unbroken(volume_of(bootable[0]));
    } else {
        lemma_unbroken(reason_of(survey::intent_of(s)));
    }
    assert forall|i: int| 0 <= i < told(s).len() implies is_key((#[trigger] told(s)[i]).key)
        && !told(s)[i].value.contains('\n') by {
        assert(told(s)[i].value == told(s)[0].value || told(s)[i].value == told(s)[1].value
            || told(s)[i].value == told(s)[2].value);
    }
    law_every_line_is_an_assignment(told(s));
}

/// A node is told to boot locally exactly when the survey says that it has
/// already assimilated, and then it is told the slab that the survey names, as
/// it is when it holds on one line.
pub proof fn law_a_boot_follows_the_survey(s: Seq<Drive>)
    ensures
        told(s)[0] == (VariableView {
            key: "ZB_ACTION"@,
            value: if survey::intent_of(s) is AlreadyMine {
                "boot-local"@
            } else {
                "ask-appliance"@
            },
        }),
        survey::intent_of(s) is AlreadyMine ==> told(s)[1] == (VariableView {
            key: "ZB_SLAB"@,
            value: unbroken(survey::intent_of(s)->slab),
        }),
        survey::intent_of(s) is AlreadyMine && !survey::intent_of(s)->slab.contains('\n')
            ==> told(s)[1].value == survey::intent_of(s)->slab,
{
    if survey::intent_of(s) is AlreadyMine {
        lemma_unbroken(survey::intent_of(s)->slab);
    }
}

/// Booting a drive claims it, when this machine says who it is and the drive has
/// an ESP that nobody has claimed; and a boot never writes over a claim.
pub proof fn law_booting_a_drive_claims_it(s: Seq<Drive>, me: Seq<char>, now: Seq<char>)
    requires
        survey::bootable_drives(s).len() > 0,
        survey::bootable_drives(s)[0]@.esp is Some,
    ensures
        ({
            let d = survey::bootable_drives(s)[0];
            to_claim(s, Some(me), now) == if d@.esp->0.claim is None {
                Some((d.path@, ClaimView { node: me, claimed: now }))
            } else {
                None
            }
        }),
{
}

proof fn lemma_boots_locally(s: Seq<Drive>)
    ensures
        survey::bootable_drives(s).len() > 0 <==> exists|i: int|
            0 <= i < s.len() && survey::starts_the_node(#[trigger] s[i]),
        survey::bootable_drives(s).len() > 0 <==> survey::intent_of(s) is AlreadyMine,
{
    let b = survey::bootable_drives(s);
    if b.len() > 0 {
        survey::law_the_drives_to_boot_from(s, b[0]);
        assert(b.contains(b[0]));
        let i = choose|i: int| 0 <= i < s.len() && s[i] == b[0];
        assert(survey::starts_the_node(s[i]));
    }
    if exists|i: int| 0 <= i < s.len() && survey::starts_the_node(#[trigger] s[i]) {
        let i = choose|i: int| 0 <= i < s.len() && survey::starts_the_node(#[trigger] s[i]);
        survey::law_the_drives_to_boot_from(s, s[i]);
        assert(s.contains(s[i]));
        assert(b.contains(s[i]));
    }
    survey::law_what_follows_by_what_the_drives_are(s);
}

/// Whether a text is another one put on one line: the same characters, but for
/// a space where there was a line feed.
pub open spec fn on_one_line_as(t: Seq<char>, s: Seq<char>) -> bool {
    &&& t.len() == s.len()
    &&& forall|i: int|
        0 <= i < s.len() ==> (if s[i] == '\n' {
            #[trigger] t[i] == ' '
        } else {
            t[i] == s[i]
        })
}

/// A text that holds on one line is put on one line as it is.
pub proof fn law_what_holds_on_one_line_stays_as_it_is(t: Seq<char>, s: Seq<char>)
    requires
        on_one_line_as(t, s),
    ensures
        !t.contains('\n'),
        !s.contains('\n') ==> t == s,
{
    assert forall|i: int| 0 <= i < t.len() implies t[i] != '\n' by {
        assert(t[i] == ' ' || t[i] == s[i]);
    }
    if !s.contains('\n') {
        assert forall|i: int| 0 <= i < s.len() implies t[i] == s[i] by {
            assert(s.contains(s[i]));
        }
        assert(t == s);
    }
}

/// A boot that is told to boot locally is told of one drive of this machine: one
/// that is this node's and that boots, the one that the survey means. The slab
/// told is that drive's slab, the volume told is the one that the same drive's
/// ESP names, and nothing when it names none; and the claim is that drive's too,
/// when this machine says who it is and nobody has claimed the drive.
pub proof fn law_a_boot_is_told_of_one_drive(s: Seq<Drive>, me: Option<Seq<char>>, now: Seq<char>)
    requires
        survey::intent_of(s) is AlreadyMine,
    ensures
        exists|i: int|
            {
                &&& 0 <= i < s.len()
                &&& survey::starts_the_node(#[trigger] s[i])
                &&& survey::intent_of(s)->drive == s[i].path@
                &&& survey::intent_of(s)->slab == s[i].verdict->slab@
                &&& told(s).len() == 3
                &&& told(s)[0].key == "ZB_ACTION"@
                &&& told(s)[0].value == "boot-local"@
                &&& told(s)[1].key == "ZB_SLAB"@
                &&& on_one_line_as(told(s)[1].value, s[i].verdict->slab@)
                &&& told(s)[2].key == "ZB_VOLUME"@
                &&& match s[i].esp {
                    Some(e) => match e.boot {
                        Some(b) => match b.boot_volume {
                            Some(v) => on_one_line_as(told(s)[2].value, v@),
                            None => told(s)[2].value.len() == 0,
                        },
                        None => told(s)[2].value.len() == 0,
                    },
                    None => told(s)[2].value.len() == 0,
                }
                &&& to_claim(s, me, now) == match me {
                    Some(m) => match s[i].esp {
                        Some(e) => if e.claim is None {
                            Some((s[i].path@, ClaimView { node: m, claimed: now }))
                        } else {
                            None
                        },
                        None => None,
                    },
                    None => None,
                }
                &&& forall|j: int|
                    0 <= j < s.len() && survey::starts_the_node(#[trigger] s[j]) ==> {
                        &&& s[j].verdict->role@ == "system"@ ==> s[i].verdict->role@ == "system"@
                        &&& (s[j].verdict->role@ == "system"@) == (s[i].verdict->role@
                            == "system"@) ==> i <= j
                    }
            },
{
    survey::law_the_drive_booted_is_the_first_that_starts_the_node(s);
    lemma_boots_locally(s);
    let i = choose|i: int|
        {
            &&& 0 <= i < s.len()
            &&& survey::starts_the_node(#[trigger] s[i])
            &&& survey::bootable_drives(s)[0] == s[i]
            &&& survey::intent_of(s)->drive == s[i].path@
            &&& survey::intent_of(s)->slab == s[i].verdict->slab@
            &&& survey::intent_of(s)->slab_id == s[i].verdict->Mine_slab_id@
            &&& forall|j: int|
                0 <= j < s.len() && survey::starts_the_node(#[trigger] s[j]) ==> {
                    &&& s[j].verdict->role@ == "system"@ ==> s[i].verdict->role@ == "system"@
                    &&& (s[j].verdict->role@ == "system"@) == (s[i].verdict->role@ == "system"@)
                        ==> i <= j
                }
        };
    assert(survey::starts_the_node(s[i]));
    assert(told(s)[2].value == unbroken(volume_of(s[i])));
    assert(on_one_line_as(told(s)[1].value, s[i].verdict->slab@));
    assert(on_one_line_as(told(s)[2].value, volume_of(s[i])));
}

/// A boot asks the appliance when no drive starts the node, and is told why: the
/// drive that would be taken, or what is said of each drive, one after the
/// other. It claims nothing then.
pub proof fn law_a_boot_that_asks_is_told_why(s: Seq<Drive>, me: Option<Seq<char>>, now: Seq<char>)
    requires
        forall|i: int| 0 <= i < s.len() ==> !survey::starts_the_node(#[trigger] s[i]),
    ensures
        told(s).len() == 2,
        told(s)[0].key == "ZB_ACTION"@,
        told(s)[0].value == "ask-appliance"@,
        told(s)[1].key == "ZB_REASON"@,
        match survey::intent_of(s) {
            IntentView::TakeOver { path } => on_one_line_as(
                told(s)[1].value,
                "would take "@ + path,
            ),
            IntentView::MineButNoneBoots { because } => on_one_line_as(
                told(s)[1].value,
                text::joined(because, "; "@),
            ),
            IntentView::NothingToTake { because } => on_one_line_as(
                told(s)[1].value,
                text::joined(because, "; "@),
            ),
            IntentView::AlreadyMine { .. } => false,
        },
        to_claim(s, me, now) is None,
{
    lemma_boots_locally(s);
}

} // verus!
