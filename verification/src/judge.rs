//! Whose a drive is, one question at a time.
//!
//! The order is the argument: every branch that ends in "leave it alone" is
//! taken before anything can conclude "blank". A judgement is a [`Step`]. It
//! says what has to be looked at next, and takes what was seen; it ends in a
//! verdict. Nothing here looks at anything itself.

use vstd::prelude::*;

use crate::names;
use crate::scan;
use crate::sniff;
use crate::sniff::{Sniff, SniffView};
use crate::survey;
use crate::survey::{Drive, Verdict, VerdictView};
use crate::text;

verus! {

// ------------------------------------------------------------------- cases
/// What is known of a drive before anything on it is read.
#[derive(Debug, PartialEq, Eq)]
pub struct Case {
    /// The device node of the whole drive.
    pub path: String,
    pub size_bytes: u64,
    pub removable: bool,
    pub model: Option<String>,
    /// How the drive got here, when it did not get here by being plugged in.
    pub remote: Option<String>,
    /// The partitions the kernel found on it, in order.
    pub parts: Vec<String>,
    /// Whether there is a stormblock to name a slab.
    pub can_identify: bool,
    /// Who this machine is, when it says.
    pub me: Option<String>,
    /// Who has claimed the drive on its ESP, when anyone has.
    pub claimed_by: Option<String>,
}

/// What a [`Case`] says.
pub struct CaseView {
    pub path: Seq<char>,
    pub size_bytes: u64,
    pub removable: bool,
    pub model: Option<Seq<char>>,
    pub remote: Option<Seq<char>>,
    pub parts: Seq<Seq<char>>,
    pub can_identify: bool,
    pub me: Option<Seq<char>>,
    pub claimed_by: Option<Seq<char>>,
}

impl View for Case {
    type V = CaseView;

    open spec fn view(&self) -> CaseView {
        CaseView {
            path: self.path@,
            size_bytes: self.size_bytes,
            removable: self.removable,
            model: text::view_of(self.model),
            remote: text::view_of(self.remote),
            parts: text::texts(self.parts@),
            can_identify: self.can_identify,
            me: text::view_of(self.me),
            claimed_by: text::view_of(self.claimed_by),
        }
    }
}

impl CaseView {
    /// The devices a slab is looked for on: the whole drive, then each of its
    /// partitions.
    pub open spec fn probe(self, at: int) -> Seq<char> {
        if at == 0 {
            self.path
        } else {
            names::path_beside(self.path, self.parts[at - 1])
        }
    }

    /// Whether somebody other than this node has claimed the drive. A claim
    /// that this machine cannot check, because it will not say who it is, does
    /// not count.
    pub open spec fn claimed_by_another(self) -> bool {
        match (self.claimed_by, self.me) {
            (Some(node), Some(me)) => node != me,
            _ => false,
        }
    }
}

// ------------------------------------------------------------------- steps
/// A device has to be read, to see whether a slab begins there.
#[derive(Debug, PartialEq, Eq)]
pub struct Sniffing {
    pub case: Case,
    /// Which device: 0 is the whole drive, and each partition follows.
    pub at: usize,
}

/// A slab begins on a device, and has to be named.
#[derive(Debug, PartialEq, Eq)]
pub struct Identifying {
    pub case: Case,
    pub at: usize,
}

/// No slab was found. The whole drive has to be read to name what is on it.
#[derive(Debug, PartialEq, Eq)]
pub struct Naming {
    pub case: Case,
}

/// Nothing known was found. The drive has to be looked through for anything at
/// all.
#[derive(Debug, PartialEq, Eq)]
pub struct Scanning {
    pub case: Case,
}

/// Where a judgement has come to.
#[derive(Debug, PartialEq, Eq)]
pub enum Step {
    Sniff(Sniffing),
    Identify(Identifying),
    Name(Naming),
    Scan(Scanning),
    Settled(Verdict),
}

/// What a [`Step`] says.
pub enum StepView {
    Sniff { case: CaseView, at: int },
    Identify { case: CaseView, at: int },
    Name { case: CaseView },
    Scan { case: CaseView },
    Settled { verdict: VerdictView },
}

impl View for Step {
    type V = StepView;

    open spec fn view(&self) -> StepView {
        match *self {
            Step::Sniff(s) => StepView::Sniff { case: s.case@, at: s.at as int },
            Step::Identify(s) => StepView::Identify { case: s.case@, at: s.at as int },
            Step::Name(s) => StepView::Name { case: s.case@ },
            Step::Scan(s) => StepView::Scan { case: s.case@ },
            Step::Settled(v) => StepView::Settled { verdict: v@ },
        }
    }
}

impl Sniffing {
    /// Whether the device is one that the drive has.
    pub open spec fn wf(self) -> bool {
        self.at <= self.case.parts@.len()
    }
}

impl Identifying {
    /// Whether the device is one that the drive has.
    pub open spec fn wf(self) -> bool {
        self.at <= self.case.parts@.len()
    }
}

impl Step {
    /// Whether the device that is asked about is one that the drive has.
    pub open spec fn wf(self) -> bool {
        match self {
            Step::Sniff(s) => s.wf(),
            Step::Identify(s) => s.wf(),
            _ => true,
        }
    }
}

// ------------------------------------------------------- what follows on what
/// A verdict that leaves the drive alone because of what is on it.
pub open spec fn foreign(what: Seq<char>) -> StepView {
    StepView::Settled { verdict: VerdictView::Foreign { what } }
}

/// A verdict that leaves the drive alone because it would not answer.
pub open spec fn unreadable(why: Seq<char>) -> StepView {
    StepView::Settled { verdict: VerdictView::Unreadable { why } }
}

/// What is said of removable media.
pub open spec fn removable_text(model: Option<Seq<char>>) -> Seq<char> {
    match model {
        Some(m) => "removable media ("@ + m + ")"@,
        None => "removable media"@,
    }
}

/// Where a judgement begins.
pub open spec fn start(case: CaseView) -> StepView {
    if case.size_bytes == 0 {
        unreadable("no medium (reports zero sectors)"@)
    } else if case.removable {
        foreign(removable_text(case.model))
    } else {
        StepView::Sniff { case, at: 0 }
    }
}

/// What follows when the device before `at` is not where a slab is: the next
/// device, while there is one.
pub open spec fn look_on(case: CaseView, at: int) -> StepView {
    if at <= case.parts.len() {
        StepView::Sniff { case, at }
    } else {
        match case.remote {
            Some(via) => foreign("attached over "@ + via),
            None => StepView::Name { case },
        }
    }
}

/// What follows on reading a device to see whether a slab begins there.
pub open spec fn after_sniff(
    case: CaseView,
    at: int,
    seen: Result<SniffView, Seq<char>>,
) -> StepView {
    match seen {
        Err(e) => if at == 0 {
            unreadable(e)
        } else {
            look_on(case, at + 1)
        },
        Ok(s) => if !s.is_slab() {
            look_on(case, at + 1)
        } else if !case.can_identify {
            foreign(
                "stormblock slab on "@ + case.probe(at)
                    + " - no stormblock binary to identify it"@,
            )
        } else {
            StepView::Identify { case, at }
        },
    }
}

/// Whose a slab with the given name is.
pub open spec fn slab_verdict(
    case: CaseView,
    at: int,
    slab_id: Seq<char>,
    role: Seq<char>,
) -> VerdictView {
    match case.remote {
        Some(via) => VerdictView::AnotherNode { slab_id, owner: via },
        None => if case.claimed_by_another() {
            VerdictView::AnotherNode {
                slab_id,
                owner: "node "@ + case.claimed_by->0 + " (claimed on its ESP)"@,
            }
        } else {
            VerdictView::Mine { slab_id, role, slab: case.probe(at) }
        },
    }
}

/// What follows on asking which slab it is that begins on a device.
pub open spec fn after_identify(
    case: CaseView,
    at: int,
    named: Option<(Seq<char>, Seq<char>)>,
) -> StepView {
    match named {
        None => foreign(
            "stormblock slab magic on "@ + case.probe(at)
                + " that stormblock would not identify"@,
        ),
        Some((slab_id, role)) => StepView::Settled {
            verdict: slab_verdict(case, at, slab_id, role),
        },
    }
}

/// The ending of a counted word.
pub open spec fn plural_of(n: nat) -> Seq<char> {
    if n == 1 {
        ""@
    } else {
        "s"@
    }
}

/// What is said of a drive on which the kernel found partitions.
pub open spec fn table_text(named: Option<Seq<char>>, parts: nat) -> Seq<char> {
    let table = match named {
        Some(t) => t,
        None => "partition table"@,
    };
    table + ", "@ + text::decimal(parts) + " partition"@ + plural_of(parts)
}

/// What follows on reading the whole drive to name what is on it.
pub open spec fn after_name(
    case: CaseView,
    seen: Result<SniffView, Seq<char>>,
) -> StepView {
    match seen {
        Err(e) => unreadable(e),
        Ok(s) => if case.parts.len() > 0 {
            foreign(table_text(sniff::front_name(s), case.parts.len()))
        } else {
            match sniff::front_name(s) {
                Some(what) => foreign(what),
                None => match sniff::end_name(s) {
                    Some(what) => foreign(what),
                    None => StepView::Scan { case },
                },
            }
        },
    }
}

/// What follows on looking through the whole drive.
pub open spec fn after_scan(found: Result<Option<u64>, Seq<char>>) -> StepView {
    match found {
        Err(e) => unreadable(e),
        Ok(Some(off)) => foreign("unrecognised data at offset "@ + text::decimal(off as nat)),
        Ok(None) => StepView::Settled { verdict: VerdictView::Blank },
    }
}

/// What a read of a device came to, as a value.
pub open spec fn seen_of(r: Result<Sniff, String>) -> Result<SniffView, Seq<char>> {
    match r {
        Ok(s) => Ok(s@),
        Err(e) => Err(e@),
    }
}

/// What a slab was named, as a value.
pub open spec fn named_of(r: Option<(String, String)>) -> Option<(Seq<char>, Seq<char>)> {
    match r {
        Some((id, role)) => Some((id@, role@)),
        None => None,
    }
}

/// What a look through a drive came to, as a value.
pub open spec fn found_of(r: Result<Option<u64>, String>) -> Result<Option<u64>, Seq<char>> {
    match r {
        Ok(o) => Ok(o),
        Err(e) => Err(e@),
    }
}

// ------------------------------------------------------------- taking steps
fn settle_foreign(what: String) -> (r: Step)
    ensures
        r@ == foreign(what@),
        r.wf(),
{
    Step::Settled(Verdict::Foreign { what })
}

fn settle_unreadable(why: String) -> (r: Step)
    ensures
        r@ == unreadable(why@),
        r.wf(),
{
    Step::Settled(Verdict::Unreadable { why })
}

impl Case {
    /// A device that a slab is looked for on.
    fn device(&self, at: usize) -> (r: String)
        requires
            at <= self.parts@.len(),
        ensures
            r@ == self@.probe(at as int),
    {
        if at == 0 {
            self.path.clone()
        } else {
            names::beside(self.path.as_str(), self.parts[at - 1].as_str())
        }
    }
}

/// Begins to judge a drive.
///
/// An empty drive bay is not an empty drive: a drive that reports zero sectors
/// has no medium. Removable media is somebody's, even when it is empty.
pub fn judge(case: Case) -> (r: Step)
    ensures
        r@ == start(case@),
        r.wf(),
{
    if case.size_bytes == 0 {
        return settle_unreadable(text::owned("no medium (reports zero sectors)"));
    }
    if case.removable {
        let what = match &case.model {
            Some(model) => {
                let mut s = text::owned("removable media (");
                s.append(model.as_str());
                s.append(")");
                s
            },
            None => text::owned("removable media"),
        };
        return settle_foreign(what);
    }
    Step::Sniff(Sniffing { case, at: 0 })
}

/// Goes on after a device that is not where a slab is.
fn go_on(case: Case, at: usize) -> (r: Step)
    requires
        at <= case.parts@.len(),
    ensures
        r@ == look_on(case@, at + 1),
        r.wf(),
{
    if at < case.parts.len() {
        return Step::Sniff(Sniffing { case, at: at + 1 });
    }
    match &case.remote {
        Some(via) => {
            let mut what = text::owned("attached over ");
            what.append(via.as_str());
            settle_foreign(what)
        },
        None => Step::Name(Naming { case }),
    }
}

impl Sniffing {
    /// The device to read.
    pub fn device(&self) -> (r: String)
        requires
            self.wf(),
        ensures
            r@ == self.case@.probe(self.at as int),
    {
        self.case.device(self.at)
    }

    /// Goes on with what was read of it.
    ///
    /// Only the whole drive failing to read is a verdict; a partition that will
    /// not open just is not where the slab is. The magic says "a slab"; only
    /// stormblock says *which* slab, and an unnameable slab is not one to
    /// format.
    pub fn sniffed(self, seen: Result<Sniff, String>) -> (r: Step)
        requires
            self.wf(),
        ensures
            r@ == after_sniff(self.case@, self.at as int, seen_of(seen)),
            r.wf(),
    {
        let is_slab = match seen {
            Ok(s) => s.is_slab(),
            Err(e) => {
                if self.at == 0 {
                    return settle_unreadable(e);
                }
                false
            },
        };
        if !is_slab {
            return go_on(self.case, self.at);
        }
        if !self.case.can_identify {
            let device = self.device();
            let mut what = text::owned("stormblock slab on ");
            what.append(device.as_str());
            what.append(" - no stormblock binary to identify it");
            return settle_foreign(what);
        }
        Step::Identify(Identifying { case: self.case, at: self.at })
    }
}

impl Identifying {
    /// The device to ask stormblock about.
    pub fn device(&self) -> (r: String)
        requires
            self.wf(),
        ensures
            r@ == self.case@.probe(self.at as int),
    {
        self.case.device(self.at)
    }

    /// Goes on with the slab's name and role, when stormblock gave them.
    ///
    /// Where a drive is attached decides whose it is. On a local drive only a
    /// claim can tell "this node's disk" from "a disk somebody moved into this
    /// chassis", and a claim naming somebody else is decisive. No claim, or one
    /// that cannot be checked because this machine will not say who it is,
    /// leaves a drive in this chassis this node's.
    pub fn identified(self, named: Option<(String, String)>) -> (r: Step)
        requires
            self.wf(),
        ensures
            r@ == after_identify(self.case@, self.at as int, named_of(named)),
            r.wf(),
    {
        let device = self.device();
        let (slab_id, role) = match named {
            Some(n) => n,
            None => {
                let mut what = text::owned("stormblock slab magic on ");
                what.append(device.as_str());
                what.append(" that stormblock would not identify");
                return settle_foreign(what);
            },
        };
        if let Some(via) = self.case.remote {
            return Step::Settled(Verdict::AnotherNode { slab_id, owner: via });
        }
        if let (Some(node), Some(me)) = (&self.case.claimed_by, &self.case.me) {
            if !text::equal(node.as_str(), me.as_str()) {
                let mut owner = text::owned("node ");
                owner.append(node.as_str());
                owner.append(" (claimed on its ESP)");
                return Step::Settled(Verdict::AnotherNode { slab_id, owner });
            }
        }
        Step::Settled(Verdict::Mine { slab_id, role, slab: device })
    }
}

/// The ending of a counted word.
fn plural(n: usize) -> (r: &'static str)
    ensures
        r@ == plural_of(n as nat),
{
    if n == 1 {
        ""
    } else {
        "s"
    }
}

impl Naming {
    /// The device to read: the whole drive.
    pub fn device(&self) -> (r: String)
        ensures
            r@ == self.case@.path,
    {
        self.case.path.clone()
    }

    /// Goes on with what was read of it. Partitions that the kernel found are
    /// somebody's, named or not; so is anything known at either end.
    pub fn named(self, seen: Result<Sniff, String>) -> (r: Step)
        ensures
            r@ == after_name(self.case@, seen_of(seen)),
            r.wf(),
    {
        let s = match seen {
            Ok(s) => s,
            Err(e) => return settle_unreadable(e),
        };
        let front = sniff::signature(&s);
        let parts: usize = self.case.parts.len();
        if parts > 0 {
            let mut what = match front {
                Some(table) => table,
                None => text::owned("partition table"),
            };
            what.append(", ");
            text::push_decimal(&mut what, parts as u64);
            what.append(" partition");
            what.append(plural(parts));
            return settle_foreign(what);
        }
        if let Some(what) = front {
            return settle_foreign(what);
        }
        if let Some(what) = s.tail_signature() {
            return settle_foreign(what);
        }
        Step::Scan(Scanning { case: self.case })
    }
}

impl Scanning {
    /// The device to look through: the whole drive.
    pub fn device(&self) -> (r: String)
        ensures
            r@ == self.case@.path,
    {
        self.case.path.clone()
    }

    /// Ends with what was found. This is the one step that can end in a
    /// format.
    pub fn scanned(self, found: Result<Option<u64>, String>) -> (r: Step)
        ensures
            r@ == after_scan(found_of(found)),
            r.wf(),
    {
        match found {
            Ok(None) => Step::Settled(Verdict::Blank),
            Ok(Some(off)) => {
                let mut what = text::owned("unrecognised data at offset ");
                text::push_decimal(&mut what, off);
                settle_foreign(what)
            },
            Err(e) => settle_unreadable(e),
        }
    }
}

// ------------------------------------------------------- whole judgements
/// What a machine answers when it is asked for the `n`th time. Nothing says
/// that it answers the same way twice: a drive can stop answering between two
/// reads.
pub struct World {
    /// What the ends of a device hold.
    pub ends: spec_fn(nat, Seq<char>) -> Result<SniffView, Seq<char>>,
    /// Which slab stormblock says that a device is.
    pub slab: spec_fn(nat, Seq<char>) -> Option<(Seq<char>, Seq<char>)>,
    /// Where a look through a device finds the first byte that is not zero.
    pub scan: spec_fn(nat, Seq<char>) -> Result<Option<u64>, Seq<char>>,
}

/// One step on, in a given world.
pub open spec fn step_on(step: StepView, world: World, n: nat) -> StepView {
    match step {
        StepView::Sniff { case, at } => after_sniff(case, at, (world.ends)(n, case.probe(at))),
        StepView::Identify { case, at } => after_identify(
            case,
            at,
            (world.slab)(n, case.probe(at)),
        ),
        StepView::Name { case } => after_name(case, (world.ends)(n, case.path)),
        StepView::Scan { case } => after_scan((world.scan)(n, case.path)),
        StepView::Settled { .. } => step,
    }
}

/// How many steps there are at most before a judgement is settled.
pub open spec fn steps_left(step: StepView) -> nat {
    match step {
        StepView::Sniff { case, at } => if at <= case.parts.len() {
            (case.parts.len() - at + 3) as nat
        } else {
            3
        },
        StepView::Identify { .. } => 1,
        StepView::Name { .. } => 2,
        StepView::Scan { .. } => 1,
        StepView::Settled { .. } => 0,
    }
}

/// The verdict that a judgement comes to, in a given world, when the next
/// question is the `n`th.
pub open spec fn verdict_from(step: StepView, world: World, n: nat) -> VerdictView
    decreases steps_left(step),
{
    match step {
        StepView::Settled { verdict } => verdict,
        _ => verdict_from(step_on(step, world, n), world, n + 1),
    }
}

/// The verdict on a drive in a given world.
pub open spec fn verdict_on(case: CaseView, world: World) -> VerdictView {
    verdict_from(start(case), world, 0)
}

/// What holds of every step that a judgement comes to.
spec fn on_the_way(step: StepView) -> bool {
    match step {
        StepView::Sniff { case, at } => 0 <= at <= case.parts.len(),
        StepView::Identify { case, at } => case.can_identify && 0 <= at <= case.parts.len(),
        StepView::Name { case } => case.remote is None,
        StepView::Scan { case } => case.remote is None && case.parts.len() == 0,
        StepView::Settled { .. } => true,
    }
}

/// The way to a blank drive, from a step on the way.
spec fn blank_way(step: StepView, world: World) -> bool {
    match step {
        StepView::Sniff { case, .. } => blank_evidence(case, world),
        StepView::Identify { .. } => false,
        StepView::Name { case } => blank_evidence(case, world),
        StepView::Scan { case } => exists|n: nat|
            #[trigger] (world.scan)(n, case.path) == Ok::<Option<u64>, Seq<char>>(None),
        StepView::Settled { verdict } => verdict is Blank,
    }
}

/// What has to have been seen of a drive for it to be called blank: it did not
/// come over the network, has no partitions, read without anything known at
/// either end, and everything looked at was zero.
pub open spec fn blank_evidence(case: CaseView, world: World) -> bool {
    &&& case.remote is None
    &&& case.parts.len() == 0
    &&& exists|n: nat| nothing_known(#[trigger] (world.ends)(n, case.path))
    &&& exists|n: nat|
        #[trigger] (world.scan)(n, case.path) == Ok::<Option<u64>, Seq<char>>(None)
}

/// Whether a device was read, and nothing known was at either end of it.
pub open spec fn nothing_known(seen: Result<SniffView, Seq<char>>) -> bool {
    match seen {
        Ok(s) => sniff::front_name(s) is None && sniff::end_name(s) is None,
        Err(_) => false,
    }
}

proof fn lemma_blank(step: StepView, world: World, n: nat)
    requires
        on_the_way(step),
    ensures
        verdict_from(step, world, n) is Blank ==> blank_way(step, world),
    decreases steps_left(step),
{
    if !(step is Settled) {
        let then = step_on(step, world, n);
        lemma_blank(then, world, n + 1);
        if then is Scan {
            assert(nothing_known((world.ends)(n, step->Name_case.path)));
        }
    }
}

/// `Blank` is reached one way only: there is a medium, nothing removable,
/// nothing over the network, no partitions, nothing known at either end, and
/// every byte that was looked at is zero. This holds however the machine's
/// answers change between one question and the next.
pub proof fn law_blank_is_reached_one_way_only(case: CaseView, world: World)
    ensures
        verdict_on(case, world) is Blank ==> {
            &&& case.size_bytes > 0
            &&& !case.removable
            &&& blank_evidence(case, world)
        },
{
    lemma_blank(start(case), world, 0);
}

/// Nothing removable is ever taken, empty or not, and none of it is ever this
/// node's: it is left alone without being read.
pub proof fn law_nothing_removable_is_ever_taken(case: CaseView, world: World)
    requires
        case.removable,
    ensures
        verdict_on(case, world) == if case.size_bytes == 0 {
            VerdictView::Unreadable { why: "no medium (reports zero sectors)"@ }
        } else {
            VerdictView::Foreign { what: removable_text(case.model) }
        },
{
}

/// The way to a drive of this node's, from a step on the way.
spec fn mine_way(step: StepView, world: World, v: VerdictView) -> bool {
    match step {
        StepView::Sniff { case, at } => mine_evidence(case, world, v),
        StepView::Identify { case, at } => {
            &&& case.remote is None
            &&& !case.claimed_by_another()
            &&& v is Mine
            &&& v->slab == case.probe(at)
            &&& exists|n: nat|
                #[trigger] (world.slab)(n, case.probe(at)) == Some((v->Mine_slab_id, v->role))
        },
        StepView::Settled { verdict } => verdict == v,
        _ => false,
    }
}

/// What has to have been seen of a drive for it to be called this node's: it
/// did not come over the network, nobody else has claimed it, and on the drive
/// or on one of its partitions a slab begins that stormblock named.
pub open spec fn mine_evidence(case: CaseView, world: World, v: VerdictView) -> bool {
    &&& case.can_identify
    &&& case.remote is None
    &&& !case.claimed_by_another()
    &&& exists|at: int| 0 <= at <= case.parts.len() && slab_seen(case, world, v, at)
}

/// Whether the device is the slab that a verdict speaks of: a slab began there
/// when it was read, and stormblock gave it the name and the role.
pub open spec fn slab_seen(case: CaseView, world: World, v: VerdictView, at: int) -> bool {
    &&& v matches VerdictView::Mine { slab_id, role, slab }
    &&& slab == case.probe(at)
    &&& exists|n: nat| reads_as_slab(#[trigger] (world.ends)(n, slab))
    &&& exists|n: nat| #[trigger] (world.slab)(n, slab) == Some((slab_id, role))
}

/// Whether a device was read, and a slab begins there.
pub open spec fn reads_as_slab(seen: Result<SniffView, Seq<char>>) -> bool {
    seen matches Ok(s) && s.is_slab()
}

proof fn lemma_mine(step: StepView, world: World, n: nat)
    requires
        on_the_way(step),
    ensures
        verdict_from(step, world, n) is Mine ==> mine_way(
            step,
            world,
            verdict_from(step, world, n),
        ),
    decreases steps_left(step),
{
    if !(step is Settled) {
        let then = step_on(step, world, n);
        let v = verdict_from(step, world, n);
        lemma_mine(then, world, n + 1);
        if v is Mine && step is Sniff && then is Identify {
            let case = step->Sniff_case;
            let at = step->Sniff_at;
            assert(reads_as_slab((world.ends)(n, case.probe(at))));
            assert(slab_seen(case, world, v, at));
        }
    }
}

/// A drive is this node's on positive evidence only: it has a medium, is not
/// removable, did not come over the network, is not claimed by anybody else,
/// and a slab begins on it, or on one of its partitions, that stormblock named.
/// The verdict carries that name, that role and that device.
pub proof fn law_what_is_mine_was_named(case: CaseView, world: World)
    ensures
        verdict_on(case, world) is Mine ==> {
            &&& case.size_bytes > 0
            &&& !case.removable
            &&& mine_evidence(case, world, verdict_on(case, world))
        },
{
    lemma_mine(start(case), world, 0);
}

/// Nothing that arrived over the network is ever taken, and none of it is ever
/// this node's, whatever is on it.
pub proof fn law_nothing_over_the_network_is_ever_taken(case: CaseView, world: World)
    requires
        case.remote is Some,
    ensures
        !(verdict_on(case, world) is Blank),
        !(verdict_on(case, world) is Mine),
{
    law_blank_is_reached_one_way_only(case, world);
    law_what_is_mine_was_named(case, world);
}

/// A drive that another node has claimed is never this node's.
pub proof fn law_a_claim_by_another_node_is_decisive(case: CaseView, world: World)
    requires
        case.claimed_by_another(),
    ensures
        !(verdict_on(case, world) is Mine),
{
    law_what_is_mine_was_named(case, world);
}

/// A slab on the whole drive that cannot be named, because there is no
/// stormblock or because stormblock would not, is left alone: it is neither
/// this node's nor free.
pub proof fn law_a_slab_that_cannot_be_named_is_left_alone(case: CaseView, world: World)
    requires
        case.size_bytes > 0,
        reads_as_slab((world.ends)(0, case.path)),
        !case.can_identify || (world.slab)(1, case.path) is None,
    ensures
        verdict_on(case, world) is Foreign,
{
    reveal_with_fuel(verdict_from, 3);
}

/// Whether a world answers a question the same way whenever it is asked.
pub open spec fn steady(world: World) -> bool {
    &&& forall|n: nat, d: Seq<char>| #[trigger] (world.ends)(n, d) == (world.ends)(0, d)
    &&& forall|n: nat, d: Seq<char>| #[trigger] (world.slab)(n, d) == (world.slab)(0, d)
    &&& forall|n: nat, d: Seq<char>| #[trigger] (world.scan)(n, d) == (world.scan)(0, d)
}

/// The first device, from `at` on, where a slab begins.
pub open spec fn first_slab(case: CaseView, world: World, at: int) -> Option<int>
    decreases case.parts.len() + 1 - at,
{
    if at > case.parts.len() {
        None
    } else if reads_as_slab((world.ends)(0, case.probe(at))) {
        Some(at)
    } else {
        first_slab(case, world, at + 1)
    }
}

/// The verdict on a drive that carries no slab and came over nothing, from what
/// is at its ends and what looking through it finds.
pub open spec fn plain_verdict(
    case: CaseView,
    ends: SniffView,
    scan: Result<Option<u64>, Seq<char>>,
) -> VerdictView {
    if case.parts.len() > 0 {
        VerdictView::Foreign { what: table_text(sniff::front_name(ends), case.parts.len()) }
    } else {
        match (sniff::front_name(ends), sniff::end_name(ends), scan) {
            (Some(what), _, _) => VerdictView::Foreign { what },
            (None, Some(what), _) => VerdictView::Foreign { what },
            (None, None, Ok(Some(off))) => VerdictView::Foreign {
                what: "unrecognised data at offset "@ + text::decimal(off as nat),
            },
            (None, None, Ok(None)) => VerdictView::Blank,
            (None, None, Err(why)) => VerdictView::Unreadable { why },
        }
    }
}

/// The verdict on a drive that has a medium and is not removable, in a world
/// that is steady.
pub open spec fn verdict_by_evidence(case: CaseView, world: World) -> VerdictView {
    match (world.ends)(0, case.path) {
        Err(why) => VerdictView::Unreadable { why },
        Ok(ends) => match first_slab(case, world, 0) {
            Some(at) => if !case.can_identify {
                VerdictView::Foreign {
                    what: "stormblock slab on "@ + case.probe(at)
                        + " - no stormblock binary to identify it"@,
                }
            } else {
                match (world.slab)(0, case.probe(at)) {
                    None => VerdictView::Foreign {
                        what: "stormblock slab magic on "@ + case.probe(at)
                            + " that stormblock would not identify"@,
                    },
                    Some((slab_id, role)) => slab_verdict(case, at, slab_id, role),
                }
            },
            None => match case.remote {
                Some(via) => VerdictView::Foreign { what: "attached over "@ + via },
                None => plain_verdict(case, ends, (world.scan)(0, case.path)),
            },
        },
    }
}

proof fn lemma_by_evidence(case: CaseView, world: World, at: int, n: nat)
    requires
        steady(world),
        0 <= at <= case.parts.len() + 1,
        at > 0 ==> (world.ends)(0, case.path) is Ok,
        first_slab(case, world, at) == first_slab(case, world, 0),
    ensures
        verdict_from(look_on(case, at), world, n) == verdict_by_evidence(case, world),
    decreases case.parts.len() + 1 - at,
{
    let step = look_on(case, at);
    if at <= case.parts.len() {
        let seen = (world.ends)(n, case.probe(at));
        assert(seen == (world.ends)(0, case.probe(at)));
        let then = step_on(step, world, n);
        if reads_as_slab(seen) {
            assert((world.slab)(n + 1, case.probe(at)) == (world.slab)(0, case.probe(at)));
            reveal_with_fuel(verdict_from, 3);
        } else if at == 0 && seen is Err {
            reveal_with_fuel(verdict_from, 2);
        } else {
            lemma_by_evidence(case, world, at + 1, n + 1);
        }
    } else if case.remote is None {
        assert((world.ends)(n, case.path) == (world.ends)(0, case.path));
        assert((world.scan)(n + 1, case.path) == (world.scan)(0, case.path));
        reveal_with_fuel(verdict_from, 3);
    }
}

/// What the verdict on a drive is, when the machine answers the same way
/// whenever it is asked: no medium and removable media first, then a drive that
/// will not answer, then the first slab on it and whose that is, then where the
/// drive is attached, and only then what else is on it.
pub proof fn law_the_verdict_by_the_evidence(case: CaseView, world: World)
    requires
        steady(world),
    ensures
        verdict_on(case, world) == if case.size_bytes == 0 {
            VerdictView::Unreadable { why: "no medium (reports zero sectors)"@ }
        } else if case.removable {
            VerdictView::Foreign { what: removable_text(case.model) }
        } else {
            verdict_by_evidence(case, world)
        },
{
    if case.size_bytes > 0 && !case.removable {
        lemma_by_evidence(case, world, 0, 0);
    }
}

/// The first slab on a drive, whole or in a partition, is this node's when the
/// drive is in this chassis and nobody else has claimed it. The same slab over
/// the network, or on a drive that another node has claimed, belongs to
/// somebody else.
pub proof fn law_whose_a_slab_is(
    case: CaseView,
    world: World,
    at: int,
    slab_id: Seq<char>,
    role: Seq<char>,
)
    requires
        steady(world),
        case.size_bytes > 0,
        !case.removable,
        case.can_identify,
        (world.ends)(0, case.path) is Ok,
        first_slab(case, world, 0) == Some(at),
        (world.slab)(0, case.probe(at)) == Some((slab_id, role)),
    ensures
        case.remote is None && !case.claimed_by_another() ==> verdict_on(case, world)
            == (VerdictView::Mine { slab_id, role, slab: case.probe(at) }),
        case.remote matches Some(via) ==> verdict_on(case, world) == (VerdictView::AnotherNode {
            slab_id,
            owner: via,
        }),
        case.remote is None && case.claimed_by_another() ==> verdict_on(case, world)
            == (VerdictView::AnotherNode {
            slab_id,
            owner: "node "@ + case.claimed_by->0 + " (claimed on its ESP)"@,
        }),
{
    law_the_verdict_by_the_evidence(case, world);
}

/// The first slab on a drive, whole or in a partition, is left alone when it
/// cannot be named, wherever the drive is attached.
pub proof fn law_the_first_slab_is_left_alone_when_it_cannot_be_named(
    case: CaseView,
    world: World,
    at: int,
)
    requires
        steady(world),
        case.size_bytes > 0,
        (world.ends)(0, case.path) is Ok,
        first_slab(case, world, 0) == Some(at),
        !case.can_identify || (world.slab)(0, case.probe(at)) is None,
    ensures
        verdict_on(case, world) is Foreign,
{
    law_the_verdict_by_the_evidence(case, world);
}

// ------------------------------------------------------ drives that hold bytes
/// A machine whose devices hold the given bytes and answer every read with all
/// of them, and whose stormblock answers as given.
pub open spec fn holding(
    bytes: spec_fn(Seq<char>) -> Seq<u8>,
    slab: spec_fn(nat, Seq<char>) -> Option<(Seq<char>, Seq<char>)>,
) -> World {
    World {
        ends: |n: nat, d: Seq<char>| sniff::ends_of(bytes(d)),
        slab,
        scan: |n: nat, d: Seq<char>|
            Ok(scan::outcome(scan::from_whole(bytes(d).len() as u64, 0), bytes(d))),
    }
}

/// A drive that is called blank is zero wherever it was looked at. That is the
/// whole of a drive smaller than a gigabyte; of a larger one the first 64 MiB
/// and the last megabyte, and the samples between them.
pub proof fn law_a_dirtied_drive_is_not_blank(
    case: CaseView,
    bytes: spec_fn(Seq<char>) -> Seq<u8>,
    slab: spec_fn(nat, Seq<char>) -> Option<(Seq<char>, Seq<char>)>,
    i: int,
)
    requires
        bytes(case.path).len() <= u64::MAX,
        0 <= i < bytes(case.path).len(),
        scan::in_front(bytes(case.path).len() as u64, i) || scan::in_tail(
            bytes(case.path).len() as u64,
            i,
        ),
        bytes(case.path)[i] != 0,
    ensures
        !(verdict_on(case, holding(bytes, slab)) is Blank),
{
    let world = holding(bytes, slab);
    if verdict_on(case, world) is Blank {
        law_blank_is_reached_one_way_only(case, world);
        let n = choose|n: nat|
            #[trigger] (world.scan)(n, case.path) == Ok::<Option<u64>, Seq<char>>(None);
        assert((world.scan)(n, case.path) == Ok::<Option<u64>, Seq<char>>(None));
        scan::law_the_first_byte_that_is_not_zero_is_found(bytes(case.path));
    }
}

/// A drive in this chassis that is not removable, has no partitions and holds
/// nothing but zeros is blank.
pub proof fn law_a_zeroed_drive_is_blank(
    case: CaseView,
    bytes: spec_fn(Seq<char>) -> Seq<u8>,
    slab: spec_fn(nat, Seq<char>) -> Option<(Seq<char>, Seq<char>)>,
)
    requires
        0 < bytes(case.path).len() <= u64::MAX,
        sniff::all_zero(bytes(case.path)),
        case.size_bytes > 0,
        !case.removable,
        case.remote is None,
        case.parts.len() == 0,
    ensures
        verdict_on(case, holding(bytes, slab)) is Blank,
{
    let world = holding(bytes, slab);
    let drive = bytes(case.path);
    scan::law_the_first_byte_that_is_not_zero_is_found(drive);
    let ends = sniff::ends_of(drive)->Ok_0;
    assert(sniff::all_zero(ends.head));
    assert(sniff::all_zero(ends.tail));
    sniff::law_zeros_have_no_name(ends);
    reveal_with_fuel(verdict_from, 5);
}

// ------------------------------------------------------------ whole machines
/// Whether each drive of a machine carries the verdict that was come to on it,
/// each in its own world.
pub open spec fn judged(s: Seq<Drive>, cases: Seq<CaseView>, worlds: Seq<World>) -> bool {
    &&& cases.len() == s.len()
    &&& worlds.len() == s.len()
    &&& forall|i: int|
        0 <= i < s.len() ==> (#[trigger] s[i]).path@ == cases[i].path && s[i].verdict@
            == verdict_on(cases[i], worlds[i])
}

/// The drive that a node takes has been seen to be blank: it has a medium, is
/// not removable, did not come over the network, has no partitions, read without
/// anything known at either end, and everything looked at on it was zero.
pub proof fn law_what_is_taken_was_seen_to_be_blank(
    s: Seq<Drive>,
    cases: Seq<CaseView>,
    worlds: Seq<World>,
)
    requires
        judged(s, cases, worlds),
        survey::intent_of(s) is TakeOver,
    ensures
        exists|i: int|
            {
                &&& 0 <= i < s.len()
                &&& survey::intent_of(s)->path == (#[trigger] cases[i]).path
                &&& cases[i].size_bytes > 0
                &&& !cases[i].removable
                &&& blank_evidence(cases[i], worlds[i])
            },
{
    survey::law_only_a_blank_drive_is_taken(s);
    let i = choose|i: int|
        0 <= i < s.len() && (#[trigger] s[i]).is_blank() && survey::intent_of(s)->path
            == s[i].path@;
    assert(s[i].verdict@ is Blank);
    law_blank_is_reached_one_way_only(cases[i], worlds[i]);
    assert(survey::intent_of(s)->path == cases[i].path);
}

/// The slab that a node boots has been named: it begins on a drive in this
/// chassis, or on a partition of one, that nobody else has claimed, and
/// stormblock gave it the name that the node is told.
pub proof fn law_what_is_booted_was_named(
    s: Seq<Drive>,
    cases: Seq<CaseView>,
    worlds: Seq<World>,
)
    requires
        judged(s, cases, worlds),
        survey::intent_of(s) is AlreadyMine,
    ensures
        exists|i: int|
            {
                &&& 0 <= i < s.len()
                &&& survey::intent_of(s)->drive == (#[trigger] cases[i]).path
                &&& s[i].verdict@ matches VerdictView::Mine { slab_id, slab, .. }
                &&& survey::intent_of(s)->slab == slab
                &&& survey::intent_of(s)->slab_id == slab_id
                &&& cases[i].size_bytes > 0
                &&& !cases[i].removable
                &&& mine_evidence(cases[i], worlds[i], s[i].verdict@)
            },
{
    survey::law_what_is_booted_is_mine_and_boots(s);
    let i = choose|i: int|
        {
            &&& 0 <= i < s.len()
            &&& (#[trigger] s[i]).is_mine()
            &&& survey::intent_of(s)->drive == s[i].path@
            &&& survey::intent_of(s)->slab == s[i].verdict->slab@
            &&& survey::intent_of(s)->slab_id == s[i].verdict->Mine_slab_id@
        };
    law_what_is_mine_was_named(cases[i], worlds[i]);
    assert(survey::intent_of(s)->drive == cases[i].path);
}

// ------------------------------------------------------------- step by step
/// The devices that are looked at are the drive, and each of its partitions
/// under its own name in the directory where the drive is.
pub proof fn law_which_devices_are_looked_at(
    case: CaseView,
    at: int,
    dir: Seq<char>,
    file: Seq<char>,
)
    requires
        1 <= at <= case.parts.len(),
        case.path == dir + seq!['/'] + file,
        names::plain(file),
        names::plain(case.parts[at - 1]),
        dir.len() > 0,
        dir.last() != '/',
        !(dir.len() > 1 && dir.last() == '.' && dir[dir.len() - 2] == '/'),
    ensures
        case.probe(0) == case.path,
        case.probe(at) == dir + seq!['/'] + case.parts[at - 1],
{
    names::law_the_directory_stays(dir, file, case.parts[at - 1]);
}

/// A claim stands against this node when it names another, and only where this
/// machine says who it is.
pub proof fn law_whose_claim_stands_against_this_node(case: CaseView)
    ensures
        case.claimed_by_another() <==> {
            &&& case.claimed_by is Some
            &&& case.me is Some
            &&& case.claimed_by->0 != case.me->0
        },
{
}

/// A drive without a medium is not read, and neither is removable media; on
/// anything else the whole drive is looked at first.
pub proof fn law_what_is_not_read(case: CaseView)
    ensures
        case.size_bytes == 0 ==> start(case) == (StepView::Settled {
            verdict: VerdictView::Unreadable { why: "no medium (reports zero sectors)"@ },
        }),
        case.size_bytes > 0 && case.removable && case.model is Some ==> start(case)
            == (StepView::Settled {
            verdict: VerdictView::Foreign {
                what: "removable media ("@ + case.model->0 + ")"@,
            },
        }),
        case.size_bytes > 0 && case.removable && case.model is None ==> start(case)
            == (StepView::Settled {
            verdict: VerdictView::Foreign { what: "removable media"@ },
        }),
        case.size_bytes > 0 && !case.removable ==> start(case) == (StepView::Sniff { case, at: 0 }),
{
}

/// What follows on a device that was read. The whole drive that would not be
/// read is left alone for that reason. A device that holds no slab, or a
/// partition that would not be read, is passed over for the next one; after the
/// last a drive from elsewhere is left alone, and one in this chassis is looked
/// at for what else is on it. A slab is asked after, when there is anything to
/// ask.
pub proof fn law_what_follows_on_a_device(case: CaseView, at: int, s: SniffView, e: Seq<char>)
    requires
        0 <= at <= case.parts.len(),
    ensures
        after_sniff(case, 0, Err(e)) == (StepView::Settled {
            verdict: VerdictView::Unreadable { why: e },
        }),
        ({
            let slab = s.head.len() >= 8 && s.head.take(8) == seq![
                0x53u8,
                0x54u8,
                0x52u8,
                0x4du8,
                0x53u8,
                0x4cu8,
                0x41u8,
                0x42u8,
            ];
            let on = after_sniff(case, at, Ok(s));
            &&& at > 0 && !slab ==> after_sniff(case, at, Err(e)) == on
            &&& !slab && at < case.parts.len() ==> on == (StepView::Sniff { case, at: at + 1 })
            &&& !slab && at == case.parts.len() && case.remote is None ==> on == (StepView::Name {
                case,
            })
            &&& !slab && at == case.parts.len() && case.remote is Some ==> on
                == (StepView::Settled {
                verdict: VerdictView::Foreign { what: "attached over "@ + case.remote->0 },
            })
            &&& slab && case.can_identify ==> on == (StepView::Identify { case, at })
            &&& slab && !case.can_identify ==> on == (StepView::Settled {
                verdict: VerdictView::Foreign {
                    what: "stormblock slab on "@ + case.probe(at)
                        + " - no stormblock binary to identify it"@,
                },
            })
        }),
{
    let mark = seq![0x53u8, 0x54u8, 0x52u8, 0x4du8, 0x53u8, 0x4cu8, 0x41u8, 0x42u8];
    sniff::law_a_slab_is_told_by_its_first_bytes(s);
    if s.is_slab() {
        assert forall|k: int| 0 <= k < 8 implies s.head.take(8)[k] == mark[k] by {
            assert(s.head[0 + k] == mark[k]);
        }
        assert(s.head.take(8) == mark);
    }
    if s.head.len() >= 8 && s.head.take(8) == mark {
        assert forall|k: int| 0 <= k < 8 implies s.head[0 + k] == #[trigger] mark[k] by {
            assert(s.head.take(8)[k] == s.head[k]);
        }
    }
}

/// What follows on a slab that was asked after: without a name it is left alone;
/// over the network it belongs to where it came from; with a claim by a node
/// that is not this one it belongs to that node; and otherwise it is this node's,
/// by the name, the role and the device it was found on.
pub proof fn law_what_follows_on_a_slab(case: CaseView, at: int, id: Seq<char>, role: Seq<char>)
    ensures
        after_identify(case, at, None) == (StepView::Settled {
            verdict: VerdictView::Foreign {
                what: "stormblock slab magic on "@ + case.probe(at)
                    + " that stormblock would not identify"@,
            },
        }),
        case.remote is Some ==> after_identify(case, at, Some((id, role))) == (StepView::Settled {
            verdict: VerdictView::AnotherNode { slab_id: id, owner: case.remote->0 },
        }),
        ({
            let others = case.claimed_by is Some && case.me is Some && case.claimed_by->0
                != case.me->0;
            &&& case.remote is None && others ==> after_identify(case, at, Some((id, role)))
                == (StepView::Settled {
                verdict: VerdictView::AnotherNode {
                    slab_id: id,
                    owner: "node "@ + case.claimed_by->0 + " (claimed on its ESP)"@,
                },
            })
            &&& case.remote is None && !others ==> after_identify(case, at, Some((id, role)))
                == (StepView::Settled {
                verdict: VerdictView::Mine { slab_id: id, role, slab: case.probe(at) },
            })
        }),
{
}

/// What follows on a drive that was read for what is on it: partitions are
/// counted and told with the table they are in; then what stands at the front,
/// and then at the end, is told; and only a drive without any of these is looked
/// through.
pub proof fn law_what_follows_on_a_drive_without_a_slab(case: CaseView, s: SniffView, e: Seq<char>)
    ensures
        after_name(case, Err(e)) == (StepView::Settled {
            verdict: VerdictView::Unreadable { why: e },
        }),
        ({
            let table = match sniff::front_name(s) {
                Some(t) => t,
                None => "partition table"@,
            };
            let n = case.parts.len();
            let on = after_name(case, Ok(s));
            &&& n == 1 ==> on == (StepView::Settled {
                verdict: VerdictView::Foreign { what: table + ", 1 partition"@ },
            })
            &&& n > 1 ==> on == (StepView::Settled {
                verdict: VerdictView::Foreign {
                    what: table + ", "@ + text::decimal(n) + " partitions"@,
                },
            })
            &&& n == 0 && sniff::front_name(s) is Some ==> on == (StepView::Settled {
                verdict: VerdictView::Foreign { what: sniff::front_name(s)->0 },
            })
            &&& n == 0 && sniff::front_name(s) is None && sniff::end_name(s) is Some ==> on
                == (StepView::Settled {
                verdict: VerdictView::Foreign { what: sniff::end_name(s)->0 },
            })
            &&& n == 0 && sniff::front_name(s) is None && sniff::end_name(s) is None ==> on
                == (StepView::Scan { case })
        }),
{
    reveal_strlit("");
    reveal_strlit("s");
    reveal_strlit(", ");
    reveal_strlit(" partition");
    reveal_strlit(" partitions");
    reveal_strlit(", 1 partition");
    let table = match sniff::front_name(s) {
        Some(t) => t,
        None => "partition table"@,
    };
    let n = case.parts.len();
    assert(" partition"@ + "s"@ == " partitions"@);
    if n == 1 {
        reveal_with_fuel(text::decimal, 2);
        assert(table + ", "@ + text::decimal(n) + " partition"@ + ""@ == table + ", 1 partition"@);
    } else {
        assert(table + ", "@ + text::decimal(n) + " partition"@ + "s"@ == table + ", "@
            + text::decimal(n) + " partitions"@);
    }
}

/// What follows on a drive that was looked through: it is blank when nothing was
/// found, and otherwise what was found is told by its place.
pub proof fn law_what_follows_on_a_look_through_a_drive(off: u64, e: Seq<char>)
    ensures
        after_scan(Ok(None)) == (StepView::Settled { verdict: VerdictView::Blank }),
        after_scan(Ok(Some(off))) == (StepView::Settled {
            verdict: VerdictView::Foreign {
                what: "unrecognised data at offset "@ + text::decimal(off as nat),
            },
        }),
        after_scan(Err(e)) == (StepView::Settled { verdict: VerdictView::Unreadable { why: e } }),
{
}

} // verus!
