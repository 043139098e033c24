//! What is on this machine's drives, and whose it is.
//!
//! This is the whole of zeroboot's judgement. Taking a drive over is easy: it
//! is a format. Deciding that a drive is *nobody's* is the part that can
//! destroy someone's data if it is wrong, so it is written to be read: every
//! verdict names the evidence it rests on, and anything unrecognised is
//! foreign, never "probably free".

use vstd::prelude::*;

use crate::esp;
use crate::text;

verus! {

// --------------------------------------------------------------- verdicts
/// What a drive turned out to be.
#[derive(Debug, PartialEq, Eq)]
pub enum Verdict {
    /// A stormblock slab this node already owns. Nothing to do: this is a node
    /// that has already assimilated and is booting again.
    Mine {
        slab_id: String,
        role: String,
        /// The device the slab actually is: the drive itself when the slab was
        /// written to the whole disk, and a partition of it when the disk was
        /// laid out with an ESP beside it. This is the device that boots, and
        /// it is not always the drive it was found on.
        slab: String,
    },
    /// A stormblock slab belonging to a different node. Never taken: two nodes
    /// writing one slab is how you lose both.
    AnotherNode { slab_id: String, owner: String },
    /// Something is on it that is not ours: a partition table, a filesystem, a
    /// signature we do not recognise. Left alone.
    Foreign { what: String },
    /// Nothing recognisable. Available to take.
    Blank,
    /// Could not be read well enough to judge. Treated as foreign: a drive
    /// that will not answer is not a drive to format.
    Unreadable { why: String },
}

/// What a [`Verdict`] says.
pub enum VerdictView {
    Mine { slab_id: Seq<char>, role: Seq<char>, slab: Seq<char> },
    AnotherNode { slab_id: Seq<char>, owner: Seq<char> },
    Foreign { what: Seq<char> },
    Blank,
    Unreadable { why: Seq<char> },
}

impl View for Verdict {
    type V = VerdictView;

    open spec fn view(&self) -> VerdictView {
        match *self {
            Verdict::Mine { slab_id, role, slab } => VerdictView::Mine {
                slab_id: slab_id@,
                role: role@,
                slab: slab@,
            },
            Verdict::AnotherNode { slab_id, owner } => VerdictView::AnotherNode {
                slab_id: slab_id@,
                owner: owner@,
            },
            Verdict::Foreign { what } => VerdictView::Foreign { what: what@ },
            Verdict::Blank => VerdictView::Blank,
            Verdict::Unreadable { why } => VerdictView::Unreadable { why: why@ },
        }
    }
}

impl Clone for Verdict {
    fn clone(&self) -> (r: Self)
        ensures
            r@ == self@,
    {
        match self {
            Verdict::Mine { slab_id, role, slab } => Verdict::Mine {
                slab_id: slab_id.clone(),
                role: role.clone(),
                slab: slab.clone(),
            },
            Verdict::AnotherNode { slab_id, owner } => Verdict::AnotherNode {
                slab_id: slab_id.clone(),
                owner: owner.clone(),
            },
            Verdict::Foreign { what } => Verdict::Foreign { what: what.clone() },
            Verdict::Blank => Verdict::Blank,
            Verdict::Unreadable { why } => Verdict::Unreadable { why: why.clone() },
        }
    }
}

/// A verdict in words, with the evidence it rests on.
pub open spec fn verdict_text(v: VerdictView) -> Seq<char> {
    match v {
        VerdictView::Mine { slab_id, role, slab } => "mine - stormblock slab "@ + slab_id + " on "@
            + slab + " ("@ + role + ")"@,
        VerdictView::AnotherNode { slab_id, owner } => "another node's - slab "@ + slab_id
            + " owned by "@ + owner,
        VerdictView::Foreign { what } => "not ours - "@ + what,
        VerdictView::Blank => "blank - available"@,
        VerdictView::Unreadable { why } => "unreadable - "@ + why,
    }
}

impl Verdict {
    /// Whether zeroboot may format this drive.
    ///
    /// Only a blank one. Not "not mine", not "unreadable", not "foreign but it
    /// looked empty": the one case where the evidence says there is
    /// nothing to lose.
    pub fn is_available(&self) -> (r: bool)
        ensures
            r == (self is Blank),
    {
        matches!(self, Verdict::Blank)
    }

    /// Whether this node is already set up here.
    pub fn is_mine(&self) -> (r: bool)
        ensures
            r == (self is Mine),
    {
        matches!(self, Verdict::Mine { .. })
    }

    /// What the slab is for, when this drive carries one of ours.
    pub open spec fn role(self) -> Option<Seq<char>> {
        match self {
            Verdict::Mine { role, .. } => Some(role@),
            _ => None,
        }
    }

    /// What the slab is for, when this drive carries one of ours.
    pub fn slab_role(&self) -> (r: Option<&str>)
        ensures
            match r {
                Some(s) => self.role() == Some(s@),
                None => self.role() is None,
            },
    {
        match self {
            Verdict::Mine { role, .. } => Some(role.as_str()),
            _ => None,
        }
    }

    /// Whether the slab is one of ours and a system slab.
    fn is_system(&self) -> (r: bool)
        ensures
            r == (self.role() == Some("system"@)),
    {
        match self.slab_role() {
            Some(role) => text::equal(role, "system"),
            None => false,
        }
    }

    /// The verdict in words, with the evidence it rests on.
    pub fn describe(&self) -> (r: String)
        ensures
            r@ == verdict_text(self@),
    {
        match self {
            Verdict::Mine { slab_id, role, slab } => {
                let mut s = text::owned("mine - stormblock slab ");
                s.append(slab_id.as_str());
                s.append(" on ");
                s.append(slab.as_str());
                s.append(" (");
                s.append(role.as_str());
                s.append(")");
                s
            },
            Verdict::AnotherNode { slab_id, owner } => {
                let mut s = text::owned("another node's - slab ");
                s.append(slab_id.as_str());
                s.append(" owned by ");
                s.append(owner.as_str());
                s
            },
            Verdict::Foreign { what } => {
                let mut s = text::owned("not ours - ");
                s.append(what.as_str());
                s
            },
            Verdict::Blank => text::owned("blank - available"),
            Verdict::Unreadable { why } => {
                let mut s = text::owned("unreadable - ");
                s.append(why.as_str());
                s
            },
        }
    }
}

// ----------------------------------------------------------------- drives
/// One drive, judged.
#[derive(Debug, PartialEq, Eq)]
pub struct Drive {
    pub path: String,
    pub size_bytes: u64,
    pub rotational: bool,
    /// What the drive says it is, when it says anything: the SCSI or NVMe
    /// model string.
    pub model: Option<String>,
    /// The drive's own name for itself, independent of where it is plugged in.
    /// A device path is not an identity.
    pub wwid: Option<String>,
    pub serial: Option<String>,
    /// The GPT disk GUID and every partition's own GUID, when the drive has a
    /// partition table.
    pub table: Option<esp::Table>,
    /// What the drive's ESP says, when it has one: whether it can boot, what is
    /// missing if it cannot, and who has claimed it.
    ///
    /// Kept apart from the verdict on purpose. "Whose is this?" and "will it
    /// boot?" are different questions with different evidence.
    pub esp: Option<esp::Esp>,
    pub verdict: Verdict,
}

/// What a [`Drive`] says.
pub struct DriveView {
    pub path: Seq<char>,
    pub size_bytes: u64,
    pub rotational: bool,
    pub model: Option<Seq<char>>,
    pub wwid: Option<Seq<char>>,
    pub serial: Option<Seq<char>>,
    pub table: Option<esp::TableView>,
    pub esp: Option<esp::EspView>,
    pub verdict: VerdictView,
}

impl View for Drive {
    type V = DriveView;

    open spec fn view(&self) -> DriveView {
        DriveView {
            path: self.path@,
            size_bytes: self.size_bytes,
            rotational: self.rotational,
            model: text::view_of(self.model),
            wwid: text::view_of(self.wwid),
            serial: text::view_of(self.serial),
            table: match self.table {
                Some(t) => Some(t@),
                None => None,
            },
            esp: match self.esp {
                Some(e) => Some(e@),
                None => None,
            },
            verdict: self.verdict@,
        }
    }
}

impl Clone for Drive {
    fn clone(&self) -> (r: Self)
        ensures
            r@ == self@,
    {
        let table = match &self.table {
            Some(t) => Some(t.clone()),
            None => None,
        };
        let esp = match &self.esp {
            Some(e) => Some(e.clone()),
            None => None,
        };
        Drive {
            path: self.path.clone(),
            size_bytes: self.size_bytes,
            rotational: self.rotational,
            model: text::copy_option(&self.model),
            wwid: text::copy_option(&self.wwid),
            serial: text::copy_option(&self.serial),
            table,
            esp,
            verdict: self.verdict.clone(),
        }
    }
}

impl Drive {
    /// Whether this node owns a slab here.
    pub open spec fn is_mine(self) -> bool {
        self.verdict is Mine
    }

    /// Whether this node owns a system slab here.
    pub open spec fn is_system(self) -> bool {
        self.verdict.role() == Some("system"@)
    }

    /// Whether the drive may be taken.
    pub open spec fn is_blank(self) -> bool {
        self.verdict is Blank
    }

    /// Whether the drive can start the node: what its ESP says when it has
    /// one, and otherwise whether its slab is a system slab of ours.
    pub open spec fn can_boot(self) -> bool {
        match self.esp {
            Some(e) => e.boot is Some,
            None => self.is_system(),
        }
    }

    /// Why it cannot, in words.
    pub open spec fn cannot_boot_text(self) -> Seq<char> {
        match self.esp {
            None => match self.verdict.role() {
                Some(role) => "a "@ + role + " slab, which does not boot a node"@,
                None => "nothing on it that boots"@,
            },
            Some(e) => if e.missing@.len() == 0 {
                "nothing bootable on its ESP"@
            } else {
                text::joined(text::texts(e.missing@), "; "@)
            },
        }
    }

    /// Whether this drive can start the node.
    ///
    /// Two layouts reach this, and only one of them boots itself from
    /// firmware:
    ///
    /// - **A disk zeroboot laid out** has an ESP carrying a bootloader, a
    ///   kernel, an initramfs and a loader entry. It claims to boot on its own,
    ///   and the claim is checkable: if the kernel the entry names is not
    ///   there, the drive does not boot.
    /// - **A disk assimilated by the flow-over** has no ESP at all, because the
    ///   node netboots its kernel and only its *slab* is local. There is
    ///   nothing here to check and nothing missing.
    ///
    /// So the absence of an ESP is not evidence of anything. A system slab is
    /// taken at its word and a data slab is not: a data slab is not supposed to
    /// boot.
    pub fn boots(&self) -> (r: bool)
        ensures
            r == self.can_boot(),
    {
        match &self.esp {
            Some(e) => e.boot.is_some(),
            None => self.verdict.is_system(),
        }
    }

    /// Why it does not, in the drive's own words.
    pub fn why_not(&self) -> (r: String)
        ensures
            r@ == self.cannot_boot_text(),
    {
        match &self.esp {
            None => match self.verdict.slab_role() {
                Some(role) => {
                    let mut s = text::owned("a ");
                    s.append(role);
                    s.append(" slab, which does not boot a node");
                    s
                },
                None => text::owned("nothing on it that boots"),
            },
            Some(e) => if e.missing.len() == 0 {
                text::owned("nothing bootable on its ESP")
            } else {
                text::join(&e.missing, "; ")
            },
        }
    }
}

// ----------------------------------------------------------------- surveys
/// Every drive on the machine.
#[derive(Debug, PartialEq, Eq)]
pub struct Survey {
    pub drives: Vec<Drive>,
}

/// The drives that a list of references points at.
pub open spec fn pointed_at(v: Seq<&Drive>) -> Seq<Drive> {
    Seq::new(v.len(), |i: int| *v[i])
}

/// What each drive of a list says.
pub open spec fn drive_views(v: Seq<Drive>) -> Seq<DriveView> {
    Seq::new(v.len(), |i: int| v[i]@)
}

/// The drives this node owns, those with a system slab first; otherwise in the
/// order they were seen in.
pub open spec fn owned_drives(s: Seq<Drive>) -> Seq<Drive> {
    s.filter(|d: Drive| d.is_system()) + s.filter(|d: Drive| d.is_mine() && !d.is_system())
}

/// The drives this node owns and can boot from, in the order of
/// [`owned_drives`].
pub open spec fn bootable_drives(s: Seq<Drive>) -> Seq<Drive> {
    owned_drives(s).filter(|d: Drive| d.can_boot())
}

/// Whether `a` is the better drive to take: solid state before spinning, and
/// the larger of two of a kind.
pub open spec fn better(a: Drive, b: Drive) -> bool {
    (!a.rotational && b.rotational) || (a.rotational == b.rotational && a.size_bytes
        > b.size_bytes)
}

/// Whether neither of two drives is better to take than the other.
pub open spec fn alike(a: Drive, b: Drive) -> bool {
    a.rotational == b.rotational && a.size_bytes == b.size_bytes
}

/// How many drives at the front of a list stay before `d`: all up to the first
/// that `d` is better than.
pub open spec fn place_of(d: Drive, s: Seq<Drive>) -> nat
    decreases s.len(),
{
    if s.len() == 0 || better(d, s.first()) {
        0
    } else {
        1 + place_of(d, s.drop_first())
    }
}

/// The drives that may be taken, the best first; drives that are alike in the
/// order they were seen in.
pub open spec fn available_drives(s: Seq<Drive>) -> Seq<Drive>
    decreases s.len(),
{
    if s.len() == 0 {
        seq![]
    } else {
        let rest = available_drives(s.drop_last());
        if s.last().is_blank() {
            rest.insert(place_of(s.last(), rest) as int, s.last())
        } else {
            rest
        }
    }
}

/// One more drive at the end of a list adds itself to what a filter keeps, or
/// nothing.
proof fn lemma_filter_grows(s: Seq<Drive>, keep: spec_fn(Drive) -> bool, i: int)
    requires
        0 <= i < s.len(),
    ensures
        s.take(i + 1).filter(keep) == if keep(s[i]) {
            s.take(i).filter(keep).push(s[i])
        } else {
            s.take(i).filter(keep)
        },
{
    reveal(Seq::filter);
    assert(s.take(i + 1).drop_last() == s.take(i));
}

/// `place_of` stops at a drive that `d` is better than, or at the end, and at
/// none before.
proof fn lemma_place_of(d: Drive, s: Seq<Drive>)
    ensures
        place_of(d, s) <= s.len(),
        place_of(d, s) < s.len() ==> better(d, s[place_of(d, s) as int]),
        forall|i: int| 0 <= i < place_of(d, s) ==> !better(d, #[trigger] s[i]),
    decreases s.len(),
{
    if s.len() > 0 && !better(d, s.first()) {
        lemma_place_of(d, s.drop_first());
        assert forall|i: int| 0 <= i < place_of(d, s) implies !better(d, #[trigger] s[i]) by {
            if i > 0 {
                assert(s[i] == s.drop_first()[i - 1]);
            }
        }
    }
}

/// A drive that `d` is better than, with none before it, is where `place_of`
/// stops.
proof fn lemma_place_of_is(d: Drive, s: Seq<Drive>, n: int)
    requires
        0 <= n <= s.len(),
        n < s.len() ==> better(d, s[n]),
        forall|i: int| 0 <= i < n ==> !better(d, #[trigger] s[i]),
    ensures
        place_of(d, s) == n,
    decreases s.len(),
{
    if n > 0 {
        assert(s.first() == s[0]);
        let t = s.drop_first();
        assert forall|i: int| 0 <= i < n - 1 implies !better(d, #[trigger] t[i]) by {
            assert(t[i] == s[i + 1]);
        }
        lemma_place_of_is(d, t, n - 1);
    }
}

/// The drives available are in order: none is better than one before it.
pub proof fn law_available_best_first(s: Seq<Drive>)
    ensures
        forall|i: int, j: int|
            0 <= i < j < available_drives(s).len() ==> !better(
                #[trigger] available_drives(s)[j],
                #[trigger] available_drives(s)[i],
            ),
    decreases s.len(),
{
    if s.len() > 0 {
        law_available_best_first(s.drop_last());
        let rest = available_drives(s.drop_last());
        lemma_place_of(s.last(), rest);
    }
}

/// What a filter keeps when a drive is put into a list, after every drive that
/// the filter keeps.
proof fn lemma_filter_insert(s: Seq<Drive>, keep: spec_fn(Drive) -> bool, k: int, d: Drive)
    requires
        0 <= k <= s.len(),
        keep(d) ==> forall|i: int| k <= i < s.len() ==> !keep(#[trigger] s[i]),
    ensures
        s.insert(k, d).filter(keep) == if keep(d) {
            s.filter(keep).push(d)
        } else {
            s.filter(keep)
        },
{
    let a = s.take(k);
    let b = s.skip(k);
    assert(s == a + b);
    assert(s.insert(k, d) == a + seq![d] + b);
    Seq::filter_distributes_over_add(a, b, keep);
    Seq::filter_distributes_over_add(a + seq![d], b, keep);
    Seq::filter_distributes_over_add(a, seq![d], keep);
    assert(seq![d].filter(keep) == if keep(d) {
        seq![d]
    } else {
        seq![]
    }) by {
        reveal(Seq::filter);
        assert(seq![d].drop_last() == Seq::<Drive>::empty());
        assert(Seq::<Drive>::empty().filter(keep) == Seq::<Drive>::empty());
        assert(Seq::<Drive>::empty().push(d) == seq![d]);
    }
    if keep(d) {
        lemma_filter_none(b, keep);
    }
}

/// A filter that keeps no drive of a list leaves nothing.
proof fn lemma_filter_none(s: Seq<Drive>, keep: spec_fn(Drive) -> bool)
    requires
        forall|i: int| 0 <= i < s.len() ==> !keep(#[trigger] s[i]),
    ensures
        s.filter(keep) == Seq::<Drive>::empty(),
    decreases s.len(),
{
    reveal(Seq::filter);
    if s.len() > 0 {
        assert(s.last() == s[s.len() - 1]);
        assert forall|i: int| 0 <= i < s.drop_last().len() implies !keep(
            #[trigger] s.drop_last()[i],
        ) by {
            assert(s.drop_last()[i] == s[i]);
        }
        lemma_filter_none(s.drop_last(), keep);
    }
}

/// Of each kind and size, the drives available are exactly the blank drives of
/// the machine, in the order they were seen in. Nothing is lost, nothing is
/// added, and ties keep their order.
pub proof fn law_available_exactly_the_blank(s: Seq<Drive>, like: Drive)
    ensures
        available_drives(s).filter(|d: Drive| alike(d, like)) == s.filter(
            |d: Drive| d.is_blank() && alike(d, like),
        ),
    decreases s.len(),
{
    let kind = |d: Drive| alike(d, like);
    let both = |d: Drive| d.is_blank() && alike(d, like);
    reveal(Seq::filter);
    if s.len() > 0 {
        law_available_exactly_the_blank(s.drop_last(), like);
        let rest = available_drives(s.drop_last());
        let d = s.last();
        if d.is_blank() {
            lemma_place_of(d, rest);
            law_available_best_first(s.drop_last());
            lemma_filter_insert(rest, kind, place_of(d, rest) as int, d);
        }
    }
}

impl Survey {
    /// Drives this node already owns, the one that boots first.
    ///
    /// A node can own more than one: a system slab and a data slab is the
    /// ordinary case, and the split is the point of having roles at all. Only
    /// the system slab boots, so it is the one a caller is handed; ties keep
    /// the order the drives were seen in.
    pub fn mine(&self) -> (r: Vec<&Drive>)
        ensures
            pointed_at(r@) == owned_drives(self.drives@),
    {
        let ghost system = |d: Drive| d.is_system();
        let ghost other = |d: Drive| d.is_mine() && !d.is_system();
        let ghost all = self.drives@;
        let mut first: Vec<&Drive> = Vec::new();
        let mut rest: Vec<&Drive> = Vec::new();
        let mut i: usize = 0;
        proof {
            reveal(Seq::filter);
        }
        while i < self.drives.len()
            invariant
                i <= self.drives.len(),
                all == self.drives@,
                system == |d: Drive| d.is_system(),
                other == |d: Drive| d.is_mine() && !d.is_system(),
                pointed_at(first@) == all.take(i as int).filter(system),
                pointed_at(rest@) == all.take(i as int).filter(other),
            decreases self.drives.len() - i,
        {
            let d = &self.drives[i];
            let ghost f = first@;
            let ghost o = rest@;
            proof {
                lemma_filter_grows(all, system, i as int);
                lemma_filter_grows(all, other, i as int);
            }
            if d.verdict.is_mine() {
                if d.verdict.is_system() {
                    first.push(d);
                    assert(pointed_at(first@) == pointed_at(f).push(*d));
                } else {
                    rest.push(d);
                    assert(pointed_at(rest@) == pointed_at(o).push(*d));
                }
            }
            i = i + 1;
        }
        assert(all.take(i as int) == all);
        let ghost f = first@;
        let ghost o = rest@;
        let mut j: usize = 0;
        assert(o.take(0) == Seq::<&Drive>::empty());
        assert(f == f + o.take(0));
        while j < rest.len()
            invariant
                j <= rest.len(),
                rest@ == o,
                first@ == f + o.take(j as int),
            decreases rest.len() - j,
        {
            first.push(rest[j]);
            assert(o.take(j + 1) == o.take(j as int).push(o[j as int]));
            j = j + 1;
        }
        assert(o.take(j as int) == o);
        assert(pointed_at(first@) == pointed_at(f) + pointed_at(o));
        first
    }

    /// Drives this node owns *and* can boot from.
    ///
    /// Owning a slab and being able to boot are not the same thing: a freshly
    /// formatted slab with no volumes in it and no bootloader anywhere is as
    /// much "ours" as a working boot disk, and a data slab is ours and is not
    /// supposed to boot at all.
    pub fn bootable(&self) -> (r: Vec<&Drive>)
        ensures
            pointed_at(r@) == bootable_drives(self.drives@),
    {
        let ghost boots = |d: Drive| d.can_boot();
        let mine = self.mine();
        let ghost all = pointed_at(mine@);
        let mut r: Vec<&Drive> = Vec::new();
        let mut i: usize = 0;
        proof {
            reveal(Seq::filter);
        }
        while i < mine.len()
            invariant
                i <= mine.len(),
                all == pointed_at(mine@),
                boots == |d: Drive| d.can_boot(),
                pointed_at(r@) == all.take(i as int).filter(boots),
            decreases mine.len() - i,
        {
            let d = mine[i];
            let ghost before = r@;
            proof {
                lemma_filter_grows(all, boots, i as int);
            }
            if d.boots() {
                r.push(d);
                assert(pointed_at(r@) == pointed_at(before).push(*d));
            }
            i = i + 1;
        }
        assert(all.take(i as int) == all);
        r
    }

    /// Drives that may be taken: solid state before spinning, since the
    /// writable end is small and hot, and among drives of a kind the largest
    /// first.
    pub fn available(&self) -> (r: Vec<&Drive>)
        ensures
            pointed_at(r@) == available_drives(self.drives@),
            forall|i: int, j: int|
                0 <= i < j < r@.len() ==> ((#[trigger] r@[i]).rotational ==> (
                #[trigger] r@[j]).rotational) && (r@[i].rotational == r@[j].rotational
                    ==> r@[i].size_bytes >= r@[j].size_bytes),
    {
        let ghost all = self.drives@;
        let mut r: Vec<&Drive> = Vec::new();
        let mut i: usize = 0;
        while i < self.drives.len()
            invariant
                i <= self.drives.len(),
                all == self.drives@,
                pointed_at(r@) == available_drives(all.take(i as int)),
            decreases self.drives.len() - i,
        {
            let d = &self.drives[i];
            let ghost before = pointed_at(r@);
            assert(all.take(i + 1).drop_last() == all.take(i as int));
            assert(all.take(i + 1).last() == *d);
            if d.verdict.is_available() {
                let mut k: usize = 0;
                while k < r.len() && !((!d.rotational && r[k].rotational) || (d.rotational
                    == r[k].rotational && d.size_bytes > r[k].size_bytes))
                    invariant
                        k <= r.len(),
                        before == pointed_at(r@),
                        forall|j: int| 0 <= j < k ==> !better(*d, #[trigger] before[j]),
                    decreases r.len() - k,
                {
                    assert(before[k as int] == *r@[k as int]);
                    k = k + 1;
                }
                proof {
                    if k < r.len() {
                        assert(before[k as int] == *r@[k as int]);
                    }
                    lemma_place_of_is(*d, before, k as int);
                }
                r.insert(k, d);
                assert(pointed_at(r@) == before.insert(k as int, *d));
            }
            i = i + 1;
        }
        assert(all.take(i as int) == all);
        assert forall|i: int, j: int| 0 <= i < j < r@.len() implies ((#[trigger] r@[i]).rotational
            ==> (#[trigger] r@[j]).rotational) && (r@[i].rotational == r@[j].rotational
            ==> r@[i].size_bytes >= r@[j].size_bytes) by {
            law_solid_drives_first_and_then_the_largest(all, i, j);
            assert(*r@[i] == pointed_at(r@)[i] && *r@[j] == pointed_at(r@)[j]);
        }
        r
    }
}

// ----------------------------------------------------------------- intents
/// What the survey concluded.
#[derive(Debug, PartialEq, Eq)]
pub enum Intent {
    /// This node has already assimilated. Boot off `slab`, which is the device
    /// the slab is on and not necessarily the drive it was found on.
    AlreadyMine { drive: String, slab: String, slab_id: String },
    /// This node owns a slab here and none of them boots: a system disk with
    /// no bootloader on it, a slab formatted and never filled, or a data slab
    /// on its own, which is not supposed to boot.
    ///
    /// Distinct from both of the others on purpose. Nothing here may be taken,
    /// because it is already ours; and nothing here can start the node, so it
    /// asks the appliance.
    MineButNoneBoots { because: Vec<String> },
    /// Nothing here is anyone's. Take it.
    TakeOver { path: String },
    /// Nowhere to go. Boot on the appliance's clone and say why.
    NothingToTake { because: Vec<String> },
}

/// What an [`Intent`] says.
pub enum IntentView {
    AlreadyMine { drive: Seq<char>, slab: Seq<char>, slab_id: Seq<char> },
    MineButNoneBoots { because: Seq<Seq<char>> },
    TakeOver { path: Seq<char> },
    NothingToTake { because: Seq<Seq<char>> },
}

impl View for Intent {
    type V = IntentView;

    open spec fn view(&self) -> IntentView {
        match *self {
            Intent::AlreadyMine { drive, slab, slab_id } => IntentView::AlreadyMine {
                drive: drive@,
                slab: slab@,
                slab_id: slab_id@,
            },
            Intent::MineButNoneBoots { because } => IntentView::MineButNoneBoots {
                because: text::texts(because@),
            },
            Intent::TakeOver { path } => IntentView::TakeOver { path: path@ },
            Intent::NothingToTake { because } => IntentView::NothingToTake {
                because: text::texts(because@),
            },
        }
    }
}

impl Clone for Intent {
    fn clone(&self) -> (r: Self)
        ensures
            r@ == self@,
    {
        match self {
            Intent::AlreadyMine { drive, slab, slab_id } => Intent::AlreadyMine {
                drive: drive.clone(),
                slab: slab.clone(),
                slab_id: slab_id.clone(),
            },
            Intent::MineButNoneBoots { because } => Intent::MineButNoneBoots {
                because: text::copy_list(because),
            },
            Intent::TakeOver { path } => Intent::TakeOver { path: path.clone() },
            Intent::NothingToTake { because } => Intent::NothingToTake {
                because: text::copy_list(because),
            },
        }
    }
}

/// What is said of a drive that is not taken.
pub open spec fn seen_line(d: Drive) -> Seq<char> {
    d.path@ + " "@ + verdict_text(d.verdict@)
}

/// What is said of a drive that is ours and does not boot.
pub open spec fn stuck_line(d: Drive) -> Seq<char> {
    seen_line(d) + " - "@ + d.cannot_boot_text()
}

/// What follows from the drives of a machine. A drive of ours that boots
/// settles it; drives of ours that do not boot are told of; the best drive
/// that is nobody's is taken; and otherwise every drive is told of.
pub open spec fn intent_of(s: Seq<Drive>) -> IntentView {
    if bootable_drives(s).len() > 0 {
        let d = bootable_drives(s)[0];
        IntentView::AlreadyMine {
            drive: d.path@,
            slab: d.verdict->slab@,
            slab_id: d.verdict->Mine_slab_id@,
        }
    } else if owned_drives(s).len() > 0 {
        let m = owned_drives(s);
        IntentView::MineButNoneBoots { because: Seq::new(m.len(), |i: int| stuck_line(m[i])) }
    } else if available_drives(s).len() > 0 {
        IntentView::TakeOver { path: available_drives(s)[0].path@ }
    } else {
        IntentView::NothingToTake { because: Seq::new(s.len(), |i: int| seen_line(s[i])) }
    }
}

/// Every drive that a filter keeps is one of the list, and passes.
proof fn lemma_filtered(s: Seq<Drive>, keep: spec_fn(Drive) -> bool, i: int)
    requires
        0 <= i < s.filter(keep).len(),
    ensures
        keep(s.filter(keep)[i]),
        s.contains(s.filter(keep)[i]),
{
    let kept = s.filter(keep);
    assert(kept.contains(kept[i]));
    s.lemma_filter_contains_rev(keep, kept[i]);
    s.lemma_filter_pred(keep, i);
}

/// Every drive that this node owns carries a slab of its own, and is one of
/// the machine's drives.
proof fn lemma_owned_is_mine(s: Seq<Drive>, i: int)
    requires
        0 <= i < owned_drives(s).len(),
    ensures
        owned_drives(s)[i].is_mine(),
        s.contains(owned_drives(s)[i]),
{
    let system = |d: Drive| d.is_system();
    let other = |d: Drive| d.is_mine() && !d.is_system();
    let n = s.filter(system).len();
    if i < n {
        lemma_filtered(s, system, i);
    } else {
        lemma_filtered(s, other, i - n);
    }
}

impl Survey {
    /// Is there anything to do, and may it be done?
    ///
    /// A node that is already set up boots; a node with somewhere to go takes
    /// it; a node with nowhere to go boots anyway on whatever the appliance is
    /// serving, because assimilation is an improvement, not a precondition.
    pub fn intent(&self) -> (r: Intent)
        ensures
            r@ == intent_of(self.drives@),
    {
        let ghost all = self.drives@;
        let bootable = self.bootable();
        if bootable.len() > 0 {
            let d = bootable[0];
            assert(*d == bootable_drives(all)[0]);
            proof {
                lemma_bootable_is_owned(all, 0);
            }
            if let Verdict::Mine { slab_id, slab, .. } = &d.verdict {
                return Intent::AlreadyMine {
                    drive: d.path.clone(),
                    slab: slab.clone(),
                    slab_id: slab_id.clone(),
                };
            }
        }
        let mine = self.mine();
        if mine.len() > 0 {
            let mut because: Vec<String> = Vec::new();
            let ghost told = Seq::new(
                owned_drives(all).len(),
                |i: int| stuck_line(owned_drives(all)[i]),
            );
            let mut i: usize = 0;
            while i < mine.len()
                invariant
                    i <= mine.len(),
                    pointed_at(mine@) == owned_drives(all),
                    told == Seq::new(
                        owned_drives(all).len(),
                        |i: int| stuck_line(owned_drives(all)[i]),
                    ),
                    text::texts(because@) == told.take(i as int),
                decreases mine.len() - i,
            {
                let d = mine[i];
                let ghost before = text::texts(because@);
                assert(*d == owned_drives(all)[i as int]);
                let mut line = d.path.clone();
                line.append(" ");
                line.append(d.verdict.describe().as_str());
                line.append(" - ");
                line.append(d.why_not().as_str());
                because.push(line);
                assert(text::texts(because@) == before.push(stuck_line(*d)));
                i = i + 1;
            }
            assert(told.take(i as int) == told);
            return Intent::MineButNoneBoots { because };
        }
        let available = self.available();
        if available.len() > 0 {
            assert(*available@[0] == available_drives(all)[0]);
            return Intent::TakeOver { path: available[0].path.clone() };
        }
        let mut because: Vec<String> = Vec::new();
        let ghost told = Seq::new(all.len(), |i: int| seen_line(all[i]));
        let mut i: usize = 0;
        while i < self.drives.len()
            invariant
                i <= self.drives.len(),
                all == self.drives@,
                told == Seq::new(all.len(), |i: int| seen_line(all[i])),
                text::texts(because@) == told.take(i as int),
            decreases self.drives.len() - i,
        {
            let d = &self.drives[i];
            let ghost before = text::texts(because@);
            let mut line = d.path.clone();
            line.append(" ");
            line.append(d.verdict.describe().as_str());
            because.push(line);
            assert(text::texts(because@) == before.push(seen_line(*d)));
            i = i + 1;
        }
        assert(told.take(i as int) == told);
        Intent::NothingToTake { because }
    }
}

/// Every drive that boots is one that this node owns.
pub proof fn lemma_bootable_is_owned(s: Seq<Drive>, i: int)
    requires
        0 <= i < bootable_drives(s).len(),
    ensures
        bootable_drives(s)[i].is_mine(),
        bootable_drives(s)[i].can_boot(),
        owned_drives(s).contains(bootable_drives(s)[i]),
        s.contains(bootable_drives(s)[i]),
{
    let boots = |d: Drive| d.can_boot();
    lemma_filtered(owned_drives(s), boots, i);
    let d = bootable_drives(s)[i];
    let k = choose|k: int| 0 <= k < owned_drives(s).len() && owned_drives(s)[k] == d;
    lemma_owned_is_mine(s, k);
}

/// Every drive available is a blank drive of the machine.
proof fn lemma_available_is_blank(s: Seq<Drive>, i: int)
    requires
        0 <= i < available_drives(s).len(),
    ensures
        available_drives(s)[i].is_blank(),
        s.contains(available_drives(s)[i]),
    decreases s.len(),
{
    if s.len() > 0 {
        let front = s.drop_last();
        let rest = available_drives(front);
        let d = s.last();
        let k = place_of(d, rest) as int;
        lemma_place_of(d, rest);
        if d.is_blank() && i == k {
            assert(s[s.len() - 1] == d);
        } else {
            let j = if d.is_blank() && i > k {
                i - 1
            } else {
                i
            };
            lemma_available_is_blank(front, j);
            let m = choose|m: int| 0 <= m < front.len() && front[m] == rest[j];
            assert(s[m] == rest[j]);
        }
    }
}

/// Every blank drive of the machine is available.
proof fn lemma_blank_is_available(s: Seq<Drive>, i: int)
    requires
        0 <= i < s.len(),
        s[i].is_blank(),
    ensures
        available_drives(s).contains(s[i]),
    decreases s.len(),
{
    let front = s.drop_last();
    let rest = available_drives(front);
    let d = s.last();
    let k = place_of(d, rest) as int;
    lemma_place_of(d, rest);
    if i == s.len() - 1 {
        assert(available_drives(s)[k] == d);
    } else {
        lemma_blank_is_available(front, i);
        let m = choose|m: int| 0 <= m < rest.len() && rest[m] == s[i];
        if d.is_blank() && m >= k {
            assert(available_drives(s)[m + 1] == s[i]);
        } else {
            assert(available_drives(s)[m] == s[i]);
        }
    }
}

/// Every drive with a slab of ours is among the drives this node owns.
proof fn lemma_mine_is_owned(s: Seq<Drive>, i: int)
    requires
        0 <= i < s.len(),
        s[i].is_mine(),
    ensures
        owned_drives(s).contains(s[i]),
{
    let system = |d: Drive| d.is_system();
    let other = |d: Drive| d.is_mine() && !d.is_system();
    let a = s.filter(system);
    let b = s.filter(other);
    if s[i].is_system() {
        s.lemma_filter_contains(system, i);
        let m = choose|m: int| 0 <= m < a.len() && a[m] == s[i];
        assert(owned_drives(s)[m] == s[i]);
    } else {
        s.lemma_filter_contains(other, i);
        let m = choose|m: int| 0 <= m < b.len() && b[m] == s[i];
        assert(owned_drives(s)[a.len() + m] == s[i]);
    }
}

/// Every drive with a slab of ours that boots is among the bootable drives.
proof fn lemma_bootable_is_listed(s: Seq<Drive>, i: int)
    requires
        0 <= i < s.len(),
        s[i].is_mine(),
        s[i].can_boot(),
    ensures
        bootable_drives(s).contains(s[i]),
{
    let boots = |d: Drive| d.can_boot();
    lemma_mine_is_owned(s, i);
    let o = owned_drives(s);
    let m = choose|m: int| 0 <= m < o.len() && o[m] == s[i];
    o.lemma_filter_contains(boots, m);
}

/// Which of the four answers a machine gets. A drive of ours that boots
/// settles it, whatever else is there. A drive of ours that does not boot is
/// never grounds to take another. A drive is taken exactly when nothing is
/// ours and something is nobody's.
pub proof fn law_intent_by_case(s: Seq<Drive>)
    ensures
        intent_of(s) is AlreadyMine <==> exists|i: int|
            0 <= i < s.len() && (#[trigger] s[i]).is_mine() && s[i].can_boot(),
        intent_of(s) is MineButNoneBoots <==> {
            &&& exists|i: int| 0 <= i < s.len() && (#[trigger] s[i]).is_mine()
            &&& forall|i: int| 0 <= i < s.len() && (#[trigger] s[i]).is_mine() ==> !s[i].can_boot()
        },
        intent_of(s) is TakeOver <==> {
            &&& forall|i: int| 0 <= i < s.len() ==> !(#[trigger] s[i]).is_mine()
            &&& exists|i: int| 0 <= i < s.len() && (#[trigger] s[i]).is_blank()
        },
        intent_of(s) is NothingToTake <==> {
            forall|i: int|
                0 <= i < s.len() ==> !(#[trigger] s[i]).is_mine() && !s[i].is_blank()
        },
{
    assert forall|i: int| 0 <= i < s.len() && (#[trigger] s[i]).is_mine() implies owned_drives(
        s,
    ).len() > 0 && (s[i].can_boot() ==> bootable_drives(s).len() > 0) by {
        lemma_mine_is_owned(s, i);
        if s[i].can_boot() {
            lemma_bootable_is_listed(s, i);
        }
    }
    assert forall|i: int| 0 <= i < s.len() && (#[trigger] s[i]).is_blank() implies available_drives(
        s,
    ).len() > 0 by {
        lemma_blank_is_available(s, i);
    }
    if bootable_drives(s).len() > 0 {
        lemma_bootable_is_owned(s, 0);
        let d = bootable_drives(s)[0];
        let i = choose|i: int| 0 <= i < s.len() && s[i] == d;
        assert(s[i].is_mine() && s[i].can_boot());
    }
    if owned_drives(s).len() > 0 {
        lemma_owned_is_mine(s, 0);
        let d = owned_drives(s)[0];
        let i = choose|i: int| 0 <= i < s.len() && s[i] == d;
        assert(s[i].is_mine());
    }
    if available_drives(s).len() > 0 {
        lemma_available_is_blank(s, 0);
        let d = available_drives(s)[0];
        let i = choose|i: int| 0 <= i < s.len() && s[i] == d;
        assert(s[i].is_blank());
    }
}

/// The drive that is taken is a blank drive of the machine, and no blank drive
/// of the machine is better.
pub proof fn law_only_a_blank_drive_is_taken(s: Seq<Drive>)
    requires
        intent_of(s) is TakeOver,
    ensures
        exists|i: int|
            {
                &&& 0 <= i < s.len()
                &&& (#[trigger] s[i]).is_blank()
                &&& intent_of(s)->path == s[i].path@
                &&& forall|j: int| 0 <= j < s.len() && s[j].is_blank() ==> !better(s[j], s[i])
            },
{
    let a = available_drives(s);
    lemma_available_is_blank(s, 0);
    let i = choose|i: int| 0 <= i < s.len() && s[i] == a[0];
    assert forall|j: int| 0 <= j < s.len() && s[j].is_blank() implies !better(s[j], s[i]) by {
        lemma_blank_is_available(s, j);
        let m = choose|m: int| 0 <= m < a.len() && a[m] == s[j];
        law_available_best_first(s);
        assert(m > 0 ==> !better(a[m], a[0]));
    }
}

/// A node that is told to boot is told a drive of its own that boots, and the
/// slab on it. Where a system slab of its own boots, it is told a system slab.
pub proof fn law_what_is_booted_is_mine_and_boots(s: Seq<Drive>)
    requires
        intent_of(s) is AlreadyMine,
    ensures
        exists|i: int|
            {
                &&& 0 <= i < s.len()
                &&& (#[trigger] s[i]).is_mine()
                &&& s[i].can_boot()
                &&& intent_of(s)->drive == s[i].path@
                &&& intent_of(s)->slab == s[i].verdict->slab@
                &&& intent_of(s)->slab_id == s[i].verdict->Mine_slab_id@
                &&& (exists|j: int|
                    0 <= j < s.len() && (#[trigger] s[j]).is_system() && s[j].can_boot())
                    ==> s[i].is_system()
            },
{
    let b = bootable_drives(s);
    lemma_bootable_is_owned(s, 0);
    let i = choose|i: int| 0 <= i < s.len() && s[i] == b[0];
    if exists|j: int| 0 <= j < s.len() && (#[trigger] s[j]).is_system() && s[j].can_boot() {
        let j = choose|j: int| 0 <= j < s.len() && (#[trigger] s[j]).is_system() && s[j].can_boot();
        let system = |d: Drive| d.is_system();
        let other = |d: Drive| d.is_mine() && !d.is_system();
        let boots = |d: Drive| d.can_boot();
        let front = s.filter(system);
        s.lemma_filter_contains(system, j);
        let m = choose|m: int| 0 <= m < front.len() && front[m] == s[j];
        front.lemma_filter_contains(boots, m);
        Seq::filter_distributes_over_add(front, s.filter(other), boots);
        assert(b[0] == front.filter(boots)[0]);
        lemma_filtered(front, boots, 0);
        let k = choose|k: int| 0 <= k < front.len() && front[k] == b[0];
        lemma_filtered(s, system, k);
    }
    assert(s[i].is_mine());
}

/// A node that has nowhere to go says what it saw: one line for every drive,
/// with its path and its verdict.
pub proof fn law_nothing_to_take_tells_of_every_drive(s: Seq<Drive>)
    requires
        intent_of(s) is NothingToTake,
    ensures
        intent_of(s)->NothingToTake_because.len() == s.len(),
        forall|i: int|
            0 <= i < s.len() ==> #[trigger] intent_of(s)->NothingToTake_because[i] == s[i].path@
                + " "@ + verdict_text(s[i].verdict@),
{
}

// ----------------------------------------------------------------- reports
/// A survey as it leaves the process: what was seen, and what follows from it.
/// The drives are evidence and the intent is the conclusion drawn from it, and
/// anyone checking the second needs the first in front of them.
#[derive(Debug, PartialEq, Eq)]
pub struct Report {
    pub drives: Vec<Drive>,
    pub intent: Intent,
}

/// Copies a list of drives.
fn copy_drives(v: &Vec<Drive>) -> (r: Vec<Drive>)
    ensures
        drive_views(r@) == drive_views(v@),
{
    let mut drives: Vec<Drive> = Vec::new();
    let mut i: usize = 0;
    while i < v.len()
        invariant
            i <= v.len(),
            drive_views(drives@) == drive_views(v@).take(i as int),
        decreases v.len() - i,
    {
        let ghost before = drive_views(drives@);
        drives.push(v[i].clone());
        assert(drive_views(drives@) == before.push(v@[i as int]@));
        i = i + 1;
    }
    assert(drive_views(v@).take(i as int) == drive_views(v@));
    drives
}

impl Clone for Survey {
    fn clone(&self) -> (r: Self)
        ensures
            drive_views(r.drives@) == drive_views(self.drives@),
    {
        Survey { drives: copy_drives(&self.drives) }
    }
}

impl Clone for Report {
    fn clone(&self) -> (r: Self)
        ensures
            drive_views(r.drives@) == drive_views(self.drives@),
            r.intent@ == self.intent@,
    {
        Report { drives: copy_drives(&self.drives), intent: self.intent.clone() }
    }
}

impl Survey {
    /// The survey with its conclusion.
    pub fn report(&self) -> (r: Report)
        ensures
            drive_views(r.drives@) == drive_views(self.drives@),
            r.intent@ == intent_of(self.drives@),
    {
        Report { drives: copy_drives(&self.drives), intent: self.intent() }
    }
}

// ------------------------------------------------- what follows from what is seen
/// The first drive of a list that a filter keeps is the first one that it keeps
/// at all.
proof fn lemma_filter_first(s: Seq<Drive>, keep: spec_fn(Drive) -> bool, i: int)
    requires
        0 <= i < s.len(),
        keep(s[i]),
        forall|j: int| 0 <= j < i ==> !keep(#[trigger] s[j]),
    ensures
        s.filter(keep).len() > 0,
        s.filter(keep)[0] == s[i],
    decreases s.len(),
{
    reveal(Seq::filter);
    if i == s.len() - 1 {
        lemma_filter_none(s.drop_last(), keep);
    } else {
        assert(s.drop_last()[i] == s[i]);
        assert forall|j: int| 0 <= j < i implies !keep(#[trigger] s.drop_last()[j]) by {
            assert(s.drop_last()[j] == s[j]);
        }
        lemma_filter_first(s.drop_last(), keep, i);
    }
}

/// Where a filter keeps anything of a list, there is a first drive it keeps.
proof fn lemma_first_kept(s: Seq<Drive>, keep: spec_fn(Drive) -> bool, k: int) -> (i: int)
    requires
        0 <= k < s.len(),
        keep(s[k]),
    ensures
        0 <= i <= k,
        keep(s[i]),
        forall|j: int| 0 <= j < i ==> !keep(#[trigger] s[j]),
    decreases k,
{
    if exists|j: int| 0 <= j < k && keep(#[trigger] s[j]) {
        let j = choose|j: int| 0 <= j < k && keep(#[trigger] s[j]);
        lemma_first_kept(s, keep, j)
    } else {
        k
    }
}

/// Of two drives available, a solid one comes before a spinning one, and the
/// larger before the smaller of two that both spin or are both solid.
pub proof fn law_solid_drives_first_and_then_the_largest(s: Seq<Drive>, i: int, j: int)
    requires
        0 <= i < j < available_drives(s).len(),
    ensures
        !available_drives(s)[j].rotational ==> !available_drives(s)[i].rotational,
        available_drives(s)[i].rotational == available_drives(s)[j].rotational
            ==> available_drives(s)[i].size_bytes >= available_drives(s)[j].size_bytes,
{
    law_available_best_first(s);
    assert(!better(available_drives(s)[j], available_drives(s)[i]));
}

/// Of the drives that spin or do not, and have a given size, the ones available
/// are the blank ones of the machine, in the order they were seen in.
pub proof fn law_ties_keep_the_order_they_were_seen_in(s: Seq<Drive>, spins: bool, size: u64)
    ensures
        available_drives(s).filter(|d: Drive| d.rotational == spins && d.size_bytes == size)
            == s.filter(
            |d: Drive| d.verdict is Blank && d.rotational == spins && d.size_bytes == size,
        ),
    decreases s.len(),
{
    let kind = |d: Drive| d.rotational == spins && d.size_bytes == size;
    let both = |d: Drive| d.verdict is Blank && d.rotational == spins && d.size_bytes == size;
    reveal(Seq::filter);
    if s.len() > 0 {
        law_ties_keep_the_order_they_were_seen_in(s.drop_last(), spins, size);
        let rest = available_drives(s.drop_last());
        let d = s.last();
        if d.is_blank() {
            lemma_place_of(d, rest);
            law_available_best_first(s.drop_last());
            lemma_filter_insert(rest, kind, place_of(d, rest) as int, d);
        }
    }
}

/// A drive is available exactly when it is one of the machine's and blank.
pub proof fn law_a_drive_is_available_when_it_is_blank(s: Seq<Drive>, d: Drive)
    ensures
        available_drives(s).contains(d) <==> s.contains(d) && d.verdict is Blank,
{
    if available_drives(s).contains(d) {
        let i = choose|i: int| 0 <= i < available_drives(s).len() && available_drives(s)[i] == d;
        lemma_available_is_blank(s, i);
    }
    if s.contains(d) && d.verdict is Blank {
        let i = choose|i: int| 0 <= i < s.len() && s[i] == d;
        lemma_blank_is_available(s, i);
    }
}

/// The drive that is taken is blank. No blank drive is solid when it spins, none
/// of its kind is larger, and none of its kind and size was seen before it.
pub proof fn law_the_drive_taken_is_the_best_blank_one(s: Seq<Drive>)
    requires
        intent_of(s) is TakeOver,
    ensures
        exists|i: int|
            {
                &&& 0 <= i < s.len()
                &&& (#[trigger] s[i]).verdict is Blank
                &&& intent_of(s)->path == s[i].path@
                &&& forall|j: int|
                    0 <= j < s.len() && (#[trigger] s[j]).verdict is Blank ==> {
                        &&& s[i].rotational ==> s[j].rotational
                        &&& s[i].rotational == s[j].rotational ==> s[j].size_bytes
                            <= s[i].size_bytes
                        &&& s[i].rotational == s[j].rotational && s[j].size_bytes
                            == s[i].size_bytes ==> i <= j
                    }
            },
{
    let a = available_drives(s);
    let spins = a[0].rotational;
    let size = a[0].size_bytes;
    let kind = |d: Drive| d.rotational == spins && d.size_bytes == size;
    let both = |d: Drive| d.verdict is Blank && d.rotational == spins && d.size_bytes == size;
    lemma_available_is_blank(s, 0);
    let k = choose|k: int| 0 <= k < s.len() && s[k] == a[0];
    assert(both(s[k]));
    let i = lemma_first_kept(s, both, k);
    law_ties_keep_the_order_they_were_seen_in(s, spins, size);
    lemma_filter_first(s, both, i);
    lemma_filter_first(a, kind, 0);
    assert(s[i] == a[0]);
    assert forall|j: int| 0 <= j < s.len() && (#[trigger] s[j]).verdict is Blank implies {
        &&& s[i].rotational ==> s[j].rotational
        &&& s[i].rotational == s[j].rotational ==> s[j].size_bytes <= s[i].size_bytes
        &&& s[i].rotational == s[j].rotational && s[j].size_bytes == s[i].size_bytes ==> i <= j
    } by {
        lemma_blank_is_available(s, j);
        let m = choose|m: int| 0 <= m < a.len() && a[m] == s[j];
        if m > 0 {
            law_solid_drives_first_and_then_the_largest(s, 0, m);
        }
        if j < i {
            assert(!both(s[j]));
        }
    }
}

/// Whose a drive is does not depend on where it was seen: this node owns the
/// drives with a slab of its own and no others.
pub proof fn law_a_drive_is_owned_when_its_slab_is_mine(s: Seq<Drive>, d: Drive)
    ensures
        owned_drives(s).contains(d) <==> s.contains(d) && d.verdict is Mine,
{
    if owned_drives(s).contains(d) {
        let i = choose|i: int| 0 <= i < owned_drives(s).len() && owned_drives(s)[i] == d;
        lemma_owned_is_mine(s, i);
    }
    if s.contains(d) && d.verdict is Mine {
        let i = choose|i: int| 0 <= i < s.len() && s[i] == d;
        lemma_mine_is_owned(s, i);
    }
}

/// Of the drives this node owns, those whose role is `system` come first; those
/// and the others each keep the order they were seen in.
pub proof fn law_system_slabs_come_first(s: Seq<Drive>)
    ensures
        forall|i: int, j: int|
            0 <= i < j < owned_drives(s).len() && (#[trigger] owned_drives(
                s,
            )[j]).verdict->role@ == "system"@ ==> (#[trigger] owned_drives(s)[i]).verdict->role@
                == "system"@,
        owned_drives(s).filter(|d: Drive| d.verdict->role@ == "system"@) == s.filter(
            |d: Drive| d.verdict is Mine && d.verdict->role@ == "system"@,
        ),
        owned_drives(s).filter(|d: Drive| d.verdict->role@ != "system"@) == s.filter(
            |d: Drive| d.verdict is Mine && d.verdict->role@ != "system"@,
        ),
{
    let system = |d: Drive| d.is_system();
    let other = |d: Drive| d.is_mine() && !d.is_system();
    let sys = |d: Drive| d.verdict->role@ == "system"@;
    let not = |d: Drive| d.verdict->role@ != "system"@;
    let mine_sys = |d: Drive| d.verdict is Mine && d.verdict->role@ == "system"@;
    let mine_not = |d: Drive| d.verdict is Mine && d.verdict->role@ != "system"@;
    let a = s.filter(system);
    let b = s.filter(other);
    assert forall|i: int| 0 <= i < a.len() implies sys(#[trigger] a[i]) by {
        lemma_filtered(s, system, i);
    }
    assert forall|i: int| 0 <= i < b.len() implies not(#[trigger] b[i]) by {
        lemma_filtered(s, other, i);
    }
    Seq::filter_distributes_over_add(a, b, sys);
    Seq::filter_distributes_over_add(a, b, not);
    lemma_filter_all(a, sys);
    lemma_filter_none(b, sys);
    lemma_filter_none(a, not);
    lemma_filter_all(b, not);
    assert(a + Seq::<Drive>::empty() == a);
    assert(Seq::<Drive>::empty() + b == b);
    lemma_filter_agree(s, system, mine_sys);
    lemma_filter_agree(s, other, mine_not);
}

/// A filter that keeps every drive of a list leaves the list.
proof fn lemma_filter_all(s: Seq<Drive>, keep: spec_fn(Drive) -> bool)
    requires
        forall|i: int| 0 <= i < s.len() ==> keep(#[trigger] s[i]),
    ensures
        s.filter(keep) == s,
    decreases s.len(),
{
    reveal(Seq::filter);
    if s.len() > 0 {
        assert(keep(s[s.len() - 1]));
        assert forall|i: int| 0 <= i < s.drop_last().len() implies keep(
            #[trigger] s.drop_last()[i],
        ) by {
            assert(s.drop_last()[i] == s[i]);
        }
        lemma_filter_all(s.drop_last(), keep);
    }
}

/// Two filters that agree on every drive of a list keep the same.
proof fn lemma_filter_agree(
    s: Seq<Drive>,
    p: spec_fn(Drive) -> bool,
    q: spec_fn(Drive) -> bool,
)
    requires
        forall|i: int| 0 <= i < s.len() ==> p(#[trigger] s[i]) == q(s[i]),
    ensures
        s.filter(p) == s.filter(q),
    decreases s.len(),
{
    reveal(Seq::filter);
    if s.len() > 0 {
        assert(p(s[s.len() - 1]) == q(s[s.len() - 1]));
        assert forall|i: int| 0 <= i < s.drop_last().len() implies p(#[trigger] s.drop_last()[i])
            == q(s.drop_last()[i]) by {
            assert(s.drop_last()[i] == s[i]);
        }
        lemma_filter_agree(s.drop_last(), p, q);
    }
}

/// Filtering twice keeps what both filters keep.
proof fn lemma_filter_twice(
    s: Seq<Drive>,
    p: spec_fn(Drive) -> bool,
    q: spec_fn(Drive) -> bool,
    both: spec_fn(Drive) -> bool,
)
    requires
        forall|d: Drive| #[trigger] both(d) == (p(d) && q(d)),
    ensures
        s.filter(p).filter(q) == s.filter(both),
    decreases s.len(),
{
    reveal(Seq::filter);
    if s.len() > 0 {
        lemma_filter_twice(s.drop_last(), p, q, both);
        let front = s.drop_last().filter(p);
        assert(both(s.last()) == (p(s.last()) && q(s.last())));
        if p(s.last()) {
            assert(front.push(s.last()).drop_last() == front);
        }
    }
}

/// Whether a drive of this node's can start it: its ESP says how it boots, or it
/// has none and its slab is a system slab.
pub open spec fn starts_the_node(d: Drive) -> bool {
    &&& d.verdict is Mine
    &&& match d.esp {
        Some(e) => e.boot is Some,
        None => d.verdict->role@ == "system"@,
    }
}

/// What a drive can do is told by its ESP when it has one, whatever its slab is
/// for; without an ESP a system slab of this node's boots, and nothing else.
pub proof fn law_what_boots(d: Drive)
    ensures
        d.esp matches Some(e) ==> d.can_boot() == (e.boot is Some),
        d.esp is None ==> d.can_boot() == (d.verdict is Mine && d.verdict->role@ == "system"@),
        d.verdict is Mine ==> d.can_boot() == starts_the_node(d),
{
}

/// The drives to boot from are the drives that start the node and no others, and
/// the first of them is a system slab where one of them is.
pub proof fn law_the_drives_to_boot_from(s: Seq<Drive>, d: Drive)
    ensures
        bootable_drives(s).contains(d) <==> s.contains(d) && starts_the_node(d),
        bootable_drives(s).filter(|d: Drive| d.verdict->role@ == "system"@) == s.filter(
            |d: Drive| starts_the_node(d) && d.verdict->role@ == "system"@,
        ),
        bootable_drives(s).filter(|d: Drive| d.verdict->role@ != "system"@) == s.filter(
            |d: Drive| starts_the_node(d) && d.verdict->role@ != "system"@,
        ),
{
    let boots = |d: Drive| d.can_boot();
    let sys = |d: Drive| d.verdict->role@ == "system"@;
    let not = |d: Drive| d.verdict->role@ != "system"@;
    let mine_sys = |d: Drive| d.verdict is Mine && d.verdict->role@ == "system"@;
    let mine_not = |d: Drive| d.verdict is Mine && d.verdict->role@ != "system"@;
    let boot_sys = |d: Drive| d.can_boot() && d.verdict->role@ == "system"@;
    let boot_not = |d: Drive| d.can_boot() && d.verdict->role@ != "system"@;
    let node_sys = |d: Drive| starts_the_node(d) && d.verdict->role@ == "system"@;
    let node_not = |d: Drive| starts_the_node(d) && d.verdict->role@ != "system"@;
    let o = owned_drives(s);
    law_system_slabs_come_first(s);
    lemma_filter_twice(o, boots, sys, boot_sys);
    lemma_filter_twice(o, boots, not, boot_not);
    lemma_filter_twice(o, sys, boots, boot_sys);
    lemma_filter_twice(o, not, boots, boot_not);
    lemma_filter_twice(s, mine_sys, boots, node_sys);
    lemma_filter_twice(s, mine_not, boots, node_not);
    if bootable_drives(s).contains(d) {
        let i = choose|i: int| 0 <= i < bootable_drives(s).len() && bootable_drives(s)[i] == d;
        lemma_bootable_is_owned(s, i);
    }
    if s.contains(d) && starts_the_node(d) {
        let i = choose|i: int| 0 <= i < s.len() && s[i] == d;
        lemma_bootable_is_listed(s, i);
    }
}

/// Which of the four answers a machine gets, by what its drives are.
pub proof fn law_what_follows_by_what_the_drives_are(s: Seq<Drive>)
    ensures
        intent_of(s) is AlreadyMine <==> exists|i: int|
            0 <= i < s.len() && starts_the_node(#[trigger] s[i]),
        intent_of(s) is MineButNoneBoots <==> {
            &&& exists|i: int| 0 <= i < s.len() && (#[trigger] s[i]).verdict is Mine
            &&& forall|i: int| 0 <= i < s.len() ==> !starts_the_node(#[trigger] s[i])
        },
        intent_of(s) is TakeOver <==> {
            &&& forall|i: int| 0 <= i < s.len() ==> !((#[trigger] s[i]).verdict is Mine)
            &&& exists|i: int| 0 <= i < s.len() && (#[trigger] s[i]).verdict is Blank
        },
        intent_of(s) is NothingToTake <==> {
            forall|i: int|
                0 <= i < s.len() ==> !((#[trigger] s[i]).verdict is Mine) && !(s[i].verdict
                    is Blank)
        },
{
    law_intent_by_case(s);
    assert forall|i: int| 0 <= i < s.len() implies starts_the_node(#[trigger] s[i]) == (
    s[i].is_mine() && s[i].can_boot()) by {
        law_what_boots(s[i]);
    }
}

/// The drive that is booted starts the node, and the node is told its path, the
/// slab on it and the name of that slab. It is the first system slab that starts
/// the node, and where none does the first of the others.
pub proof fn law_the_drive_booted_is_the_first_that_starts_the_node(s: Seq<Drive>)
    requires
        intent_of(s) is AlreadyMine,
    ensures
        exists|i: int|
            {
                &&& 0 <= i < s.len()
                &&& starts_the_node(#[trigger] s[i])
                &&& bootable_drives(s)[0] == s[i]
                &&& intent_of(s)->drive == s[i].path@
                &&& intent_of(s)->slab == s[i].verdict->slab@
                &&& intent_of(s)->slab_id == s[i].verdict->Mine_slab_id@
                &&& forall|j: int|
                    0 <= j < s.len() && starts_the_node(#[trigger] s[j]) ==> {
                        &&& s[j].verdict->role@ == "system"@ ==> s[i].verdict->role@ == "system"@
                        &&& (s[j].verdict->role@ == "system"@) == (s[i].verdict->role@
                            == "system"@) ==> i <= j
                    }
            },
{
    let b = bootable_drives(s);
    let is_sys = b[0].verdict->role@ == "system"@;
    let sys = |d: Drive| d.verdict->role@ == "system"@;
    let not = |d: Drive| d.verdict->role@ != "system"@;
    let node_sys = |d: Drive| starts_the_node(d) && d.verdict->role@ == "system"@;
    let node_not = |d: Drive| starts_the_node(d) && d.verdict->role@ != "system"@;
    law_what_follows_by_what_the_drives_are(s);
    law_the_drives_to_boot_from(s, b[0]);
    lemma_bootable_is_owned(s, 0);
    law_what_is_booted_is_mine_and_boots(s);
    let k = choose|k: int| 0 <= k < s.len() && s[k] == b[0];
    law_what_boots(s[k]);
    let mine = if is_sys {
        node_sys
    } else {
        node_not
    };
    let i = lemma_first_kept(s, mine, k);
    lemma_filter_first(s, mine, i);
    if is_sys {
        lemma_filter_first(b, sys, 0);
    } else {
        lemma_filter_first(b, not, 0);
    }
    assert(s[i] == b[0]);
    assert forall|j: int| 0 <= j < s.len() && starts_the_node(#[trigger] s[j]) implies {
        &&& s[j].verdict->role@ == "system"@ ==> s[i].verdict->role@ == "system"@
        &&& (s[j].verdict->role@ == "system"@) == (s[i].verdict->role@ == "system"@) ==> i <= j
    } by {
        if j < i {
            assert(!mine(s[j]));
        }
        if s[j].verdict->role@ == "system"@ && !is_sys {
            lemma_system_first(s, j);
        }
    }
}

proof fn lemma_system_first(s: Seq<Drive>, j: int)
    requires
        0 <= j < s.len(),
        starts_the_node(s[j]),
        s[j].verdict->role@ == "system"@,
    ensures
        bootable_drives(s).len() > 0,
        bootable_drives(s)[0].verdict->role@ == "system"@,
{
    let boots = |d: Drive| d.can_boot();
    let system = |d: Drive| d.is_system();
    let other = |d: Drive| d.is_mine() && !d.is_system();
    let front = s.filter(system);
    s.lemma_filter_contains(system, j);
    let m = choose|m: int| 0 <= m < front.len() && front[m] == s[j];
    front.lemma_filter_contains(boots, m);
    Seq::filter_distributes_over_add(front, s.filter(other), boots);
    assert(bootable_drives(s)[0] == front.filter(boots)[0]);
    lemma_filtered(front, boots, 0);
    let k = choose|k: int| 0 <= k < front.len() && front[k] == front.filter(boots)[0];
    lemma_filtered(s, system, k);
}

/// Every verdict names the evidence it rests on, in full.
pub proof fn law_a_verdict_names_its_evidence(a: Seq<char>, b: Seq<char>, c: Seq<char>)
    ensures
        verdict_text(VerdictView::Mine { slab_id: a, role: b, slab: c })
            == "mine - stormblock slab "@ + a + " on "@ + c + " ("@ + b + ")"@,
        verdict_text(VerdictView::AnotherNode { slab_id: a, owner: b }) == "another node's - slab "@
            + a + " owned by "@ + b,
        verdict_text(VerdictView::Foreign { what: a }) == "not ours - "@ + a,
        verdict_text(VerdictView::Blank) == "blank - available"@,
        verdict_text(VerdictView::Unreadable { why: a }) == "unreadable - "@ + a,
{
}

/// Where this node's drives do not boot, each is told of, system slabs first,
/// with its path, its verdict and why it does not boot: what is missing on its
/// ESP, or that its slab is not one that boots.
pub proof fn law_what_does_not_boot_is_told_with_the_reason(s: Seq<Drive>, i: int)
    requires
        intent_of(s) is MineButNoneBoots,
        0 <= i < owned_drives(s).len(),
    ensures
        intent_of(s)->MineButNoneBoots_because.len() == owned_drives(s).len(),
        ({
            let d = owned_drives(s)[i];
            let said = d.path@ + " "@ + verdict_text(d.verdict@) + " - "@;
            let line = intent_of(s)->MineButNoneBoots_because[i];
            match d.esp {
                None => line == said + ("a "@ + d.verdict->role@
                    + " slab, which does not boot a node"@),
                Some(e) => if e.missing@.len() == 0 {
                    line == said + "nothing bootable on its ESP"@
                } else {
                    line == said + text::joined(text::texts(e.missing@), "; "@)
                },
            }
        }),
{
    lemma_owned_is_mine(s, i);
}

/// Only a slab of this node's has a role, the one that the verdict carries.
pub proof fn law_what_a_slab_is_for(v: Verdict)
    ensures
        v.role() == match v {
            Verdict::Mine { role, .. } => Some(role@),
            _ => None::<Seq<char>>,
        },
{
}

/// Why a drive does not boot: without an ESP, what its slab is for or that it
/// carries none of this node's; with one, what is missing on it.
pub proof fn law_why_a_drive_does_not_boot(d: Drive)
    ensures
        d.esp is None && d.verdict is Mine ==> d.cannot_boot_text() == "a "@ + d.verdict->role@
            + " slab, which does not boot a node"@,
        d.esp is None && !(d.verdict is Mine) ==> d.cannot_boot_text()
            == "nothing on it that boots"@,
        d.esp matches Some(e) ==> {
            &&& e.missing@.len() == 0 ==> d.cannot_boot_text() == "nothing bootable on its ESP"@
            &&& e.missing@.len() > 0 ==> d.cannot_boot_text() == text::joined(
                text::texts(e.missing@),
                "; "@,
            )
        },
{
}

} // verus!
