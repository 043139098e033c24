//! Writing this node's name onto a drive it owns.
//!
//! The guards are the point. A claim that can be written over anything records
//! nothing, and a claim written onto a drive that is not ours is how you take a
//! disk by accident rather than on purpose.

use vstd::prelude::*;

use crate::esp;
use crate::esp::{Claim, ClaimView, Esp, EspView};
use crate::probe;
use crate::text;

verus! {

/// What is said when a machine will not say who it is.
pub open spec fn nameless_text(sysfs: Seq<char>) -> Seq<char> {
    "this machine will not say who it is - no usable SMBIOS serial in "@ + sysfs
        + "/class/dmi/id/product_serial. Pass --node."@
}

/// Who to claim for: the node that was named, or this machine as its firmware
/// names it.
pub fn claimant(node: Option<String>, serial: &Option<String>, sysfs: &str) -> (r: Result<
    String,
    String,
>)
    ensures
        match r {
            Ok(me) => Some(me@) == match text::view_of(node) {
                Some(n) => Some(n),
                None => probe::identity_in(text::view_of(*serial)),
            },
            Err(e) => {
                &&& node is None
                &&& probe::identity_in(text::view_of(*serial)) is None
                &&& e@ == nameless_text(sysfs@)
            },
        },
        node is Some ==> r is Ok && r->Ok_0 == node->0,
        match r {
            Ok(_) => true,
            Err(e) => e@
                == "this machine will not say who it is - no usable SMBIOS serial in "@ + sysfs@
                + "/class/dmi/id/product_serial. Pass --node."@,
        },
{
    if let Some(n) = node {
        return Ok(n);
    }
    match probe::machine_identity(serial) {
        Some(me) => Ok(me),
        None => {
            let mut e = text::owned(
                "this machine will not say who it is - no usable SMBIOS serial in ",
            );
            e.append(sysfs);
            e.append("/class/dmi/id/product_serial. Pass --node.");
            Err(e)
        },
    }
}

/// What comes of wanting to claim a drive.
#[derive(Debug, PartialEq, Eq)]
pub enum Claiming {
    /// The drive is already claimed by this node. Nothing to write.
    Already,
    /// Write this claim onto the drive's ESP.
    Write(Claim),
}

/// What a [`Claiming`] says.
pub enum ClaimingView {
    Already,
    Write { claim: ClaimView },
}

impl View for Claiming {
    type V = ClaimingView;

    open spec fn view(&self) -> ClaimingView {
        match *self {
            Claiming::Already => ClaimingView::Already,
            Claiming::Write(c) => ClaimingView::Write { claim: c@ },
        }
    }
}

/// What is said of a drive that has nowhere to put a claim.
pub open spec fn no_esp_text(device: Seq<char>) -> Seq<char> {
    device
        + " has no EFI System Partition to claim in - a claim lives on the ESP, so a drive carrying a bare slab has nowhere to put one"@
}

/// What is said of a drive that another node has claimed.
pub open spec fn held_text(device: Seq<char>, held: ClaimView) -> Seq<char> {
    device + " is claimed by node "@ + held.node + " (on "@ + held.claimed
        + "). That claim is what stops a disk changing hands by accident; pass --force to take it anyway."@
}

/// What comes of wanting to claim a drive for a node, at a given time.
pub open spec fn claiming(
    device: Seq<char>,
    me: Seq<char>,
    found: Option<EspView>,
    force: bool,
    now: Seq<char>,
) -> Result<ClaimingView, Seq<char>> {
    match found {
        None => Err(no_esp_text(device)),
        Some(e) => match e.claim {
            Some(held) if held.node == me => Ok(ClaimingView::Already),
            Some(held) if !force => Err(held_text(device, held)),
            _ => Ok(ClaimingView::Write { claim: ClaimView { node: me, claimed: now } }),
        },
    }
}

/// What came of it, as a value.
pub open spec fn outcome_of(r: Result<Claiming, String>) -> Result<ClaimingView, Seq<char>> {
    match r {
        Ok(c) => Ok(c@),
        Err(e) => Err(e@),
    }
}

/// Decides whether a drive may be claimed for a node, and with what claim.
pub fn claim(device: &str, me: &str, found: &Option<Esp>, force: bool, now: &str) -> (r: Result<
    Claiming,
    String,
>)
    ensures
        outcome_of(r) == claiming(device@, me@, probe::esp_view(*found), force, now@),
        match *found {
            None => r is Err,
            Some(e) => match e.claim {
                None => r matches Ok(Claiming::Write(c)) && c.node@ == me@ && c.claimed@ == now@,
                Some(held) => if held.node@ == me@ {
                    r == Ok::<Claiming, String>(Claiming::Already)
                } else if force {
                    r matches Ok(Claiming::Write(c)) && c.node@ == me@ && c.claimed@ == now@
                } else {
                    r is Err
                },
            },
        },
{
    let e = match found {
        Some(e) => e,
        None => {
            let mut s = text::owned(device);
            s.append(
                " has no EFI System Partition to claim in - a claim lives on the ESP, so a drive carrying a bare slab has nowhere to put one",
            );
            return Err(s);
        },
    };
    if let Some(held) = &e.claim {
        if text::equal(held.node.as_str(), me) {
            return Ok(Claiming::Already);
        }
        if !force {
            let mut s = text::owned(device);
            s.append(" is claimed by node ");
            s.append(held.node.as_str());
            s.append(" (on ");
            s.append(held.claimed.as_str());
            s.append(
                "). That claim is what stops a disk changing hands by accident; pass --force to take it anyway.",
            );
            return Err(s);
        }
    }
    Ok(Claiming::Write(Claim { node: text::owned(me), claimed: text::owned(now) }))
}

/// What is said of it, once it is done.
pub open spec fn claimed_text(device: Seq<char>, me: Seq<char>, done: ClaimingView) -> Seq<char> {
    match done {
        ClaimingView::Already => device + " is already claimed by "@ + me,
        ClaimingView::Write { claim } => device + " claimed by "@ + me + " at "@ + claim.claimed,
    }
}

impl Claiming {
    /// What to say of it, once it is done.
    pub fn describe(&self, device: &str, me: &str) -> (r: String)
        ensures
            r@ == claimed_text(device@, me@, self@),
    {
        let mut s = text::owned(device);
        match self {
            Claiming::Already => {
                s.append(" is already claimed by ");
                s.append(me);
            },
            Claiming::Write(c) => {
                s.append(" claimed by ");
                s.append(me);
                s.append(" at ");
                s.append(c.claimed.as_str());
            },
        }
        s
    }
}

// -------------------------------------------------------------------- laws
/// A claim stops a disk changing hands by accident: a drive that another node
/// has claimed is refused unless it is forced, and the refusal names the
/// holder.
pub proof fn law_a_claimed_drive_is_refused_unless_forced(
    device: Seq<char>,
    me: Seq<char>,
    found: EspView,
    held: ClaimView,
    force: bool,
    now: Seq<char>,
)
    requires
        found.claim == Some(held),
        held.node != me,
    ensures
        claiming(device, me, Some(found), force, now) == if force {
            Ok::<ClaimingView, Seq<char>>(
                ClaimingView::Write { claim: ClaimView { node: me, claimed: now } },
            )
        } else {
            Err(held_text(device, held))
        },
{
}

/// Claiming a drive twice writes once: when the claim has been written and the
/// drive is read again, it is already this node's, forced or not.
pub proof fn law_claiming_twice_writes_once(
    device: Seq<char>,
    found: EspView,
    c: ClaimView,
    force: bool,
    later: Seq<char>,
)
    requires
        c.node.len() > 0,
        esp::one_line(c.node),
        esp::one_line(c.claimed),
        found.claim == esp::claim_in(esp::claim_text(c)),
    ensures
        claiming(device, c.node, Some(found), force, later) == Ok::<ClaimingView, Seq<char>>(
            ClaimingView::Already,
        ),
{
    esp::law_a_claim_survives_being_written_and_read(c);
}

/// What comes of wanting to claim a drive: without an ESP there is nowhere to put
/// a claim, forced or not; a drive that nobody has claimed, or that another node
/// has and that is forced, is claimed for this node as of now; one that is this
/// node's already is left as it is, forced or not; and one that is another
/// node's is refused by that node's name and the time of its claim.
pub proof fn law_what_comes_of_claiming(
    device: Seq<char>,
    me: Seq<char>,
    e: EspView,
    force: bool,
    now: Seq<char>,
)
    ensures
        claiming(device, me, None, force, now) == Err::<ClaimingView, Seq<char>>(
            device
                + " has no EFI System Partition to claim in - a claim lives on the ESP, so a drive carrying a bare slab has nowhere to put one"@,
        ),
        e.claim is None || (force && e.claim->0.node != me) ==> {
            &&& claiming(device, me, Some(e), force, now) matches Ok(ClaimingView::Write { claim })
            &&& claim.node == me
            &&& claim.claimed == now
        },
        e.claim is Some && e.claim->0.node == me ==> claiming(device, me, Some(e), force, now)
            == Ok::<ClaimingView, Seq<char>>(ClaimingView::Already),
        e.claim is Some && e.claim->0.node != me && !force ==> claiming(
            device,
            me,
            Some(e),
            force,
            now,
        ) == Err::<ClaimingView, Seq<char>>(
            device + " is claimed by node "@ + e.claim->0.node + " (on "@ + e.claim->0.claimed
                + "). That claim is what stops a disk changing hands by accident; pass --force to take it anyway."@,
        ),
{
}

/// What is said of a claim names the drive and the node, and the time when one
/// was written.
pub proof fn law_what_is_said_of_a_claim(device: Seq<char>, me: Seq<char>, c: ClaimView)
    ensures
        claimed_text(device, me, ClaimingView::Already) == device + " is already claimed by "@ + me,
        claimed_text(device, me, ClaimingView::Write { claim: c }) == device + " claimed by "@ + me
            + " at "@ + c.claimed,
{
}

} // verus!
