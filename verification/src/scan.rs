//! Looking through a drive for a byte that is not zero.
//!
//! This is the expensive look, and it is taken down exactly one branch: the
//! drive carries no signature, has no partitions, arrived over nothing and is
//! about to be called blank, which is the one verdict that leads to a format.
//!
//! The first 64 MiB is read whole, the region where anything that has ever
//! been done to a drive leaves a trace. After that, 64 KiB every gigabyte, and
//! the last megabyte. It is a sample and not a proof, which is why it is the
//! *last* check and not the only one. A drive smaller than a gigabyte is simply
//! read.

use vstd::prelude::*;

use crate::sniff::TAIL;

verus! {

/// How much of a drive is read *whole* before it may be called blank.
pub const DEEP: u64 = 0x400_0000;

/// And after that, a grain over the rest: this much is read every [`STRIDE`]
/// bytes.
pub const SAMPLE: u64 = 0x1_0000;

/// How far apart the samples begin.
pub const STRIDE: u64 = 0x4000_0000;

/// How much is read at once of what is read whole.
pub const CHUNK: u64 = 0x10_0000;

/// How much of the front of a drive of `len` bytes is read whole.
pub open spec fn whole_part(len: u64) -> u64 {
    if len < STRIDE {
        len
    } else {
        DEEP
    }
}

/// Where the look through a drive has got to: what was asked to be read.
#[derive(Debug, Clone, Copy, PartialEq, Eq)]
pub enum Stage {
    /// The part read whole, from `at`.
    Whole { at: u64 },
    /// The sample at `at`.
    Grain { at: u64 },
    /// The last megabyte.
    Tail,
}

/// A look through a drive that waits for bytes.
#[derive(Debug, Clone, Copy, PartialEq, Eq)]
pub struct Scan {
    /// How many bytes the drive has.
    pub len: u64,
    pub stage: Stage,
}

/// What a look through a drive needs next, or what it came to.
#[derive(Debug, Clone, Copy, PartialEq, Eq)]
pub enum Next {
    /// Read `len` bytes from `at`, and hand what was read to `scan`.
    Read { scan: Scan, at: u64, len: u64 },
    /// Where the first byte that is not zero was found, or that none was.
    Done { first: Option<u64> },
}

impl Scan {
    /// Whether the stage is one that a drive of this length has.
    pub open spec fn wf(self) -> bool {
        match self.stage {
            Stage::Whole { at } => at < whole_part(self.len),
            Stage::Grain { at } => {
                &&& whole_part(self.len) <= at
                &&& (at - whole_part(self.len)) % (STRIDE as int) == 0
                &&& at + SAMPLE <= self.len
                &&& !in_tail(self.len, at as int)
            },
            Stage::Tail => self.len > whole_part(self.len) + TAIL,
        }
    }

    /// Where the bytes that it waits for begin.
    pub open spec fn at(self) -> u64 {
        match self.stage {
            Stage::Whole { at } => at,
            Stage::Grain { at } => at,
            Stage::Tail => (self.len - TAIL) as u64,
        }
    }

    /// How many bytes it waits for.
    pub open spec fn wanted(self) -> u64 {
        match self.stage {
            Stage::Whole { at } => if whole_part(self.len) - at < CHUNK {
                (whole_part(self.len) - at) as u64
            } else {
                CHUNK
            },
            Stage::Grain { at } => SAMPLE,
            Stage::Tail => TAIL,
        }
    }

    /// The request for the bytes that it waits for.
    pub open spec fn ask(self) -> Next {
        Next::Read { scan: self, at: self.at(), len: self.wanted() }
    }
}

/// What comes after the samples: the tail, when the drive has one that nothing
/// else covers.
pub open spec fn from_tail(len: u64) -> Next {
    if len > whole_part(len) + TAIL {
        (Scan { len, stage: Stage::Tail }).ask()
    } else {
        Next::Done { first: None }
    }
}

/// What comes next when the next sample would begin at `at`. A sample that would
/// begin in the tail is left to the tail, which is read whole.
pub open spec fn from_grain(len: u64, at: int) -> Next {
    if at + SAMPLE <= len && !in_tail(len, at) {
        (Scan { len, stage: Stage::Grain { at: at as u64 } }).ask()
    } else {
        from_tail(len)
    }
}

/// What comes next when the part read whole has been read up to `at`.
pub open spec fn from_whole(len: u64, at: int) -> Next {
    if at < whole_part(len) {
        (Scan { len, stage: Stage::Whole { at: at as u64 } }).ask()
    } else {
        from_grain(len, whole_part(len) as int)
    }
}

/// How many zero bytes a run of bytes begins with.
pub open spec fn zeros(b: Seq<u8>) -> nat
    decreases b.len(),
{
    if b.len() == 0 || b.first() != 0 {
        0
    } else {
        1 + zeros(b.drop_first())
    }
}

impl Scan {
    /// What follows when the given bytes were read.
    pub open spec fn after(self, b: Seq<u8>) -> Next {
        if zeros(b) < b.len() {
            Next::Done { first: Some((self.at() + zeros(b)) as u64) }
        } else {
            match self.stage {
                Stage::Whole { at } => if b.len() == 0 {
                    from_grain(self.len, whole_part(self.len) as int)
                } else {
                    from_whole(self.len, at + b.len())
                },
                Stage::Grain { at } => from_grain(self.len, at + STRIDE),
                Stage::Tail => Next::Done { first: None },
            }
        }
    }
}

/// `zeros` counts zero bytes, and stops at another or at the end.
proof fn lemma_zeros(b: Seq<u8>)
    ensures
        zeros(b) <= b.len(),
        zeros(b) < b.len() ==> b[zeros(b) as int] != 0,
        forall|i: int| 0 <= i < zeros(b) ==> b[i] == 0,
    decreases b.len(),
{
    if b.len() > 0 && b.first() == 0 {
        lemma_zeros(b.drop_first());
        assert forall|i: int| 0 <= i < zeros(b) implies b[i] == 0 by {
            if i > 0 {
                assert(b[i] == b.drop_first()[i - 1]);
            }
        }
    }
}

/// A byte other than zero with none before it, or the end, is where `zeros`
/// stops.
proof fn lemma_zeros_is(b: Seq<u8>, n: int)
    requires
        0 <= n <= b.len(),
        n < b.len() ==> b[n] != 0,
        forall|i: int| 0 <= i < n ==> b[i] == 0,
    ensures
        zeros(b) == n,
    decreases b.len(),
{
    if n > 0 {
        assert(b.first() == b[0]);
        lemma_zeros_is(b.drop_first(), n - 1);
    }
}

/// How many zero bytes a run of bytes begins with.
fn count_zeros(b: &[u8]) -> (r: usize)
    ensures
        r == zeros(b@),
{
    let mut i: usize = 0;
    while i < b.len() && b[i] == 0
        invariant
            i <= b.len(),
            forall|k: int| 0 <= k < i ==> b@[k] == 0,
        decreases b.len() - i,
    {
        i = i + 1;
    }
    proof {
        lemma_zeros_is(b@, i as int);
    }
    i
}

fn whole_of(len: u64) -> (r: u64)
    ensures
        r == whole_part(len),
{
    if len < STRIDE {
        len
    } else {
        DEEP
    }
}

impl Next {
    /// Whether what is asked for is something that the drive has.
    pub open spec fn wf(self) -> bool {
        match self {
            Next::Read { scan, at, len } => scan.wf() && self == scan.ask(),
            Next::Done { first } => true,
        }
    }
}

fn go_on_from_tail(len: u64) -> (r: Next)
    ensures
        r == from_tail(len),
        r.wf(),
{
    if len > TAIL && len - TAIL > whole_of(len) {
        Next::Read { scan: Scan { len, stage: Stage::Tail }, at: len - TAIL, len: TAIL }
    } else {
        Next::Done { first: None }
    }
}

fn go_on_from_grain(len: u64, at: u64) -> (r: Next)
    requires
        whole_part(len) <= at,
        (at - whole_part(len)) % (STRIDE as int) == 0,
    ensures
        r == from_grain(len, at as int),
        r.wf(),
{
    let covered: bool = len > TAIL && len - TAIL > whole_of(len) && at >= len - TAIL;
    if at <= len && SAMPLE <= len - at && !covered {
        Next::Read { scan: Scan { len, stage: Stage::Grain { at } }, at, len: SAMPLE }
    } else {
        go_on_from_tail(len)
    }
}

fn go_on_from_whole(len: u64, at: u64) -> (r: Next)
    ensures
        r == from_whole(len, at as int),
        r.wf(),
{
    let whole: u64 = whole_of(len);
    if at < whole {
        let left: u64 = whole - at;
        let want: u64 = if left < CHUNK {
            left
        } else {
            CHUNK
        };
        Next::Read { scan: Scan { len, stage: Stage::Whole { at } }, at, len: want }
    } else {
        go_on_from_grain(len, whole)
    }
}

/// Begins to look through a drive of `len` bytes for the first byte that is
/// not zero.
pub fn first_nonzero(len: u64) -> (r: Next)
    ensures
        r == from_whole(len, 0),
        r.wf(),
{
    go_on_from_whole(len, 0)
}

impl Scan {
    /// Goes on with the bytes that were asked for. There can be fewer of them,
    /// when the drive ended before it said it would; there are never more.
    pub fn read(self, b: &[u8]) -> (r: Next)
        requires
            self.wf(),
            b@.len() <= self.wanted(),
        ensures
            r == self.after(b@),
            r.wf(),
    {
        proof {
            lemma_zeros(b@);
        }
        let n: usize = count_zeros(b);
        let at: u64 = match self.stage {
            Stage::Whole { at } => at,
            Stage::Grain { at } => at,
            Stage::Tail => self.len - TAIL,
        };
        if n < b.len() {
            return Next::Done { first: Some(at + n as u64) };
        }
        match self.stage {
            Stage::Whole { at } => if b.len() == 0 {
                go_on_from_grain(self.len, whole_of(self.len))
            } else {
                go_on_from_whole(self.len, at + b.len() as u64)
            },
            Stage::Grain { at } => if at > u64::MAX - STRIDE {
                go_on_from_tail(self.len)
            } else {
                go_on_from_grain(self.len, at + STRIDE)
            },
            Stage::Tail => Next::Done { first: None },
        }
    }
}

// ------------------------------------------------------------- what is seen
/// Whether a position lies in the part that is read whole, or in a sample that
/// fits on the drive.
pub open spec fn in_front(len: u64, i: int) -> bool {
    let whole = whole_part(len) as int;
    let into = (i - whole) % (STRIDE as int);
    ||| 0 <= i < whole
    ||| whole <= i && into < SAMPLE && i - into + SAMPLE <= len
}

/// Whether a position lies in a tail that is read for its own sake.
pub open spec fn in_tail(len: u64, i: int) -> bool {
    len > whole_part(len) + TAIL && len - TAIL <= i < len
}

/// How far the look has come: it never goes back.
pub open spec fn rank(next: Next) -> int {
    match next {
        Next::Read { scan, .. } => match scan.stage {
            Stage::Whole { .. } => 3,
            Stage::Grain { .. } => 2,
            Stage::Tail => 1,
        },
        Next::Done { .. } => 0,
    }
}

/// How much there is still to do where it has come to.
pub open spec fn remaining(next: Next) -> int {
    match next {
        Next::Read { scan, at, .. } => scan.len - at,
        Next::Done { .. } => 0,
    }
}

/// What a look comes to on a drive that holds the given bytes and answers
/// every read with all that was asked for.
pub open spec fn outcome(next: Next, drive: Seq<u8>) -> Option<u64>
    decreases rank(next), remaining(next),
    when next.wf() && (next matches Next::Read { scan, .. } ==> scan.len == drive.len())
    via outcome_ends
{
    match next {
        Next::Read { scan, at, len } => outcome(
            scan.after(drive.subrange(at as int, at + len)),
            drive,
        ),
        Next::Done { first } => first,
    }
}

#[via_fn]
proof fn outcome_ends(next: Next, drive: Seq<u8>) {
}

/// What was found on a drive is the first byte that is not zero among all that
/// are read: the part read whole, the samples and the tail.
pub open spec fn first_found(len: u64, drive: Seq<u8>, found: Option<u64>) -> bool {
    match found {
        None => forall|i: int| #![trigger drive[i]]
            in_front(len, i) || in_tail(len, i) ==> drive[i] == 0,
        Some(o) => {
            &&& o < len
            &&& drive[o as int] != 0
            &&& in_front(len, o as int) || in_tail(len, o as int)
            &&& forall|i: int| #![trigger drive[i]]
                (in_front(len, i) || in_tail(len, i)) && i < o ==> drive[i] == 0
        },
    }
}

/// Everything up to where the look has come is zero.
spec fn zero_so_far(next: Next, drive: Seq<u8>) -> bool {
    match next {
        Next::Read { scan, .. } => match scan.stage {
            Stage::Whole { at } => forall|i: int| #![trigger drive[i]] 0 <= i < at ==> drive[i] == 0,
            Stage::Grain { at } => forall|i: int| #![trigger drive[i]]
                in_front(scan.len, i) && i < at ==> drive[i] == 0,
            Stage::Tail => forall|i: int| #![trigger drive[i]]
                in_front(scan.len, i) && !in_tail(scan.len, i) ==> drive[i] == 0,
        },
        Next::Done { .. } => true,
    }
}

/// Where a sample begins and ends.
proof fn lemma_sample(len: u64, at: int, i: int)
    requires
        whole_part(len) <= at,
        (at - whole_part(len)) % (STRIDE as int) == 0,
    ensures
        at + SAMPLE <= len && at <= i < at + SAMPLE ==> in_front(len, i),
        at + SAMPLE <= i < at + STRIDE ==> !in_front(len, i),
        at + SAMPLE > len && at <= i ==> !in_front(len, i),
        (at + STRIDE - whole_part(len)) % (STRIDE as int) == 0,
{
    let d = i - at;
    let whole = whole_part(len) as int;
    let into = (i - whole) % (STRIDE as int);
    assert(0 <= d < STRIDE ==> into == d);
    assert(at <= i ==> at <= i - into);
}

/// A byte that is not zero, found where the look has come to after nothing but
/// zeros, is the first of all that are read.
proof fn lemma_found(scan: Scan, drive: Seq<u8>, o: int)
    requires
        scan.wf(),
        scan.len == drive.len(),
        zero_so_far(scan.ask(), drive),
        scan.at() <= o < scan.at() + scan.wanted(),
        drive[o] != 0,
        forall|i: int| #![trigger drive[i]] scan.at() <= i < o ==> drive[i] == 0,
    ensures
        first_found(scan.len, drive, Some(o as u64)),
{
    let len = scan.len;
    match scan.stage {
        Stage::Whole { at } => {
            assert(in_front(len, o));
        },
        Stage::Grain { at } => {
            lemma_sample(len, at as int, o);
            assert(in_front(len, o));
        },
        Stage::Tail => {
            assert(in_tail(len, o));
        },
    }
}

/// After nothing but zeros where the look has come to, everything is still
/// zero so far.
proof fn lemma_step(scan: Scan, drive: Seq<u8>)
    requires
        scan.wf(),
        scan.len == drive.len(),
        zero_so_far(scan.ask(), drive),
        forall|i: int| #![trigger drive[i]]
            scan.at() <= i < scan.at() + scan.wanted() ==> drive[i] == 0,
    ensures
        ({
            let then = scan.after(drive.subrange(scan.at() as int, scan.at() + scan.wanted()));
            &&& then.wf()
            &&& zero_so_far(then, drive)
            &&& then matches Next::Read { scan: on, .. } ==> on.len == scan.len
            &&& then matches Next::Done { first } ==> first_found(scan.len, drive, first)
            &&& rank(then) < rank(scan.ask()) || (rank(then) == rank(scan.ask()) && remaining(then)
                < remaining(scan.ask()))
        }),
{
    let len = scan.len;
    let b = drive.subrange(scan.at() as int, scan.at() + scan.wanted());
    lemma_zeros(b);
    assert(zeros(b) == b.len()) by {
        if zeros(b) < b.len() {
            assert(drive[scan.at() + zeros(b)] == b[zeros(b) as int]);
        }
    }
    let then = scan.after(b);
    match scan.stage {
        Stage::Whole { at } => {
            lemma_from_grain(len, whole_part(len) as int, drive);
        },
        Stage::Grain { at } => {
            lemma_sample(len, at as int, 0);
            assert forall|i: int| #![trigger drive[i]]
                in_front(len, i) && i < at + STRIDE implies drive[i] == 0 by {
                lemma_sample(len, at as int, i);
            }
            lemma_from_grain(len, at + STRIDE, drive);
        },
        Stage::Tail => {},
    }
}

/// Going on with the samples from a place before which all is zero.
proof fn lemma_from_grain(len: u64, at: int, drive: Seq<u8>)
    requires
        len == drive.len(),
        whole_part(len) <= at,
        (at - whole_part(len)) % (STRIDE as int) == 0,
    ensures
        (forall|i: int| #![trigger drive[i]] in_front(len, i) && i < at ==> drive[i] == 0) ==> {
            let then = from_grain(len, at);
            &&& then.wf()
            &&& zero_so_far(then, drive)
            &&& then matches Next::Read { scan: on, .. } ==> on.len == len
            &&& then matches Next::Done { first } ==> first_found(len, drive, first)
        },
{
    if at + SAMPLE > len {
        assert forall|i: int| #![trigger drive[i]]
            in_front(len, i) implies i < at by {
            lemma_sample(len, at, i);
        }
    }
}

/// A look that has seen only zeros so far comes to the first byte that is not.
proof fn lemma_outcome(next: Next, drive: Seq<u8>)
    requires
        next is Read,
        next.wf(),
        next->scan.len == drive.len(),
        zero_so_far(next, drive),
    ensures
        first_found(drive.len() as u64, drive, outcome(next, drive)),
    decreases rank(next), remaining(next),
{
    let scan = next->scan;
    let at = scan.at() as int;
    let b = drive.subrange(at, at + scan.wanted());
    let then = scan.after(b);
    lemma_zeros(b);
    assert(outcome(next, drive) == outcome(then, drive));
    if zeros(b) < b.len() {
        let o = at + zeros(b);
        assert(drive[o] == b[zeros(b) as int]);
        assert forall|i: int| #![trigger drive[i]] at <= i < o implies drive[i] == 0 by {
            assert(drive[i] == b[i - at]);
        }
        lemma_found(scan, drive, o);
    } else {
        assert forall|i: int| #![trigger drive[i]]
            at <= i < at + scan.wanted() implies drive[i] == 0 by {
            assert(drive[i] == b[i - at]);
        }
        lemma_step(scan, drive);
        if then is Read {
            lemma_outcome(then, drive);
        }
    }
}

/// The look through a drive finds the first byte that is not zero among
/// everything that it reads.
pub proof fn law_the_first_byte_that_is_not_zero_is_found(drive: Seq<u8>)
    requires
        drive.len() <= u64::MAX,
    ensures
        first_found(
            drive.len() as u64,
            drive,
            outcome(from_whole(drive.len() as u64, 0), drive),
        ),
{
    let next = from_whole(drive.len() as u64, 0);
    if next is Read {
        lemma_outcome(next, drive);
    }
}

/// A drive that is smaller than the distance between two samples is simply
/// read: nothing is found on it exactly when every byte of it is zero, and
/// otherwise the very first byte that is not.
pub proof fn law_a_small_drive_is_read_whole(drive: Seq<u8>)
    requires
        drive.len() < STRIDE,
    ensures
        match outcome(from_whole(drive.len() as u64, 0), drive) {
            None => forall|i: int| 0 <= i < drive.len() ==> drive[i] == 0,
            Some(o) => {
                &&& o < drive.len()
                &&& drive[o as int] != 0
                &&& forall|i: int| 0 <= i < o ==> drive[i] == 0
            },
        },
{
    law_the_first_byte_that_is_not_zero_is_found(drive);
}

/// On any drive the first 64 MiB and the last megabyte are read whole: a byte
/// there that is not zero is enough for something to be found.
pub proof fn law_the_ends_of_a_drive_are_read_whole(drive: Seq<u8>, i: int)
    requires
        0 <= i < drive.len() <= u64::MAX,
        i < DEEP || drive.len() - TAIL <= i,
        drive[i] != 0,
    ensures
        outcome(from_whole(drive.len() as u64, 0), drive) is Some,
{
    law_the_first_byte_that_is_not_zero_is_found(drive);
}

/// It is a sample and not a proof: a byte between two samples is not seen, and
/// a drive where nothing else is not zero passes for blank.
pub proof fn law_a_byte_between_two_samples_is_not_seen(drive: Seq<u8>, i: int)
    requires
        0 <= i < drive.len() <= u64::MAX,
        !in_front(drive.len() as u64, i),
        !in_tail(drive.len() as u64, i),
        forall|j: int| 0 <= j < drive.len() && j != i ==> drive[j] == 0,
    ensures
        outcome(from_whole(drive.len() as u64, 0), drive) is None,
{
    law_the_first_byte_that_is_not_zero_is_found(drive);
}

/// Whether a byte of a drive is looked at. A drive of less than a gigabyte is
/// read whole; of a larger one the first 64 MiB, then 64 KiB every gigabyte, and
/// the last megabyte.
pub open spec fn looked_at(len: int, i: int) -> bool {
    if len < 1073741824 {
        0 <= i < len
    } else {
        ||| 0 <= i < 67108864
        ||| exists|k: int|
            0 <= k && #[trigger] (k * 1073741824) + 67108864 <= i < k * 1073741824 + 67174400
                && k * 1073741824 + 67174400 <= len
        ||| len - 1048576 <= i < len
    }
}

proof fn lemma_looked_at(len: u64, i: int)
    ensures
        looked_at(len as int, i) == (in_front(len, i) || in_tail(len, i)),
{
    if len >= STRIDE {
        let into = (i - DEEP) % (STRIDE as int);
        let k = (i - DEEP) / (STRIDE as int);
        assert(k * 1073741824 + into == i - DEEP);
        if in_front(len, i) && i >= DEEP {
            assert((k * 1073741824) + 67108864 <= i < k * 1073741824 + 67174400);
            assert(k >= 0);
        }
        if exists|k: int|
            0 <= k && #[trigger] (k * 1073741824) + 67108864 <= i < k * 1073741824 + 67174400 && k
                * 1073741824 + 67174400 <= len {
            let m = choose|k: int|
                0 <= k && #[trigger] (k * 1073741824) + 67108864 <= i < k * 1073741824 + 67174400
                    && k * 1073741824 + 67174400 <= len;
            let d = i - DEEP - m * 1073741824;
            assert(0 <= d < 65536);
            assert(into == d) by (nonlinear_arith)
                requires
                    into == (i - DEEP) % (1073741824 as int),
                    i - DEEP == m * 1073741824 + d,
                    0 <= d < 65536,
            ;
            assert(in_front(len, i));
        }
    }
}

/// What is found on a drive is the first byte that is not zero among those that
/// are looked at, and nothing is found exactly when all of them are zero.
pub proof fn law_what_is_found_was_looked_at(drive: Seq<u8>)
    requires
        drive.len() <= u64::MAX,
    ensures
        match outcome(from_whole(drive.len() as u64, 0), drive) {
            None => forall|i: int| #![trigger drive[i]]
                looked_at(drive.len() as int, i) ==> drive[i] == 0,
            Some(o) => {
                &&& o < drive.len()
                &&& drive[o as int] != 0
                &&& looked_at(drive.len() as int, o as int)
                &&& forall|i: int| #![trigger drive[i]]
                    looked_at(drive.len() as int, i) && i < o ==> drive[i] == 0
            },
        },
{
    law_the_first_byte_that_is_not_zero_is_found(drive);
    assert forall|i: int| looked_at(drive.len() as int, i) == (in_front(drive.len() as u64, i)
        || in_tail(drive.len() as u64, i)) by {
        lemma_looked_at(drive.len() as u64, i);
    }
}

/// A byte that is not zero ends the look: what was found is where the first such
/// byte of what was read lies on the drive.
pub proof fn law_a_byte_that_is_not_zero_ends_the_look(scan: Scan, b: Seq<u8>, k: int)
    requires
        scan.wf(),
        b.len() <= scan.wanted(),
        0 <= k < b.len(),
        b[k] != 0,
        forall|j: int| 0 <= j < k ==> b[j] == 0,
    ensures
        ({
            let from = match scan.stage {
                Stage::Whole { at } => at as int,
                Stage::Grain { at } => at as int,
                Stage::Tail => scan.len - 1048576,
            };
            &&& scan.after(b) matches Next::Done { first }
            &&& first matches Some(o)
            &&& o == from + k
        }),
{
    lemma_zeros_is(b, k);
}

/// A drive that hands out less than it was asked for is asked on from there, and
/// one that hands out nothing is taken to end there: its samples and its tail
/// are still asked for. A sample or a tail that is cut short is not asked for
/// again.
pub proof fn law_a_short_answer_is_gone_on_from(scan: Scan, b: Seq<u8>, c: Seq<u8>)
    requires
        scan.wf(),
        b.len() <= scan.wanted(),
        c.len() <= scan.wanted(),
        forall|j: int| 0 <= j < b.len() ==> b[j] == 0,
        forall|j: int| 0 <= j < c.len() ==> c[j] == 0,
    ensures
        scan.stage matches Stage::Whole { at } ==> {
            let whole = if scan.len < 1073741824 {
                scan.len as int
            } else {
                67108864
            };
            &&& b.len() > 0 && at + b.len() < whole ==> {
                &&& scan.after(b) matches Next::Read { scan: on, at: from, len: n }
                &&& on.stage == (Stage::Whole { at: from })
                &&& on.len == scan.len
                &&& from == at + b.len()
                &&& 0 < n <= whole - from
            }
            &&& b.len() == 0 || at + b.len() == whole ==> scan.after(b) == from_grain(
                scan.len,
                whole,
            )
        },
        !(scan.stage is Whole) ==> scan.after(b) == scan.after(c),
        scan.stage is Tail ==> scan.after(b) == (Next::Done { first: None }),
{
    lemma_zeros_is(b, b.len() as int);
    lemma_zeros_is(c, c.len() as int);
}

/// What is asked for lies on the drive, and at least one byte is asked for.
pub proof fn law_what_is_asked_for_is_on_the_drive(scan: Scan)
    requires
        scan.wf(),
    ensures
        scan.ask() matches Next::Read { scan: on, at, len } && on == scan && 0 < len && at + len
            <= scan.len,
        scan.stage matches Stage::Whole { at } ==> scan.at() == at,
        scan.stage matches Stage::Grain { at } ==> scan.at() == at && scan.wanted() == 65536,
        scan.stage is Tail ==> scan.at() == scan.len - 1048576 && scan.wanted() == 1048576,
{
}

} // verus!
