//! Text, taken apart and put together.
//!
//! Everything zeroboot learns about a machine reaches it as text: sysfs
//! attributes, loader entries, kernel command lines, the answers of another
//! program. This module holds the handful of operations that the rest of the
//! library needs, each stated over sequences of characters.

use vstd::prelude::*;
use vstd::slice::slice_subrange;

verus! {

/// `String::push` appends the given character to the end of the string, and
/// changes nothing else.
pub assume_specification[ String::push ](s: &mut String, c: char)
    ensures
        final(s)@ == old(s)@.push(c),
;

// ------------------------------------------------------------- conversion
/// The characters of a string.
pub fn chars_of(s: &str) -> (r: Vec<char>)
    ensures
        r@ == s@,
{
    let mut r: Vec<char> = Vec::new();
    for c in it: s.chars()
        invariant
            it.seq() == s@,
            r@ == s@.take(it.index()),
    {
        r.push(c);
    }
    r
}

/// The string made of the given characters.
pub fn text_of(s: &[char]) -> (r: String)
    ensures
        r@ == s@,
{
    let mut r = String::new();
    let mut i: usize = 0;
    while i < s.len()
        invariant
            i <= s.len(),
            r@ == s@.take(i as int),
        decreases s.len() - i,
    {
        r.push(s[i]);
        i = i + 1;
    }
    assert(s@.take(i as int) == s@);
    r
}

/// Whether two runs of characters are the same.
pub fn same(a: &[char], b: &[char]) -> (r: bool)
    ensures
        r == (a@ == b@),
{
    if a.len() != b.len() {
        return false;
    }
    let mut i: usize = 0;
    while i < a.len()
        invariant
            i <= a.len(),
            a.len() == b.len(),
            a@.take(i as int) == b@.take(i as int),
        decreases a.len() - i,
    {
        if a[i] != b[i] {
            return false;
        }
        assert(a@.take(i + 1) == a@.take(i as int).push(a@[i as int]));
        assert(b@.take(i + 1) == b@.take(i as int).push(b@[i as int]));
        i = i + 1;
    }
    assert(a@.take(i as int) == a@);
    assert(b@.take(i as int) == b@);
    true
}

/// Whether two strings are the same text.
pub fn equal(a: &str, b: &str) -> (r: bool)
    ensures
        r == (a@ == b@),
{
    same(chars_of(a).as_slice(), chars_of(b).as_slice())
}

/// The string with the given text.
pub fn owned(s: &str) -> (r: String)
    ensures
        r@ == s@,
{
    text_of(chars_of(s).as_slice())
}

/// The text in an `Option`, as a sequence of characters.
pub open spec fn view_of(s: Option<String>) -> Option<Seq<char>> {
    match s {
        Some(t) => Some(t@),
        None => None,
    }
}

/// Copies the text in an `Option`.
pub fn copy_option(s: &Option<String>) -> (r: Option<String>)
    ensures
        view_of(r) == view_of(*s),
{
    match s {
        Some(t) => Some(t.clone()),
        None => None,
    }
}

// ------------------------------------------------------------ white space
/// The characters that carry Unicode's `White_Space` property.
pub open spec fn white_space(c: char) -> bool {
    let u = c as u32;
    ||| 0x09 <= u <= 0x0d
    ||| u == 0x20
    ||| u == 0x85
    ||| u == 0xa0
    ||| u == 0x1680
    ||| 0x2000 <= u <= 0x200a
    ||| u == 0x2028
    ||| u == 0x2029
    ||| u == 0x202f
    ||| u == 0x205f
    ||| u == 0x3000
}

/// Whether a character is white space.
pub fn is_white_space(c: char) -> (r: bool)
    ensures
        r == white_space(c),
{
    let u: u32 = c as u32;
    (0x09 <= u && u <= 0x0d) || u == 0x20 || u == 0x85 || u == 0xa0 || u == 0x1680 || (0x2000 <= u
        && u <= 0x200a) || u == 0x2028 || u == 0x2029 || u == 0x202f || u == 0x205f || u == 0x3000
}

/// `s` without its leading white space.
pub open spec fn trimmed_start(s: Seq<char>) -> Seq<char>
    decreases s.len(),
{
    if s.len() > 0 && white_space(s.first()) {
        trimmed_start(s.drop_first())
    } else {
        s
    }
}

/// `s` without its trailing white space.
pub open spec fn trimmed_end(s: Seq<char>) -> Seq<char>
    decreases s.len(),
{
    if s.len() > 0 && white_space(s.last()) {
        trimmed_end(s.drop_last())
    } else {
        s
    }
}

/// `s` without the white space at either end.
pub open spec fn trimmed(s: Seq<char>) -> Seq<char> {
    trimmed_end(trimmed_start(s))
}

/// Takes the white space off the front.
pub fn trim_start(s: &[char]) -> (r: &[char])
    ensures
        r@ == trimmed_start(s@),
{
    let mut i: usize = 0;
    assert(s@.skip(0) == s@);
    while i < s.len() && is_white_space(s[i])
        invariant
            i <= s.len(),
            trimmed_start(s@) == trimmed_start(s@.skip(i as int)),
        decreases s.len() - i,
    {
        assert(s@.skip(i as int).drop_first() == s@.skip(i + 1));
        i = i + 1;
    }
    assert(s@.skip(i as int) == s@.subrange(i as int, s@.len() as int));
    slice_subrange(s, i, s.len())
}

/// Takes the white space off the end.
pub fn trim_end(s: &[char]) -> (r: &[char])
    ensures
        r@ == trimmed_end(s@),
{
    let mut j: usize = s.len();
    assert(s@.take(j as int) == s@);
    while j > 0 && is_white_space(s[j - 1])
        invariant
            j <= s.len(),
            trimmed_end(s@) == trimmed_end(s@.take(j as int)),
        decreases j,
    {
        assert(s@.take(j as int).drop_last() == s@.take(j - 1));
        j = j - 1;
    }
    assert(s@.take(j as int) == s@.subrange(0, j as int));
    slice_subrange(s, 0, j)
}

/// Takes the white space off both ends.
pub fn trim(s: &[char]) -> (r: &[char])
    ensures
        r@ == trimmed(s@),
{
    trim_end(trim_start(s))
}

/// Trimming takes nothing off a text with no white space at either end.
pub proof fn lemma_trimmed_same(s: Seq<char>)
    requires
        s.len() == 0 || (!white_space(s.first()) && !white_space(s.last())),
    ensures
        trimmed(s) == s,
{
}

/// What is left by taking white space off the front begins with something
/// else, if it is anything.
proof fn lemma_trimmed_start(s: Seq<char>)
    ensures
        trimmed_start(s).len() > 0 ==> !white_space(trimmed_start(s).first()),
    decreases s.len(),
{
    if s.len() > 0 && white_space(s.first()) {
        lemma_trimmed_start(s.drop_first());
    }
}

/// What is left by taking white space off the end is a front part of the text
/// that ends with something else, if it is anything.
proof fn lemma_trimmed_end(s: Seq<char>)
    ensures
        trimmed_end(s).len() <= s.len(),
        trimmed_end(s) == s.take(trimmed_end(s).len() as int),
        trimmed_end(s).len() > 0 ==> !white_space(trimmed_end(s).last()),
    decreases s.len(),
{
    if s.len() > 0 && white_space(s.last()) {
        lemma_trimmed_end(s.drop_last());
        let n = trimmed_end(s).len() as int;
        assert(s.drop_last().take(n) == s.take(n));
    } else {
        assert(s.take(s.len() as int) == s);
    }
}

/// A trimmed text has no white space at either end.
pub proof fn lemma_trimmed_ends(s: Seq<char>)
    ensures
        trimmed(s).len() > 0 ==> !white_space(trimmed(s).first()) && !white_space(
            trimmed(s).last(),
        ),
{
    lemma_trimmed_start(s);
    lemma_trimmed_end(trimmed_start(s));
    if trimmed(s).len() > 0 {
        assert(trimmed(s).first() == trimmed_start(s).first());
    }
}

// ---------------------------------------------------------------- pieces
/// Whether `s` begins with `p`.
pub open spec fn has_prefix(s: Seq<char>, p: Seq<char>) -> bool {
    p.len() <= s.len() && s.take(p.len() as int) == p
}

/// Whether `s` begins with `p`.
pub fn starts_with(s: &[char], p: &[char]) -> (r: bool)
    ensures
        r == has_prefix(s@, p@),
{
    if s.len() < p.len() {
        return false;
    }
    assert(s@.take(p@.len() as int) == s@.subrange(0, p@.len() as int));
    same(slice_subrange(s, 0, p.len()), p)
}

/// What follows `p` in `s`, when `s` begins with `p`.
pub open spec fn after_prefix(s: Seq<char>, p: Seq<char>) -> Option<Seq<char>> {
    if has_prefix(s, p) {
        Some(s.skip(p.len() as int))
    } else {
        None
    }
}

/// What follows `p` in `s`, when `s` begins with `p`.
pub fn strip_prefix<'a>(s: &'a [char], p: &[char]) -> (r: Option<&'a [char]>)
    ensures
        match r {
            Some(t) => after_prefix(s@, p@) == Some(t@),
            None => after_prefix(s@, p@) is None,
        },
{
    if starts_with(s, p) {
        assert(s@.skip(p@.len() as int) == s@.subrange(p@.len() as int, s@.len() as int));
        Some(slice_subrange(s, p.len(), s.len()))
    } else {
        None
    }
}

/// Whether `p` stands in `s` at position `i`.
pub open spec fn occurs_at(s: Seq<char>, p: Seq<char>, i: int) -> bool {
    0 <= i && i + p.len() <= s.len() && s.subrange(i, i + p.len()) == p
}

/// Whether `p` stands anywhere in `s`.
pub open spec fn occurs(s: Seq<char>, p: Seq<char>) -> bool {
    exists|i: int| occurs_at(s, p, i)
}

/// The first position at or after `i` at which `p` stands in `s`.
pub open spec fn position_from(s: Seq<char>, p: Seq<char>, i: int) -> Option<int>
    decreases s.len() + 1 - i,
{
    if i + p.len() > s.len() {
        None
    } else if occurs_at(s, p, i) {
        Some(i)
    } else {
        position_from(s, p, i + 1)
    }
}

/// `position_from` names the first position, and names one wherever there is
/// one.
proof fn lemma_position_from(s: Seq<char>, p: Seq<char>, i: int)
    requires
        0 <= i,
    ensures
        match position_from(s, p, i) {
            Some(k) => i <= k && occurs_at(s, p, k) && forall|j: int|
                i <= j < k ==> !occurs_at(s, p, j),
            None => forall|j: int| i <= j ==> !occurs_at(s, p, j),
        },
    decreases s.len() + 1 - i,
{
    if i + p.len() <= s.len() && !occurs_at(s, p, i) {
        lemma_position_from(s, p, i + 1);
    }
}

/// Where `p` first stands in `s`.
pub fn find(s: &[char], p: &[char]) -> (r: Option<usize>)
    ensures
        match r {
            Some(i) => position_from(s@, p@, 0) == Some(i as int),
            None => position_from(s@, p@, 0) is None,
        },
{
    if s.len() < p.len() {
        return None;
    }
    let last: usize = s.len() - p.len();
    let mut i: usize = 0;
    while i <= last
        invariant
            i <= last + 1,
            last + p@.len() == s@.len(),
            s@.len() <= usize::MAX,
            position_from(s@, p@, 0) == position_from(s@, p@, i as int),
        decreases last + 1 - i,
    {
        if same(slice_subrange(s, i, i + p.len()), p) {
            return Some(i);
        }
        if i == last {
            assert(position_from(s@, p@, i + 1) is None);
            return None;
        }
        i = i + 1;
    }
    None
}

/// Whether `p` stands anywhere in `s`.
pub fn contains(s: &[char], p: &[char]) -> (r: bool)
    ensures
        r == occurs(s@, p@),
{
    proof {
        lemma_position_from(s@, p@, 0);
    }
    match find(s, p) {
        Some(i) => {
            assert(occurs_at(s@, p@, i as int));
            true
        },
        None => false,
    }
}

/// The text before and after the first place where `p` stands in `s`.
pub open spec fn split_at_text(s: Seq<char>, p: Seq<char>) -> Option<(Seq<char>, Seq<char>)> {
    match position_from(s, p, 0) {
        Some(i) => Some((s.take(i), s.skip(i + p.len()))),
        None => None,
    }
}

/// What follows the first place where `p` stands in `s`.
pub fn after_text<'a>(s: &'a [char], p: &[char]) -> (r: Option<&'a [char]>)
    ensures
        match r {
            Some(t) => split_at_text(s@, p@) matches Some((_, b)) && b == t@,
            None => split_at_text(s@, p@) is None,
        },
{
    proof {
        lemma_position_from(s@, p@, 0);
    }
    match find(s, p) {
        Some(i) => {
            assert(occurs_at(s@, p@, i as int));
            assert(s@.skip(i + p@.len()) == s@.subrange(i + p@.len(), s@.len() as int));
            let end: usize = s.len();
            Some(slice_subrange(s, i + p.len(), end))
        },
        None => None,
    }
}

/// How many characters come before the first `c`; all of them when there is
/// none.
pub open spec fn upto(s: Seq<char>, c: char) -> nat
    decreases s.len(),
{
    if s.len() == 0 || s.first() == c {
        0
    } else {
        1 + upto(s.drop_first(), c)
    }
}

/// `upto` counts characters of `s`, none of which is `c`, and stops at `c` or
/// at the end.
pub proof fn lemma_upto(s: Seq<char>, c: char)
    ensures
        upto(s, c) <= s.len(),
        upto(s, c) < s.len() ==> s[upto(s, c) as int] == c,
        forall|i: int| 0 <= i < upto(s, c) ==> s[i] != c,
    decreases s.len(),
{
    if s.len() > 0 && s.first() != c {
        lemma_upto(s.drop_first(), c);
        assert forall|i: int| 0 <= i < upto(s, c) implies s[i] != c by {
            if i > 0 {
                assert(s[i] == s.drop_first()[i - 1]);
            }
        }
    }
}

/// A position that holds `c`, with no `c` before it, is where `upto` stops.
proof fn lemma_upto_is(s: Seq<char>, c: char, n: int)
    requires
        0 <= n <= s.len(),
        n < s.len() ==> s[n] == c,
        forall|i: int| 0 <= i < n ==> s[i] != c,
    ensures
        upto(s, c) == n,
    decreases s.len(),
{
    if n > 0 {
        assert(s.first() == s[0]);
        lemma_upto_is(s.drop_first(), c, n - 1);
    }
}

/// How many characters come before the first `c`.
pub fn count_upto(s: &[char], c: char) -> (r: usize)
    ensures
        r == upto(s@, c),
{
    let mut i: usize = 0;
    while i < s.len() && s[i] != c
        invariant
            i <= s.len(),
            forall|k: int| 0 <= k < i ==> s@[k] != c,
        decreases s.len() - i,
    {
        i = i + 1;
    }
    proof {
        lemma_upto_is(s@, c, i as int);
    }
    i
}

/// The text before and after the first `c` in `s`.
pub open spec fn split_at_char(s: Seq<char>, c: char) -> Option<(Seq<char>, Seq<char>)> {
    let n = upto(s, c);
    if n < s.len() {
        Some((s.take(n as int), s.skip(n as int + 1)))
    } else {
        None
    }
}

/// The text before and after the first `c` in `s`.
pub fn split_once(s: &[char], c: char) -> (r: Option<(&[char], &[char])>)
    ensures
        match r {
            Some((a, b)) => split_at_char(s@, c) == Some((a@, b@)),
            None => split_at_char(s@, c) is None,
        },
{
    let n: usize = count_upto(s, c);
    if n < s.len() {
        assert(s@.take(n as int) == s@.subrange(0, n as int));
        assert(s@.skip(n + 1) == s@.subrange(n + 1, s@.len() as int));
        Some((slice_subrange(s, 0, n), slice_subrange(s, n + 1, s.len())))
    } else {
        None
    }
}

/// A text made of a part without `c`, a `c`, and anything, comes apart there.
pub proof fn lemma_split_at_char(a: Seq<char>, c: char, b: Seq<char>)
    requires
        !a.contains(c),
    ensures
        split_at_char(a + seq![c] + b, c) == Some((a, b)),
        upto(a + seq![c] + b, c) == a.len(),
{
    let s = a + seq![c] + b;
    assert forall|i: int| 0 <= i < a.len() implies s[i] != c by {
        assert(a.contains(a[i]));
    }
    lemma_upto_is(s, c, a.len() as int);
    assert(s.take(a.len() as int) == a);
    assert(s.skip(a.len() as int + 1) == b);
}

// ------------------------------------------------------------------ lines
/// `s` without one carriage return at its end.
pub open spec fn without_cr(s: Seq<char>) -> Seq<char> {
    if s.len() > 0 && s.last() == '\r' {
        s.drop_last()
    } else {
        s
    }
}

/// The lines of a text. A line ends in a line feed or in a carriage return and
/// a line feed, neither of which is part of it; the last line may do without.
pub open spec fn line_list(s: Seq<char>) -> Seq<Seq<char>>
    decreases s.len(),
{
    let n = upto(s, '\n');
    if s.len() == 0 {
        seq![]
    } else if n >= s.len() {
        seq![s]
    } else {
        seq![without_cr(s.take(n as int))] + line_list(s.skip(n as int + 1))
    }
}

/// The first line of a text, and the lines of the rest.
pub proof fn lemma_line_list_step(a: Seq<char>, rest: Seq<char>)
    requires
        !a.contains('\n'),
    ensures
        line_list(a + seq!['\n'] + rest) == seq![without_cr(a)] + line_list(rest),
{
    lemma_split_at_char(a, '\n', rest);
}

/// The runs of characters in a list, as sequences.
pub open spec fn views(v: Seq<&[char]>) -> Seq<Seq<char>> {
    Seq::new(v.len(), |i: int| v[i]@)
}

/// Splits a text into its lines.
pub fn lines(s: &[char]) -> (r: Vec<&[char]>)
    ensures
        views(r@) == line_list(s@),
{
    let mut r: Vec<&[char]> = Vec::new();
    let mut from: usize = 0;
    assert(s@.skip(0) == s@);
    assert(views(r@) + line_list(s@) == line_list(s@));
    while from < s.len()
        invariant
            from <= s.len(),
            views(r@) + line_list(s@.skip(from as int)) == line_list(s@),
        decreases s.len() - from,
    {
        let rest = slice_subrange(s, from, s.len());
        assert(rest@ == s@.skip(from as int));
        let n: usize = count_upto(rest, '\n');
        let ghost before = r@;
        proof {
            lemma_upto(rest@, '\n');
        }
        if n >= rest.len() {
            r.push(rest);
            assert(views(r@) == views(before).push(rest@));
            assert(line_list(rest@) == seq![rest@]);
            assert(views(r@) == views(before) + seq![rest@]);
            return r;
        }
        let whole = slice_subrange(rest, 0, n);
        assert(whole@ == rest@.take(n as int));
        let line = if n > 0 && whole[n - 1] == '\r' {
            assert(whole@.drop_last() == whole@.subrange(0, n - 1));
            slice_subrange(whole, 0, n - 1)
        } else {
            whole
        };
        r.push(line);
        assert(views(r@) == views(before).push(line@));
        assert(rest@.skip(n + 1) == s@.skip(from + n + 1));
        assert(line_list(rest@) == seq![line@] + line_list(rest@.skip(n + 1)));
        assert(views(before) + line_list(rest@) == views(r@) + line_list(rest@.skip(n + 1)));
        from = from + n + 1;
    }
    assert(s@.skip(from as int) == Seq::<char>::empty());
    r
}

// ------------------------------------------------------------------ words
/// How many characters come before the first white space.
pub open spec fn word_len(s: Seq<char>) -> nat
    decreases s.len(),
{
    if s.len() == 0 || white_space(s.first()) {
        0
    } else {
        1 + word_len(s.drop_first())
    }
}

/// `word_len` counts characters of `s`, none of which is white space, and
/// stops at white space or at the end.
pub proof fn lemma_word_len(s: Seq<char>)
    ensures
        word_len(s) <= s.len(),
        word_len(s) < s.len() ==> white_space(s[word_len(s) as int]),
        forall|i: int| 0 <= i < word_len(s) ==> !white_space(s[i]),
    decreases s.len(),
{
    if s.len() > 0 && !white_space(s.first()) {
        lemma_word_len(s.drop_first());
        assert forall|i: int| 0 <= i < word_len(s) implies !white_space(s[i]) by {
            if i > 0 {
                assert(s[i] == s.drop_first()[i - 1]);
            }
        }
    }
}

/// White space with none before it, or the end, is where `word_len` stops.
proof fn lemma_word_len_is(s: Seq<char>, n: int)
    requires
        0 <= n <= s.len(),
        n < s.len() ==> white_space(s[n]),
        forall|i: int| 0 <= i < n ==> !white_space(s[i]),
    ensures
        word_len(s) == n,
    decreases s.len(),
{
    if n > 0 {
        assert(s.first() == s[0]);
        lemma_word_len_is(s.drop_first(), n - 1);
    }
}

/// The words of a text: the runs of characters between white space.
pub open spec fn word_list(s: Seq<char>) -> Seq<Seq<char>>
    decreases s.len(),
{
    proof {
        lemma_word_len(s);
    }
    if s.len() == 0 {
        seq![]
    } else if white_space(s.first()) {
        word_list(s.drop_first())
    } else {
        let n = word_len(s);
        seq![s.take(n as int)] + word_list(s.skip(n as int))
    }
}

/// The first word of a text, with white space or nothing after it, and the
/// words of the rest.
pub proof fn lemma_word_list_step(w: Seq<char>, rest: Seq<char>)
    requires
        w.len() > 0,
        forall|i: int| 0 <= i < w.len() ==> !white_space(#[trigger] w[i]),
        rest.len() == 0 || white_space(rest.first()),
    ensures
        word_list(w + rest) == seq![w] + word_list(rest),
{
    let s = w + rest;
    lemma_word_len_is(s, w.len() as int);
    assert(s.first() == w[0]);
    assert(s.take(w.len() as int) == w);
    assert(s.skip(w.len() as int) == rest);
}

/// Splits a text into its words.
pub fn words(s: &[char]) -> (r: Vec<&[char]>)
    ensures
        views(r@) == word_list(s@),
{
    let mut r: Vec<&[char]> = Vec::new();
    let mut from: usize = 0;
    assert(s@.skip(0) == s@);
    assert(views(r@) + word_list(s@) == word_list(s@));
    while from < s.len()
        invariant
            from <= s.len(),
            views(r@) + word_list(s@.skip(from as int)) == word_list(s@),
        decreases s.len() - from,
    {
        let ghost rest = s@.skip(from as int);
        if is_white_space(s[from]) {
            assert(rest.drop_first() == s@.skip(from + 1));
            from = from + 1;
        } else {
            let mut to: usize = from;
            while to < s.len() && !is_white_space(s[to])
                invariant
                    from <= to <= s.len(),
                    forall|k: int| from <= k < to ==> !white_space(s@[k]),
                decreases s.len() - to,
            {
                to = to + 1;
            }
            let ghost before = r@;
            proof {
                lemma_word_len_is(rest, to - from);
                assert(rest.take(to - from) == s@.subrange(from as int, to as int));
                assert(rest.skip(to - from) == s@.skip(to as int));
                assert(rest.first() == s@[from as int]);
            }
            r.push(slice_subrange(s, from, to));
            assert(views(r@) == views(before).push(rest.take(to - from)));
            assert(views(before) + word_list(rest) == views(r@) + word_list(s@.skip(to as int)));
            from = to;
        }
    }
    assert(s@.skip(from as int) == Seq::<char>::empty());
    r
}

// ---------------------------------------------------------------- letters
/// `c` with an ASCII capital made small; every other character as it is.
pub open spec fn ascii_small(c: char) -> char {
    if 'A' <= c <= 'Z' {
        (c as u32 + 32) as char
    } else {
        c
    }
}

/// `s` with its ASCII capitals made small.
pub open spec fn ascii_lowered(s: Seq<char>) -> Seq<char> {
    Seq::new(s.len(), |i: int| ascii_small(s[i]))
}

/// Makes the ASCII capitals small.
pub fn ascii_lower(s: &[char]) -> (r: Vec<char>)
    ensures
        r@ == ascii_lowered(s@),
{
    let mut r: Vec<char> = Vec::new();
    let mut i: usize = 0;
    while i < s.len()
        invariant
            i <= s.len(),
            r@ == ascii_lowered(s@).take(i as int),
        decreases s.len() - i,
    {
        let c = s[i];
        if 'A' <= c && c <= 'Z' {
            r.push((c as u8 + 32) as char);
        } else {
            r.push(c);
        }
        i = i + 1;
    }
    assert(ascii_lowered(s@).take(i as int) == ascii_lowered(s@));
    r
}

/// The digits and letters of hexadecimal, in either case.
pub open spec fn hex_digit(c: char) -> bool {
    '0' <= c <= '9' || 'a' <= c <= 'f' || 'A' <= c <= 'F'
}

/// Whether a character is a hexadecimal digit.
pub fn is_hex_digit(c: char) -> (r: bool)
    ensures
        r == hex_digit(c),
{
    ('0' <= c && c <= '9') || ('a' <= c && c <= 'f') || ('A' <= c && c <= 'F')
}

// ---------------------------------------------------------------- numbers
/// The character of a decimal digit.
pub open spec fn digit(n: nat) -> char
    recommends
        n < 10,
{
    (48 + n) as char
}

/// A number in decimal, without leading zeros.
pub open spec fn decimal(n: nat) -> Seq<char>
    decreases n,
{
    if n < 10 {
        seq![digit(n)]
    } else {
        decimal(n / 10).push(digit(n % 10))
    }
}

/// Appends a number in decimal.
pub fn push_decimal(s: &mut String, n: u64)
    ensures
        final(s)@ == old(s)@ + decimal(n as nat),
    decreases n,
{
    if n >= 10 {
        push_decimal(s, n / 10);
    }
    s.push((48 + (n % 10) as u8) as char);
}

/// Whether every character is a decimal digit.
pub open spec fn all_digits(s: Seq<char>) -> bool {
    forall|i: int| 0 <= i < s.len() ==> '0' <= #[trigger] s[i] <= '9'
}

/// The number that a run of decimal digits names.
pub open spec fn digits_value(s: Seq<char>) -> nat
    decreases s.len(),
{
    if s.len() == 0 {
        0
    } else {
        digits_value(s.drop_last()) * 10 + (s.last() as nat - 48) as nat
    }
}

/// `s` without one plus sign at its front.
pub open spec fn without_plus(s: Seq<char>) -> Seq<char> {
    if s.len() > 0 && s.first() == '+' {
        s.drop_first()
    } else {
        s
    }
}

/// The unsigned 64-bit number a text spells: digits, with a plus sign before
/// them or not, and nothing else. A number too large for 64 bits is none.
pub open spec fn number_in(s: Seq<char>) -> Option<u64> {
    let d = without_plus(s);
    if d.len() > 0 && all_digits(d) && digits_value(d) <= u64::MAX {
        Some(digits_value(d) as u64)
    } else {
        None
    }
}

/// A run of digits is worth no less than any front part of it.
proof fn lemma_digits_value_grows(s: Seq<char>, k: int)
    requires
        0 <= k <= s.len(),
    ensures
        digits_value(s.take(k)) <= digits_value(s),
    decreases s.len() - k,
{
    if k < s.len() {
        lemma_digits_value_grows(s, k + 1);
        assert(s.take(k + 1).drop_last() == s.take(k));
    } else {
        assert(s.take(k) == s);
    }
}

/// Reads an unsigned 64-bit number.
pub fn parse_u64(s: &[char]) -> (r: Option<u64>)
    ensures
        r == number_in(s@),
{
    let d = if s.len() > 0 && s[0] == '+' {
        assert(s@.drop_first() == s@.subrange(1, s@.len() as int));
        slice_subrange(s, 1, s.len())
    } else {
        s
    };
    assert(d@ == without_plus(s@));
    if d.len() == 0 {
        return None;
    }
    let mut v: u64 = 0;
    let mut i: usize = 0;
    while i < d.len()
        invariant
            i <= d.len(),
            d@ == without_plus(s@),
            all_digits(d@.take(i as int)),
            v == digits_value(d@.take(i as int)),
        decreases d.len() - i,
    {
        let c = d[i];
        if !('0' <= c && c <= '9') {
            assert(!all_digits(d@)) by {
                assert(d@[i as int] == c);
            }
            return None;
        }
        let x: u64 = (c as u8 - 48) as u64;
        proof {
            assert(d@.take(i + 1).drop_last() == d@.take(i as int));
            assert(digits_value(d@.take(i + 1)) == v * 10 + x);
            lemma_digits_value_grows(d@, i + 1);
        }
        if v > u64::MAX / 10 {
            return None;
        }
        let tens: u64 = v * 10;
        if tens > u64::MAX - x {
            return None;
        }
        v = tens + x;
        i = i + 1;
    }
    assert(d@.take(i as int) == d@);
    Some(v)
}

// ------------------------------------------------------------------ lists
/// The strings of a list, as sequences of characters.
pub open spec fn texts(v: Seq<String>) -> Seq<Seq<char>> {
    Seq::new(v.len(), |i: int| v[i]@)
}

/// Copies a list of strings.
pub fn copy_list(v: &Vec<String>) -> (r: Vec<String>)
    ensures
        texts(r@) == texts(v@),
{
    let mut r: Vec<String> = Vec::new();
    let mut i: usize = 0;
    while i < v.len()
        invariant
            i <= v.len(),
            texts(r@) == texts(v@).take(i as int),
        decreases v.len() - i,
    {
        let ghost before = texts(r@);
        r.push(v[i].clone());
        assert(texts(r@) == before.push(v@[i as int]@));
        i = i + 1;
    }
    assert(texts(v@).take(i as int) == texts(v@));
    r
}

/// A list with `sep` between its items.
pub open spec fn joined(v: Seq<Seq<char>>, sep: Seq<char>) -> Seq<char>
    decreases v.len(),
{
    if v.len() == 0 {
        seq![]
    } else if v.len() == 1 {
        v[0]
    } else {
        joined(v.drop_last(), sep) + sep + v.last()
    }
}

/// Joins a list with `sep` between its items.
pub fn join(v: &Vec<String>, sep: &str) -> (r: String)
    ensures
        r@ == joined(texts(v@), sep@),
{
    let mut r = String::new();
    let mut i: usize = 0;
    while i < v.len()
        invariant
            i <= v.len(),
            r@ == joined(texts(v@).take(i as int), sep@),
        decreases v.len() - i,
    {
        if i > 0 {
            r.append(sep);
        }
        r.append(v[i].as_str());
        assert(texts(v@).take(i + 1).drop_last() == texts(v@).take(i as int));
        i = i + 1;
    }
    assert(texts(v@).take(i as int) == texts(v@));
    r
}

/// `n` spaces.
pub open spec fn spaces(n: int) -> Seq<char> {
    Seq::new(if n > 0 { n as nat } else { 0 }, |i: int| ' ')
}

/// `s` at the left of a column of `width` characters; a longer text as it is.
pub open spec fn at_left(s: Seq<char>, width: int) -> Seq<char> {
    s + spaces(width - s.len())
}

/// `s` at the right of a column of `width` characters; a longer text as it is.
pub open spec fn at_right(s: Seq<char>, width: int) -> Seq<char> {
    spaces(width - s.len()) + s
}

/// Appends the spaces that bring `used` characters up to `width`.
pub fn push_spaces(s: &mut String, used: usize, width: usize)
    ensures
        final(s)@ == old(s)@ + spaces(width - used),
{
    let mut i: usize = used;
    while i < width
        invariant
            used <= i,
            i <= width || i == used,
            s@ == old(s)@ + spaces(i - used),
        decreases width - i,
    {
        s.push(' ');
        assert(spaces(i + 1 - used) == spaces(i - used).push(' '));
        i = i + 1;
    }
    if used >= width {
        assert(spaces(width - used) == spaces(0));
    }
}

/// Appends a text at the left of a column.
pub fn push_at_left(s: &mut String, t: &str, width: usize)
    ensures
        final(s)@ == old(s)@ + at_left(t@, width as int),
{
    s.append(t);
    push_spaces(s, t.unicode_len(), width);
    assert(s@ == old(s)@ + at_left(t@, width as int));
}

/// Appends a text at the right of a column.
pub fn push_at_right(s: &mut String, t: &str, width: usize)
    ensures
        final(s)@ == old(s)@ + at_right(t@, width as int),
{
    push_spaces(s, t.unicode_len(), width);
    s.append(t);
    assert(s@ == old(s)@ + at_right(t@, width as int));
}

// -------------------------------------------------------------------- laws
/// White space round a text is taken off it, and nothing else.
pub proof fn law_white_space_round_a_text_is_taken_off(a: Seq<char>, t: Seq<char>, b: Seq<char>)
    requires
        forall|i: int| 0 <= i < a.len() ==> white_space(#[trigger] a[i]),
        forall|i: int| 0 <= i < b.len() ==> white_space(#[trigger] b[i]),
        t.len() > 0 ==> !white_space(t.first()) && !white_space(t.last()),
    ensures
        trimmed(a + t + b) == t,
    decreases a.len() + b.len(),
{
    let s = a + t + b;
    if a.len() > 0 {
        assert(white_space(a[0]));
        assert(s.first() == a[0]);
        assert(s.drop_first() == a.drop_first() + t + b);
        assert forall|i: int| 0 <= i < a.drop_first().len() implies white_space(
            #[trigger] a.drop_first()[i],
        ) by {
            assert(a.drop_first()[i] == a[i + 1]);
        }
        law_white_space_round_a_text_is_taken_off(a.drop_first(), t, b);
    } else {
        assert(s == t + b);
        if t.len() > 0 {
            assert(s.first() == t.first());
            lemma_trimmed_end_of(t, b);
        } else {
            assert(s == b);
            lemma_trimmed_start_all(b);
        }
    }
}

proof fn lemma_trimmed_start_all(b: Seq<char>)
    requires
        forall|i: int| 0 <= i < b.len() ==> white_space(#[trigger] b[i]),
    ensures
        trimmed_start(b) == Seq::<char>::empty(),
    decreases b.len(),
{
    if b.len() > 0 {
        assert(white_space(b[0]));
        assert forall|i: int| 0 <= i < b.drop_first().len() implies white_space(
            #[trigger] b.drop_first()[i],
        ) by {
            assert(b.drop_first()[i] == b[i + 1]);
        }
        lemma_trimmed_start_all(b.drop_first());
    }
}

proof fn lemma_trimmed_end_of(t: Seq<char>, b: Seq<char>)
    requires
        forall|i: int| 0 <= i < b.len() ==> white_space(#[trigger] b[i]),
        t.len() > 0,
        !white_space(t.last()),
    ensures
        trimmed_end(t + b) == t,
    decreases b.len(),
{
    let s = t + b;
    if b.len() == 0 {
        assert(s == t);
    } else {
        assert(white_space(b[b.len() - 1]));
        assert(s.last() == b.last());
        assert(s.drop_last() == t + b.drop_last());
        assert forall|i: int| 0 <= i < b.drop_last().len() implies white_space(
            #[trigger] b.drop_last()[i],
        ) by {
            assert(b.drop_last()[i] == b[i]);
        }
        lemma_trimmed_end_of(t, b.drop_last());
    }
}

proof fn lemma_decimal_value(n: nat)
    ensures
        decimal(n).len() > 0,
        all_digits(decimal(n)),
        digits_value(decimal(n)) == n,
    decreases n,
{
    if n < 10 {
        let d = decimal(n);
        assert(d.drop_last() == Seq::<char>::empty());
        assert(digits_value(d.drop_last()) == 0);
        assert(d.last() as nat == 48 + n);
    } else {
        lemma_decimal_value(n / 10);
        let d = decimal(n);
        assert(d.drop_last() == decimal(n / 10));
        assert(d.last() as nat == 48 + n % 10);
        assert(n == (n / 10) * 10 + n % 10);
    }
}

/// A number that is written reads back, with a plus sign before it or not.
pub proof fn law_a_number_reads_back(n: u64)
    ensures
        number_in(decimal(n as nat)) == Some(n),
        number_in(seq!['+'] + decimal(n as nat)) == Some(n),
{
    let d = decimal(n as nat);
    lemma_decimal_value(n as nat);
    assert('0' <= d[0] <= '9');
    assert((seq!['+'] + d).drop_first() == d);
}

/// Only digits spell a number, with one plus sign before them or not, and a
/// digit more is worth ten times what was there and itself.
pub proof fn law_only_digits_spell_a_number(s: Seq<char>)
    ensures
        number_in(s) is Some ==> s.len() > 0 && s.last() != '+' && forall|i: int|
            0 <= i < s.len() ==> '0' <= #[trigger] s[i] <= '9' || (i == 0 && s[i] == '+'),
        s.len() > 1 && number_in(s) is Some && s.drop_last() != seq!['+'] ==> {
            &&& number_in(s.drop_last()) is Some
            &&& number_in(s)->0 == number_in(s.drop_last())->0 * 10 + (s.last() as int - 48)
        },
{
    let d = without_plus(s);
    if number_in(s) is Some {
        assert('0' <= d[d.len() - 1] <= '9');
        assert(s.last() == d.last());
        assert forall|i: int| 0 <= i < s.len() implies '0' <= #[trigger] s[i] <= '9' || (i == 0
            && s[i] == '+') by {
            if s.first() == '+' && i > 0 {
                assert(s[i] == d[i - 1]);
            } else if s.first() != '+' {
                assert(s[i] == d[i]);
            }
        }
        if s.len() > 1 && s.drop_last() != seq!['+'] {
            let f = s.drop_last();
            assert(f.first() == s.first());
            assert(without_plus(f) == d.drop_last());
            if s.first() == '+' && s.len() == 2 {
                assert(f == seq!['+']);
            }
            assert forall|i: int| 0 <= i < d.drop_last().len() implies '0'
                <= #[trigger] d.drop_last()[i] <= '9' by {
                assert(d.drop_last()[i] == d[i]);
            }
        }
    }
}

/// A text is a first line, a line feed and the lines of the rest; a carriage
/// return before the line feed is part of neither. A text without a line feed is
/// one line as it is.
pub proof fn law_the_lines_of_a_text(a: Seq<char>, rest: Seq<char>)
    requires
        !a.contains('\n'),
    ensures
        line_list(a + seq!['\n'] + rest) == seq![
            if a.len() > 0 && a.last() == '\r' {
                a.drop_last()
            } else {
                a
            },
        ] + line_list(rest),
        line_list(a) == if a.len() == 0 {
            Seq::<Seq<char>>::empty()
        } else {
            seq![a]
        },
{
    lemma_line_list_step(a, rest);
    lemma_upto(a, '\n');
    if a.len() > 0 {
        let n = upto(a, '\n') as int;
        if n < a.len() {
            assert(a.contains(a[n]));
        }
    }
}

/// White space before a text does not change its words; a run of other
/// characters before white space, or before the end, is its first word.
pub proof fn law_the_words_of_a_text(w: Seq<char>, c: char, rest: Seq<char>)
    requires
        w.len() > 0,
        forall|i: int| 0 <= i < w.len() ==> !white_space(#[trigger] w[i]),
        white_space(c),
    ensures
        word_list(seq![c] + rest) == word_list(rest),
        word_list(w + (seq![c] + rest)) == seq![w] + word_list(rest),
        word_list(w) == seq![w],
{
    assert((seq![c] + rest).drop_first() == rest);
    lemma_word_list_step(w, seq![c] + rest);
    lemma_word_list_step(w, Seq::empty());
    assert(w + Seq::<char>::empty() == w);
    assert(word_list(Seq::<char>::empty()) == Seq::<Seq<char>>::empty());
    assert(seq![w] + Seq::<Seq<char>>::empty() == seq![w]);
}

/// A text is split at the first place where another stands in it: before that,
/// and across it, the other does not stand.
pub proof fn law_a_text_is_split_at_the_first_place(s: Seq<char>, p: Seq<char>)
    ensures
        match split_at_text(s, p) {
            Some((a, b)) => s == a + p + b && forall|j: int|
                0 <= j < a.len() ==> (#[trigger] s.skip(j)).take(p.len() as int) != p,
            None => forall|j: int|
                0 <= j && j + p.len() <= s.len() ==> (#[trigger] s.skip(j)).take(p.len() as int)
                    != p,
        },
{
    lemma_position_from(s, p, 0);
    assert forall|j: int| 0 <= j && j + p.len() <= s.len() implies (#[trigger] s.skip(j)).take(
        p.len() as int,
    ) == s.subrange(j, j + p.len()) by {
        assert(s.skip(j).take(p.len() as int) == s.subrange(j, j + p.len()));
    }
    match position_from(s, p, 0) {
        Some(k) => {
            let a = s.take(k);
            let b = s.skip(k + p.len());
            assert(s == a + s.subrange(k, k + p.len()) + b);
            assert forall|j: int| 0 <= j < a.len() implies (#[trigger] s.skip(j)).take(
                p.len() as int,
            ) != p by {
                assert(!occurs_at(s, p, j));
            }
        },
        None => {
            assert forall|j: int| 0 <= j && j + p.len() <= s.len() implies (
            #[trigger] s.skip(j)).take(p.len() as int) != p by {
                assert(!occurs_at(s, p, j));
            }
        },
    }
}

/// A text is split at the first of a character.
pub proof fn law_a_text_is_split_at_the_first_of_a_character(a: Seq<char>, c: char, b: Seq<char>)
    requires
        !a.contains(c),
    ensures
        split_at_char(a + seq![c] + b, c) == Some((a, b)),
        split_at_char(a, c) is None,
{
    lemma_split_at_char(a, c, b);
    lemma_upto(a, c);
    let n = upto(a, c) as int;
    if n < a.len() {
        assert(a.contains(a[n]));
    }
}

/// A text in a column keeps every character, and spaces fill the column where it
/// is shorter: after it on the left of the column, before it on the right.
pub proof fn law_a_column_keeps_its_text(s: Seq<char>, width: int)
    ensures
        at_left(s, width).take(s.len() as int) == s,
        at_right(s, width).skip(at_right(s, width).len() - s.len()) == s,
        s.len() <= width ==> at_left(s, width).len() == width && at_right(s, width).len() == width,
        s.len() >= width ==> at_left(s, width) == s && at_right(s, width) == s,
        forall|i: int|
            s.len() <= i < at_left(s, width).len() ==> #[trigger] at_left(s, width)[i] == ' ',
        forall|i: int|
            0 <= i < width - s.len() ==> #[trigger] at_right(s, width)[i] == ' ',
{
    if s.len() >= width {
        assert(spaces(width - s.len()) == Seq::<char>::empty());
        assert(s + Seq::<char>::empty() == s);
        assert(Seq::<char>::empty() + s == s);
    }
    let n = at_right(s, width).len() - s.len();
    assert(at_right(s, width).skip(n) == s);
}

/// Joining puts the separator between the items, and nothing before or after.
pub proof fn law_joining_puts_the_separator_between(
    v: Seq<Seq<char>>,
    x: Seq<char>,
    sep: Seq<char>,
)
    ensures
        joined(Seq::empty(), sep) == Seq::<char>::empty(),
        joined(seq![x], sep) == x,
        v.len() > 0 ==> joined(v.push(x), sep) == joined(v, sep) + sep + x,
{
    assert(v.push(x).drop_last() == v);
}

/// Only the letters `A` to `Z` are made small, each into its own.
pub proof fn law_only_capital_letters_are_made_small(s: Seq<char>, i: int)
    requires
        0 <= i < s.len(),
    ensures
        ascii_lowered(s).len() == s.len(),
        'A' <= s[i] <= 'Z' ==> ascii_lowered(s)[i] as int == s[i] as int + 32,
        !('A' <= s[i] <= 'Z') ==> ascii_lowered(s)[i] == s[i],
{
}

/// A text that was split is the first part, the character and the second part,
/// and the character is not in the first part; one that was not split does not
/// hold the character.
pub proof fn law_what_is_split_is_all_there(s: Seq<char>, c: char)
    ensures
        match split_at_char(s, c) {
            Some((a, b)) => s == a + seq![c] + b && !a.contains(c),
            None => !s.contains(c),
        },
{
    lemma_upto(s, c);
    let n = upto(s, c) as int;
    if n < s.len() {
        assert(s == s.take(n) + seq![c] + s.skip(n + 1));
        assert forall|i: int| 0 <= i < n implies s.take(n)[i] != c by {
            assert(s[i] != c);
        }
    }
}

/// A text is split where another stands in it, when what is before that does not
/// hold the other's first character.
pub proof fn law_a_text_is_split_where_another_stands(a: Seq<char>, p: Seq<char>, b: Seq<char>)
    requires
        p.len() > 0,
        !a.contains(p[0]),
    ensures
        split_at_text(a + p + b, p) == Some((a, b)),
{
    let s = a + p + b;
    let n = a.len() as int;
    law_a_text_is_split_at_the_first_place(s, p);
    assert(s.skip(n).take(p.len() as int) == p);
    if let Some((x, y)) = split_at_text(s, p) {
        let k = x.len() as int;
        if k < n {
            assert(s[k] == (x + p + y)[k]);
            assert(s[k] == p[0]);
            assert(a.contains(a[k]));
        }
        if n < k {
            assert(s.skip(n).take(p.len() as int) != p);
        }
        assert(x == s.take(k) && a == s.take(n));
        assert(y == s.skip(k + p.len()));
        assert(b == s.skip(n + p.len()));
    }
}

/// The characters that are white space are the 25 that Unicode counts as such.
pub proof fn law_which_characters_are_white_space(c: char)
    ensures
        white_space(c) <==> c == '\t' || c == '\n' || c == '\r' || c == ' ' || c == '\u{b}' || c
            == '\u{c}' || c == '\u{85}' || c == '\u{a0}' || c == '\u{1680}' || c == '\u{2000}' || c
            == '\u{2001}' || c == '\u{2002}' || c == '\u{2003}' || c == '\u{2004}' || c
            == '\u{2005}' || c == '\u{2006}' || c == '\u{2007}' || c == '\u{2008}' || c
            == '\u{2009}' || c == '\u{200a}' || c == '\u{2028}' || c == '\u{2029}' || c
            == '\u{202f}' || c == '\u{205f}' || c == '\u{3000}',
{
}

/// A digit more makes a number ten times as large and that digit more, whatever
/// zeros stand before it; a number too large for 64 bits is none.
pub proof fn law_a_digit_more(s: Seq<char>, c: char)
    requires
        number_in(s) is Some,
        '0' <= c <= '9',
    ensures
        ({
            let n = number_in(s)->0 * 10 + (c as int - 48);
            &&& n <= u64::MAX ==> number_in(s.push(c)) is Some && number_in(s.push(c))->0 == n
            &&& n > u64::MAX ==> number_in(s.push(c)) is None
        }),
{
    let d = without_plus(s);
    let e = without_plus(s.push(c));
    assert(s.len() > 0);
    assert(s.push(c).first() == s.first());
    assert(e == d.push(c));
    assert(e.drop_last() == d);
    assert forall|i: int| 0 <= i < e.len() implies '0' <= #[trigger] e[i] <= '9' by {
        if i < d.len() {
            assert(e[i] == d[i]);
        }
    }
}

/// A number is written without zeros before it.
pub proof fn law_a_number_has_no_zeros_before_it(n: nat)
    ensures
        decimal(n).len() > 0,
        decimal(n).len() > 1 ==> decimal(n)[0] != '0',
        n == 0 ==> decimal(n) == seq!['0'],
        n > 0 ==> decimal(n)[0] != '0',
    decreases n,
{
    if n >= 10 {
        law_a_number_has_no_zeros_before_it(n / 10);
        assert(decimal(n)[0] == decimal(n / 10)[0]);
    }
}

} // verus!
