//! Names, in order, and the paths made of them.

use vstd::prelude::*;
use vstd::seq_lib::*;
use vstd::slice::slice_subrange;

use crate::text;

verus! {

// ------------------------------------------------------------------ order
/// Whether `a` comes before `b`: character by character, and a front part
/// before the whole.
pub open spec fn precedes(a: Seq<char>, b: Seq<char>) -> bool
    decreases a.len(),
{
    if b.len() == 0 {
        false
    } else if a.len() == 0 {
        true
    } else if a.first() == b.first() {
        precedes(a.drop_first(), b.drop_first())
    } else {
        a.first() < b.first()
    }
}

/// Whether a list of names is in order.
pub open spec fn in_order(v: Seq<Seq<char>>) -> bool {
    forall|i: int, j: int| 0 <= i < j < v.len() ==> !precedes(#[trigger] v[j], #[trigger] v[i])
}

/// Whether `a` comes before `b`.
pub fn comes_before(a: &[char], b: &[char]) -> (r: bool)
    ensures
        r == precedes(a@, b@),
{
    let mut i: usize = 0;
    assert(a@.skip(0) == a@ && b@.skip(0) == b@);
    while i < a.len() && i < b.len() && a[i] == b[i]
        invariant
            i <= a.len(),
            i <= b.len(),
            precedes(a@, b@) == precedes(a@.skip(i as int), b@.skip(i as int)),
        decreases a.len() - i,
    {
        assert(a@.skip(i as int).drop_first() == a@.skip(i + 1));
        assert(b@.skip(i as int).drop_first() == b@.skip(i + 1));
        i = i + 1;
    }
    if i >= b.len() {
        false
    } else if i >= a.len() {
        true
    } else {
        assert(a@.skip(i as int).first() == a@[i as int]);
        assert(b@.skip(i as int).first() == b@[i as int]);
        a[i] < b[i]
    }
}

/// Of two names that both come before the other, there are none.
pub proof fn lemma_precedes_one_way(a: Seq<char>, b: Seq<char>)
    ensures
        !(precedes(a, b) && precedes(b, a)),
    decreases a.len(),
{
    if a.len() > 0 && b.len() > 0 && a.first() == b.first() {
        lemma_precedes_one_way(a.drop_first(), b.drop_first());
    }
}

/// What comes before `b` comes before everything that `b` does not follow.
proof fn lemma_precedes_carries(a: Seq<char>, b: Seq<char>, c: Seq<char>)
    requires
        precedes(a, b),
        !precedes(c, b),
    ensures
        precedes(a, c),
    decreases a.len(),
{
    if a.len() > 0 && b.len() > 0 && c.len() > 0 {
        if a.first() == b.first() && b.first() == c.first() {
            lemma_precedes_carries(a.drop_first(), b.drop_first(), c.drop_first());
        }
    }
}

/// Two names neither of which comes before the other are the same name.
proof fn lemma_precedes_total(a: Seq<char>, b: Seq<char>)
    requires
        !precedes(a, b),
        !precedes(b, a),
    ensures
        a == b,
    decreases a.len(),
{
    if a.len() > 0 && b.len() > 0 {
        lemma_precedes_total(a.drop_first(), b.drop_first());
        assert(a == seq![a.first()] + a.drop_first());
        assert(b == seq![b.first()] + b.drop_first());
    }
}

/// Of two texts, the front parts of the same length decide which comes before
/// the other, and the rest does where those are the same.
pub proof fn lemma_precedes_front(u: Seq<char>, v: Seq<char>, x: Seq<char>, y: Seq<char>)
    requires
        u.len() == x.len(),
    ensures
        precedes(u, x) ==> precedes(u + v, x + y),
        u == x && precedes(v, y) ==> precedes(u + v, x + y),
    decreases u.len(),
{
    if u.len() == 0 {
        assert(u + v == v);
        assert(x + y == y);
    } else {
        assert((u + v).first() == u.first());
        assert((x + y).first() == x.first());
        assert((u + v).drop_first() == u.drop_first() + v);
        assert((x + y).drop_first() == x.drop_first() + y);
        lemma_precedes_front(u.drop_first(), v, x.drop_first(), y);
    }
}

/// A list of names can be put in order in one way only: two lists in order that
/// hold the same names are the same list.
pub proof fn law_names_have_one_order(a: Seq<Seq<char>>, b: Seq<Seq<char>>)
    requires
        in_order(a),
        in_order(b),
        a.to_multiset() == b.to_multiset(),
    ensures
        a == b,
{
    let leq = |x: Seq<char>, y: Seq<char>| !precedes(y, x);
    assert forall|x: Seq<char>| #[trigger] leq(x, x) by {
        if precedes(x, x) {
            lemma_precedes_one_way(x, x);
        }
    }
    assert forall|x: Seq<char>, y: Seq<char>| #[trigger] leq(x, y) && #[trigger] leq(y, x) implies x
        == y by {
        lemma_precedes_total(x, y);
    }
    assert forall|x: Seq<char>, y: Seq<char>, z: Seq<char>|
        #[trigger] leq(x, y) && #[trigger] leq(y, z) implies leq(x, z) by {
        if precedes(z, x) {
            if precedes(x, y) {
                lemma_precedes_carries(z, x, y);
            } else {
                lemma_precedes_total(x, y);
            }
        }
    }
    assert forall|x: Seq<char>, y: Seq<char>| #[trigger] leq(x, y) || #[trigger] leq(y, x) by {
        if precedes(y, x) {
            lemma_precedes_one_way(y, x);
        }
    }
    assert forall|i: int, j: int| 0 <= i < j < a.len() implies #[trigger] leq(a[i], a[j]) by {}
    assert forall|i: int, j: int| 0 <= i < j < b.len() implies #[trigger] leq(b[i], b[j]) by {}
    vstd::seq_lib::lemma_sorted_unique(a, b, leq);
}

/// Puts names in order.
pub fn sort(v: &Vec<String>) -> (r: Vec<String>)
    ensures
        in_order(text::texts(r@)),
        text::texts(r@).to_multiset() == text::texts(v@).to_multiset(),
{
    let mut r: Vec<String> = Vec::new();
    let mut i: usize = 0;
    assert(text::texts(r@) == text::texts(v@).take(0));
    while i < v.len()
        invariant
            i <= v.len(),
            in_order(text::texts(r@)),
            text::texts(r@).to_multiset() == text::texts(v@).take(i as int).to_multiset(),
        decreases v.len() - i,
    {
        let x = text::chars_of(v[i].as_str());
        let mut k: usize = 0;
        while k < r.len() && !comes_before(x.as_slice(), text::chars_of(r[k].as_str()).as_slice())
            invariant
                k <= r.len(),
                forall|j: int| 0 <= j < k ==> !precedes(x@, #[trigger] text::texts(r@)[j]),
            decreases r.len() - k,
        {
            k = k + 1;
        }
        let ghost before = text::texts(r@);
        proof {
            assert forall|j: int| k <= j < before.len() implies !precedes(
                #[trigger] before[j],
                x@,
            ) by {
                if j > k {
                    lemma_precedes_carries(x@, before[k as int], before[j]);
                }
                lemma_precedes_one_way(x@, before[j]);
            }
            broadcast use to_multiset_insert;
            broadcast use to_multiset_build;

            assert(text::texts(v@).take(i + 1) == text::texts(v@).take(i as int).push(x@));
        }
        r.insert(k, v[i].clone());
        assert(text::texts(r@) == before.insert(k as int, x@));
        i = i + 1;
    }
    assert(text::texts(v@).take(i as int) == text::texts(v@));
    r
}

// ------------------------------------------------------------------ paths
/// The pieces of `s` between the occurrences of `c`.
pub open spec fn piece_list(s: Seq<char>, c: char) -> Seq<Seq<char>>
    decreases s.len(),
{
    let n = text::upto(s, c);
    if n >= s.len() {
        seq![s]
    } else {
        seq![s.take(n as int)] + piece_list(s.skip(n as int + 1), c)
    }
}

/// Splits a text at every `c`.
pub fn pieces(s: &[char], c: char) -> (r: Vec<&[char]>)
    ensures
        text::views(r@) == piece_list(s@, c),
{
    let mut r: Vec<&[char]> = Vec::new();
    let mut from: usize = 0;
    assert(s@.skip(0) == s@);
    assert(text::views(r@) + piece_list(s@, c) == piece_list(s@, c));
    loop
        invariant
            from <= s.len(),
            text::views(r@) + piece_list(s@.skip(from as int), c) == piece_list(s@, c),
        decreases s.len() - from,
    {
        let rest = slice_subrange(s, from, s.len());
        assert(rest@ == s@.skip(from as int));
        let n: usize = text::count_upto(rest, c);
        let ghost before = r@;
        proof {
            text::lemma_upto(rest@, c);
        }
        if n >= rest.len() {
            r.push(rest);
            assert(text::views(r@) == text::views(before) + seq![rest@]);
            return r;
        }
        let piece = slice_subrange(rest, 0, n);
        assert(piece@ == rest@.take(n as int));
        r.push(piece);
        assert(text::views(r@) == text::views(before).push(piece@));
        assert(rest@.skip(n + 1) == s@.skip(from + n + 1));
        assert(text::views(before) + piece_list(rest@, c) == text::views(r@) + piece_list(rest@.skip(n + 1), c));
        from = from + n + 1;
    }
}

/// `name` in the directory `base`.
pub open spec fn path_in(base: Seq<char>, name: Seq<char>) -> Seq<char> {
    if name.len() > 0 && name.first() == '/' {
        name
    } else if base.len() == 0 || base.last() == '/' {
        base + name
    } else {
        base + seq!['/'] + name
    }
}

/// Puts a name in a directory.
pub fn join_path(base: &str, name: &str) -> (r: String)
    ensures
        r@ == path_in(base@, name@),
{
    let n = text::chars_of(name);
    if n.len() > 0 && n[0] == '/' {
        return text::text_of(n.as_slice());
    }
    let b = text::chars_of(base);
    let mut r = text::text_of(b.as_slice());
    if b.len() > 0 && b[b.len() - 1] != '/' {
        r.push('/');
        r.append(name);
        assert(r@ == base@ + seq!['/'] + name@);
    } else {
        r.append(name);
    }
    r
}

/// Whether a piece of a path names something: not nothing, and not `.`.
pub open spec fn names_something(piece: Seq<char>) -> bool {
    piece.len() > 0 && piece != seq!['.']
}

/// The last piece that names something.
pub open spec fn last_named(pieces: Seq<Seq<char>>) -> Option<Seq<char>>
    decreases pieces.len(),
{
    if pieces.len() == 0 {
        None
    } else if names_something(pieces.last()) {
        Some(pieces.last())
    } else {
        last_named(pieces.drop_last())
    }
}

/// The name at the end of a path, when it ends in one: a path that ends in
/// `..` does not.
pub open spec fn name_at_end(path: Seq<char>) -> Option<Seq<char>> {
    match last_named(piece_list(path, '/')) {
        Some(p) => if p == seq!['.', '.'] {
            None
        } else {
            Some(p)
        },
        None => None,
    }
}

/// The name at the end of a path.
pub fn file_name(path: &[char]) -> (r: Option<&[char]>)
    ensures
        match r {
            Some(n) => name_at_end(path@) == Some(n@),
            None => name_at_end(path@) is None,
        },
{
    let p = pieces(path, '/');
    let mut i: usize = p.len();
    let ghost all = text::views(p@);
    assert(all.take(i as int) == all);
    while i > 0
        invariant
            i <= p.len(),
            all == text::views(p@),
            all == piece_list(path@, '/'),
            last_named(all) == last_named(all.take(i as int)),
        decreases i,
    {
        let q = p[i - 1];
        assert(all.take(i as int).last() == q@);
        if q.len() > 0 && !(q.len() == 1 && q[0] == '.') {
            assert(names_something(q@));
            if q.len() == 2 && q[0] == '.' && q[1] == '.' {
                assert(q@ == seq!['.', '.']);
                return None;
            }
            return Some(q);
        }
        assert(q.len() > 0 ==> q@ == seq!['.']);
        assert(all.take(i as int).drop_last() == all.take(i - 1));
        i = i - 1;
    }
    None
}

/// A path without the separators, and the `/.`, at its end.
pub open spec fn bare(d: Seq<char>) -> Seq<char>
    decreases d.len(),
{
    if d.len() > 0 && d.last() == '/' {
        bare(d.drop_last())
    } else if d.len() > 1 && d.last() == '.' && d[d.len() - 2] == '/' {
        bare(d.take(d.len() - 2))
    } else {
        d
    }
}

/// How much of a path comes before what follows its last separator, the
/// separator included.
pub open spec fn name_start(path: Seq<char>) -> nat
    decreases path.len(),
{
    if path.len() == 0 || path.last() == '/' {
        path.len()
    } else {
        name_start(path.drop_last())
    }
}

/// The path with another name in place of the one at its end. A path that does
/// not end in a name gets the name added to it.
pub open spec fn path_beside(path: Seq<char>, name: Seq<char>) -> Seq<char> {
    if name_at_end(path) is None {
        path_in(path, name)
    } else {
        let whole = bare(path);
        let n = name_start(whole) as int;
        let d = bare(whole.take(n));
        if n > 0 && d.len() == 0 {
            path_in(seq!['/'], name)
        } else {
            path_in(d, name)
        }
    }
}

/// How much of a path is left without the separators, and the `/.`, at its end.
fn bare_len(p: &[char]) -> (r: usize)
    ensures
        r <= p@.len(),
        bare(p@) == p@.take(r as int),
{
    let mut d: usize = p.len();
    assert(p@.take(d as int) == p@);
    while d > 0 && (p[d - 1] == '/' || (d > 1 && p[d - 1] == '.' && p[d - 2] == '/'))
        invariant
            d <= p.len(),
            bare(p@) == bare(p@.take(d as int)),
        decreases d,
    {
        assert(p@.take(d as int).last() == p@[d - 1]);
        if p[d - 1] == '/' {
            assert(p@.take(d as int).drop_last() == p@.take(d - 1));
            d = d - 1;
        } else {
            assert(p@.take(d as int)[d - 2] == p@[d - 2]);
            assert(p@.take(d as int).take(d - 2) == p@.take(d - 2));
            d = d - 2;
        }
    }
    proof {
        let t = p@.take(d as int);
        assert(d > 0 ==> t.last() == p@[d - 1]);
        assert(d > 1 ==> t[d - 2] == p@[d - 2]);
        assert(bare(t) == t);
    }
    d
}

/// How much of a path comes before what follows its last separator.
fn count_name_start(p: &[char]) -> (r: usize)
    ensures
        r <= p@.len(),
        r == name_start(p@),
{
    let mut n: usize = p.len();
    assert(p@.take(n as int) == p@);
    while n > 0 && p[n - 1] != '/'
        invariant
            n <= p.len(),
            name_start(p@) == name_start(p@.take(n as int)),
        decreases n,
    {
        assert(p@.take(n as int).last() == p@[n - 1]);
        assert(p@.take(n as int).drop_last() == p@.take(n - 1));
        n = n - 1;
    }
    assert(n > 0 ==> p@.take(n as int).last() == p@[n - 1]);
    n
}

/// Puts another name in place of the one at the end of a path.
pub fn beside(path: &str, name: &str) -> (r: String)
    ensures
        r@ == path_beside(path@, name@),
{
    let p = text::chars_of(path);
    if file_name(p.as_slice()).is_none() {
        return join_path(path, name);
    }
    let whole = slice_subrange(p.as_slice(), 0, bare_len(p.as_slice()));
    assert(whole@ == bare(p@));
    let n: usize = count_name_start(whole);
    let before = slice_subrange(whole, 0, n);
    assert(before@ == whole@.take(n as int));
    let d: usize = bare_len(before);
    if n > 0 && d == 0 {
        let mut root = String::new();
        root.push('/');
        assert(root@ == seq!['/']);
        return join_path(root.as_str(), name);
    }
    let base = slice_subrange(before, 0, d);
    assert(base@ == bare(before@));
    join_path(text::text_of(base).as_str(), name)
}

// -------------------------------------------------------------------- laws
/// One text comes before another where they first differ: by the smaller
/// character there, or because it ends there.
pub proof fn law_the_first_difference_decides(a: Seq<char>, b: Seq<char>, k: int)
    requires
        0 <= k <= a.len(),
        k <= b.len(),
        a.take(k) == b.take(k),
        k < a.len() && k < b.len() ==> a[k] != b[k],
    ensures
        k < a.len() && k < b.len() ==> precedes(a, b) == (a[k] < b[k]),
        k == a.len() ==> precedes(a, b) == (k < b.len()),
        k == b.len() ==> !precedes(a, b),
    decreases k,
{
    if k > 0 {
        assert(a.first() == a.take(k)[0]);
        assert(b.first() == b.take(k)[0]);
        assert(a.drop_first().take(k - 1) == a.take(k).drop_first());
        assert(b.drop_first().take(k - 1) == b.take(k).drop_first());
        law_the_first_difference_decides(a.drop_first(), b.drop_first(), k - 1);
    }
}

/// Whether a text can be the name of something in a directory.
pub open spec fn plain(name: Seq<char>) -> bool {
    name.len() > 0 && !name.contains('/') && name != seq!['.'] && name != seq!['.', '.']
}

/// A name in a directory stands after it, with one separator between; a path
/// from the root stands on its own.
pub proof fn law_a_name_in_a_directory(dir: Seq<char>, name: Seq<char>)
    ensures
        name.len() > 0 && name[0] == '/' ==> path_in(dir, name) == name,
        !(name.len() > 0 && name[0] == '/') && dir.len() > 0 && dir.last() != '/' ==> path_in(
            dir,
            name,
        ) == dir + seq!['/'] + name,
        !(name.len() > 0 && name[0] == '/') && dir.len() > 0 && dir.last() == '/' ==> path_in(
            dir,
            name,
        ) == dir + name,
        !(name.len() > 0 && name[0] == '/') && dir.len() == 0 ==> path_in(dir, name) == name,
{
    if dir.len() == 0 {
        assert(dir + name == name);
    }
}

/// The pieces of two texts with the separator between them are those of the one
/// and then those of the other.
pub proof fn law_pieces_of_two(a: Seq<char>, c: char, b: Seq<char>)
    ensures
        piece_list(a + seq![c] + b, c) == piece_list(a, c) + piece_list(b, c),
        !a.contains(c) ==> piece_list(a, c) == seq![a],
    decreases a.len(),
{
    let s = a + seq![c] + b;
    let n = text::upto(a, c) as int;
    text::lemma_upto(a, c);
    if n >= a.len() {
        assert(!a.contains(c)) by {
            if a.contains(c) {
                let i = choose|i: int| 0 <= i < a.len() && a[i] == c;
                assert(a[i] != c);
            }
        }
        text::lemma_split_at_char(a, c, b);
        assert(s.take(n) == a);
        assert(s.skip(n + 1) == b);
    } else {
        let front = a.take(n);
        let rest = a.skip(n + 1);
        assert(a.contains(a[n]));
        assert(!front.contains(c)) by {
            if front.contains(c) {
                let i = choose|i: int| 0 <= i < front.len() && front[i] == c;
                assert(a[i] != c);
            }
        }
        assert(s == front + seq![c] + (rest + seq![c] + b));
        text::lemma_split_at_char(front, c, rest + seq![c] + b);
        assert(s.take(n) == front);
        assert(s.skip(n + 1) == rest + seq![c] + b);
        law_pieces_of_two(rest, c, b);
        assert(seq![front] + (piece_list(rest, c) + piece_list(b, c)) == seq![front] + piece_list(
            rest,
            c,
        ) + piece_list(b, c));
    }
}

proof fn lemma_last_named(v: Seq<Seq<char>>, p: Seq<char>)
    requires
        names_something(p),
    ensures
        last_named(v + seq![p]) == Some(p),
        last_named(v + seq![p] + seq![Seq::<char>::empty()]) == Some(p),
{
    let w = v + seq![p];
    assert(w.last() == p);
    let x = w + seq![Seq::<char>::empty()];
    assert(x.last() == Seq::<char>::empty());
    assert(x.drop_last() == w);
}

/// The name at the end of a path is what follows the last separator, with or
/// without one more separator after it.
pub proof fn law_the_name_at_the_end_of_a_path(dir: Seq<char>, name: Seq<char>)
    requires
        plain(name),
    ensures
        name_at_end(name) == Some(name),
        name_at_end(dir + seq!['/'] + name) == Some(name),
        name_at_end(dir + seq!['/'] + name + seq!['/']) == Some(name),
{
    let none = Seq::<char>::empty();
    law_pieces_of_two(name, '/', none);
    law_pieces_of_two(dir, '/', name);
    law_pieces_of_two(dir + seq!['/'] + name, '/', none);
    assert(dir + seq!['/'] + name + seq!['/'] + none == dir + seq!['/'] + name + seq!['/']);
    assert(!none.contains('/'));
    law_pieces_of_two(none, '/', none);
    let v = piece_list(dir, '/');
    lemma_last_named(v, name);
    lemma_last_named(Seq::empty(), name);
    assert(Seq::<Seq<char>>::empty() + seq![name] == seq![name]);
}

proof fn lemma_name_start(a: Seq<char>, b: Seq<char>)
    requires
        !b.contains('/'),
        a.len() > 0 ==> a.last() == '/',
    ensures
        name_start(a + b) == a.len(),
    decreases b.len(),
{
    let s = a + b;
    if b.len() == 0 {
        assert(s == a);
    } else {
        assert(b.contains(b.last()));
        assert(s.last() == b.last());
        assert(s.drop_last() == a + b.drop_last());
        assert(!b.drop_last().contains('/')) by {
            if b.drop_last().contains('/') {
                let i = choose|i: int| 0 <= i < b.drop_last().len() && b.drop_last()[i] == '/';
                assert(b[i] == '/');
            }
        }
        lemma_name_start(a, b.drop_last());
    }
}

/// Putting another name in place of the one at the end of a path leaves the
/// directory as it is.
pub proof fn law_the_directory_stays(dir: Seq<char>, file: Seq<char>, name: Seq<char>)
    requires
        plain(file),
        plain(name),
        dir.len() > 0,
        dir.last() != '/',
        !(dir.len() > 1 && dir.last() == '.' && dir[dir.len() - 2] == '/'),
    ensures
        path_beside(dir + seq!['/'] + file, name) == dir + seq!['/'] + name,
        path_beside(seq!['/'] + file, name) == seq!['/'] + name,
        path_beside(file, name) == name,
{
    let none = Seq::<char>::empty();
    law_the_name_at_the_end_of_a_path(dir, file);
    law_the_name_at_the_end_of_a_path(none, file);
    assert(none + seq!['/'] + file == seq!['/'] + file);
    assert(file.contains(file.last()));
    assert(name.contains(name[0]));
    let full = dir + seq!['/'] + file;
    assert(full.last() == file.last());
    assert(file.len() == 1 ==> file == seq![file.last()]);
    if file.len() > 1 {
        assert(file.contains(file[file.len() - 2]));
        assert(full[full.len() - 2] == file[file.len() - 2]);
    }
    assert(bare(full) == full);
    lemma_name_start(dir + seq!['/'], file);
    assert(full.take(dir.len() as int + 1) == dir + seq!['/']);
    assert((dir + seq!['/']).drop_last() == dir);
    assert(bare(dir) == dir);
    assert(bare(dir + seq!['/']) == dir);
    let rooted = seq!['/'] + file;
    assert(rooted.last() == file.last());
    if file.len() > 1 {
        assert(rooted[rooted.len() - 2] == file[file.len() - 2]);
    }
    assert(bare(rooted) == rooted);
    lemma_name_start(seq!['/'], file);
    assert(rooted.take(1) == seq!['/']);
    assert(seq!['/'].drop_last() == none);
    assert(bare(none) == none);
    let root: Seq<char> = seq!['/'];
    assert(root.last() == '/' && root.drop_last() == none);
    assert(bare(root) == none);
    assert(bare(file) == file);
    lemma_name_start(none, file);
    assert(none + file == file);
    assert(file.take(0) == none);
    assert(none + name == name);
}

/// Separators at the end of a path, and a `.` after one, change nothing of the
/// name at its end; a path that ends in `..` has none, and neither has an empty
/// one or that of the root.
pub proof fn law_what_does_not_name_anything(p: Seq<char>)
    ensures
        name_at_end(p + seq!['/']) == name_at_end(p),
        name_at_end(p + seq!['/'] + seq!['.']) == name_at_end(p),
        name_at_end(p + seq!['/'] + seq!['.', '.']) is None,
        name_at_end(seq!['.', '.']) is None,
        name_at_end(seq!['.']) is None,
        name_at_end(seq![]) is None,
        name_at_end(seq!['/']) is None,
{
    let none = Seq::<char>::empty();
    let dot: Seq<char> = seq!['.'];
    let up: Seq<char> = seq!['.', '.'];
    let v = piece_list(p, '/');
    assert(!none.contains('/'));
    assert(!dot.contains('/'));
    assert(!up.contains('/'));
    law_pieces_of_two(p, '/', none);
    law_pieces_of_two(p, '/', dot);
    law_pieces_of_two(p, '/', up);
    law_pieces_of_two(none, '/', none);
    law_pieces_of_two(dot, '/', none);
    law_pieces_of_two(up, '/', none);
    assert(p + seq!['/'] + none == p + seq!['/']);
    let root: Seq<char> = seq!['/'];
    assert(none + root + none == root);
    let nothing = Seq::<Seq<char>>::empty();
    assert((v + seq![none]).drop_last() == v && (v + seq![none]).last() == none);
    assert((v + seq![dot]).drop_last() == v && (v + seq![dot]).last() == dot);
    assert((v + seq![up]).last() == up);
    assert(up.len() == 2 && dot.len() == 1);
    let one_up: Seq<Seq<char>> = seq![up];
    let one_dot: Seq<Seq<char>> = seq![dot];
    let one_none: Seq<Seq<char>> = seq![none];
    assert(one_up.last() == up);
    assert(one_dot.last() == dot && one_dot.drop_last() == nothing);
    assert(one_none.last() == none && one_none.drop_last() == nothing);
    let two = one_none + one_none;
    assert(two.last() == none && two.drop_last() == one_none);
    assert(last_named(nothing) is None);
    assert(last_named(one_none) is None);
    assert(last_named(one_dot) is None);
}

/// A path that does not end in a name gets the other name added to it; and what
/// stands at the end of one that does, separators or a `.` after one, is not
/// kept.
pub proof fn law_what_is_put_beside_a_path(p: Seq<char>, name: Seq<char>)
    ensures
        name_at_end(p) is None ==> path_beside(p, name) == path_in(p, name),
        name_at_end(p) is Some ==> path_beside(p + seq!['/'], name) == path_beside(p, name),
        name_at_end(p) is Some ==> path_beside(p + seq!['/'] + seq!['.'], name) == path_beside(
            p,
            name,
        ),
{
    law_what_does_not_name_anything(p);
    let q = p + seq!['/'];
    let r = q + seq!['.'];
    assert(q.last() == '/' && q.drop_last() == p);
    assert(r.last() == '.' && r[r.len() - 2] == '/' && r.take(r.len() - 2) == p);
    assert(bare(q) == bare(p));
    assert(bare(r) == bare(p));
}

/// More separators than one before the name at the end of a path count as one.
pub proof fn law_separators_before_a_name_count_once(
    dir: Seq<char>,
    file: Seq<char>,
    name: Seq<char>,
)
    requires
        plain(file),
    ensures
        path_beside(dir + seq!['/'] + seq!['/'] + file, name) == path_beside(
            dir + seq!['/'] + file,
            name,
        ),
{
    let a = dir + seq!['/'];
    let b = a + seq!['/'];
    law_the_name_at_the_end_of_a_path(dir, file);
    law_the_name_at_the_end_of_a_path(a, file);
    lemma_plain_is_bare(a, file);
    lemma_plain_is_bare(b, file);
    lemma_name_start(a, file);
    lemma_name_start(b, file);
    assert((a + file).take(a.len() as int) == a);
    assert((b + file).take(b.len() as int) == b);
    assert(b.last() == '/' && b.drop_last() == a);
    assert(bare(b) == bare(a));
}

proof fn lemma_plain_is_bare(a: Seq<char>, file: Seq<char>)
    requires
        plain(file),
    ensures
        bare(a + file) == a + file,
{
    let s = a + file;
    assert(file.contains(file.last()));
    assert(s.last() == file.last());
    if s.len() > 1 && s.last() == '.' && s[s.len() - 2] == '/' {
        if file.len() == 1 {
            assert(file == seq!['.']);
        } else {
            assert(file[file.len() - 2] == s[s.len() - 2]);
            assert(file.contains(file[file.len() - 2]));
        }
    }
}

} // verus!
