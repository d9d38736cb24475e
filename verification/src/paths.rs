//! Directory paths as text, with `/` between the components.
use crate::text::{chars_of, same_text, texts};
use vstd::prelude::*;

verus! {

/// A path cut at every `/`.
pub open spec fn pieces(path: Seq<char>) -> Seq<Seq<char>>
    decreases path.len(),
{
    if path.len() == 0 {
        seq![Seq::empty()]
    } else {
        let p = pieces(path.drop_last());
        if path.last() == '/' {
            p.push(Seq::empty())
        } else {
            p.update(p.len() - 1, p.last().push(path.last()))
        }
    }
}

/// Whether a piece names a component: empty pieces and single dots do not.
pub open spec fn names_component(piece: Seq<char>) -> bool {
    piece.len() > 0 && piece != seq!['.']
}

/// Those of a list of pieces that name a component.
pub open spec fn named(p: Seq<Seq<char>>) -> Seq<Seq<char>>
    decreases p.len(),
{
    if p.len() == 0 {
        Seq::empty()
    } else if names_component(p.last()) {
        named(p.drop_last()).push(p.last())
    } else {
        named(p.drop_last())
    }
}

/// Whether a path starts at the root.
pub open spec fn rooted(path: Seq<char>) -> bool {
    path.len() > 0 && path[0] == '/'
}

/// Whether a path starts with a single dot as its first component.
pub open spec fn starts_here(path: Seq<char>) -> bool {
    path.len() > 0 && path[0] == '.' && (path.len() == 1 || path[1] == '/')
}

/// Whether two paths have the same components: repeated and trailing separators do not count, nor
/// do single dots but for one at the very beginning.
pub open spec fn equal_paths(a: Seq<char>, b: Seq<char>) -> bool {
    &&& rooted(a) == rooted(b)
    &&& starts_here(a) == starts_here(b)
    &&& named(pieces(a)) == named(pieces(b))
}

/// Whether `path` is `base` or lies below it.
pub open spec fn covers(base: Seq<char>, path: Seq<char>) -> bool {
    path == base || (path.len() > base.len() && path.take((base.len() + 1) as int) == base.push('/'))
}

proof fn lemma_pieces_nonempty(path: Seq<char>)
    ensures
        pieces(path).len() > 0,
    decreases path.len(),
{
    if path.len() > 0 {
        lemma_pieces_nonempty(path.drop_last());
    }
}

/// Appends a piece if it names a component.
fn keep_named(done: &mut Vec<String>, piece: String)
    ensures
        texts(final(done)@) == if names_component(piece@) {
            texts(old(done)@).push(piece@)
        } else {
            texts(old(done)@)
        },
{
    proof {
        reveal_strlit(".");
        assert("."@ =~= seq!['.']);
    }
    if !piece.as_str().is_empty() && !same_text(piece.as_str(), ".") {
        let ghost before = done@;
        done.push(piece);
        assert(texts(done@) =~= texts(before).push(piece@));
    }
}

/// The components of a path that have a name.
fn component_names(v: &Vec<char>) -> (r: Vec<String>)
    ensures
        texts(r@) == named(pieces(v@)),
{
    let mut done: Vec<String> = Vec::new();
    let mut cur = String::new();
    assert(texts(done@) =~= named(pieces(v@.take(0)).drop_last()));
    for i in 0..v.len()
        invariant
            texts(done@) == named(pieces(v@.take(i as int)).drop_last()),
            cur@ == pieces(v@.take(i as int)).last(),
            pieces(v@.take(i as int)).len() > 0,
    {
        let ghost p = pieces(v@.take(i as int));
        let ghost q = pieces(v@.take(i + 1));
        assert(v@.take(i + 1).drop_last() =~= v@.take(i as int));
        if v[i] == '/' {
            assert(q.drop_last() =~= p);
            keep_named(&mut done, cur);
            cur = String::new();
        } else {
            assert(q.drop_last() =~= p.drop_last());
            cur.push(v[i]);
        }
    }
    assert(v@.take(v@.len() as int) =~= v@);
    keep_named(&mut done, cur);
    done
}

/// Whether two lists hold the same texts.
fn same_lists(a: &Vec<String>, b: &Vec<String>) -> (r: bool)
    ensures
        r == (texts(a@) == texts(b@)),
{
    if a.len() != b.len() {
        assert(texts(a@).len() != texts(b@).len());
        return false;
    }
    for i in 0..a.len()
        invariant
            a@.len() == b@.len(),
            forall|j: int| 0 <= j < i ==> (#[trigger] a@[j])@ == b@[j]@,
    {
        if !same_text(a[i].as_str(), b[i].as_str()) {
            assert(texts(a@)[i as int] != texts(b@)[i as int]);
            return false;
        }
    }
    assert(texts(a@) =~= texts(b@));
    true
}

/// Whether two paths have the same components.
pub fn same_path(a: &str, b: &str) -> (r: bool)
    ensures
        r == equal_paths(a@, b@),
{
    let x = chars_of(a);
    let y = chars_of(b);
    let x_rooted = x.len() > 0 && x[0] == '/';
    let y_rooted = y.len() > 0 && y[0] == '/';
    let x_here = x.len() > 0 && x[0] == '.' && (x.len() == 1 || x[1] == '/');
    let y_here = y.len() > 0 && y[0] == '.' && (y.len() == 1 || y[1] == '/');
    x_rooted == y_rooted && x_here == y_here && same_lists(
        &component_names(&x),
        &component_names(&y),
    )
}

/// Whether `path` is `base` or lies below it.
pub fn is_covered(base: &str, path: &str) -> (r: bool)
    ensures
        r == covers(base@, path@),
{
    let b = chars_of(base);
    let p = chars_of(path);
    if p.len() < b.len() {
        return false;
    }
    for i in 0..b.len()
        invariant
            b@ == base@,
            p@ == path@,
            b@.len() <= p@.len(),
            forall|j: int| 0 <= j < i ==> b@[j] == p@[j],
    {
        if b[i] != p[i] {
            assert(path@.len() > base@.len() ==> path@.take((base@.len() + 1) as int)[i as int]
                != base@.push('/')[i as int]);
            return false;
        }
    }
    if p.len() == b.len() {
        assert(path@ =~= base@);
        true
    } else if p[b.len()] == '/' {
        assert(path@.take((base@.len() + 1) as int) =~= base@.push('/'));
        true
    } else {
        assert(path@.take((base@.len() + 1) as int)[base@.len() as int] != base@.push('/')[base@.len() as int]);
        false
    }
}

/// A path covers itself; of two paths that cover the same path the longer is covered by the
/// shorter.
pub proof fn law_covers(a: Seq<char>, b: Seq<char>, path: Seq<char>)
    requires
        covers(a, path),
        covers(b, path),
        a.len() <= b.len(),
    ensures
        covers(a, a),
        covers(a, b),
        a.len() == b.len() ==> a == b,
{
    assert forall|i: int| 0 <= i < a.len() implies a[i] == path[i] by {
        if path != a {
            assert(path.take((a.len() + 1) as int)[i] == a.push('/')[i]);
        }
    }
    assert forall|i: int| 0 <= i < b.len() implies b[i] == path[i] by {
        if path != b {
            assert(path.take((b.len() + 1) as int)[i] == b.push('/')[i]);
        }
    }
    if a.len() == b.len() {
        assert(a =~= b);
    } else {
        assert(path != a);
        assert(path.take((a.len() + 1) as int)[a.len() as int] == '/');
        assert(b.take((a.len() + 1) as int) =~= a.push('/'));
    }
}

/// A directory covers what lies below it, however deep, but neither what only begins like it nor what
/// lies above it.
pub proof fn law_covering(base: Seq<char>, c: char, rest: Seq<char>)
    ensures
        covers(base, base + seq!['/'] + rest),
        c != '/' ==> !covers(base, base + seq![c] + rest),
        rest.len() > 0 ==> !covers(base + rest, base),
{
    let p = base + seq!['/'] + rest;
    assert(p.take((base.len() + 1) as int) =~= base.push('/'));
    let q = base + seq![c] + rest;
    if c != '/' {
        assert(q.take((base.len() + 1) as int)[base.len() as int] == c);
        assert(base.push('/')[base.len() as int] == '/');
        assert(q.len() > base.len());
    }
}

/// Paths are the same where only separators are repeated or trail; they differ where their last
/// components do, and where only one of them starts at the root or with a single dot.
pub proof fn law_equal_paths(a: Seq<char>, x: Seq<char>, y: Seq<char>)
    requires
        a.len() > 0,
        x.len() > 0,
        y.len() > 0,
        x != seq!['.'],
        y != seq!['.'],
        forall|i: int| 0 <= i < x.len() ==> (#[trigger] x[i]) != '/',
        forall|i: int| 0 <= i < y.len() ==> (#[trigger] y[i]) != '/',
    ensures
        equal_paths(a, a),
        equal_paths(a, a + seq!['/']),
        equal_paths(a + seq!['/'] + x, a + seq!['/', '/'] + x),
        equal_paths(a + seq!['/'] + x, a + seq!['/'] + y) <==> x == y,
        !equal_paths(seq!['/'] + x, x),
        !equal_paths(seq!['.', '/'] + x, x),
{
    assert((seq!['/'] + x)[0] == '/');
    assert((seq!['.', '/'] + x)[0] == '.' && (seq!['.', '/'] + x)[1] == '/');
    assert(!starts_here(x)) by {
        if x.len() == 1 && x[0] == '.' {
            assert(x =~= seq!['.']);
        }
    }
    let e = Seq::<char>::empty();
    let slash = seq!['/'];
    lemma_pieces_joined(a, e);
    lemma_pieces_joined(a, x);
    lemma_pieces_joined(a, y);
    lemma_pieces_joined(a + slash, x);
    assert(a + slash + e =~= a + slash);
    assert(a + slash + slash + x =~= a + seq!['/', '/'] + x);
    let p = pieces(a);
    assert(p.push(e).drop_last() =~= p);
    assert(p.push(x).drop_last() =~= p);
    assert(p.push(y).drop_last() =~= p);
    assert(p.push(e).push(x).drop_last() =~= p.push(e));
    assert(named(p.push(x)) == named(p).push(x));
    assert(named(p.push(y)) == named(p).push(y));
    assert(named(p).push(x).last() == x);
    assert(named(p).push(y).last() == y);
    assert(a.len() == 1 ==> (a + slash)[1] == '/');
}

proof fn lemma_pieces_joined(a: Seq<char>, x: Seq<char>)
    requires
        forall|i: int| 0 <= i < x.len() ==> (#[trigger] x[i]) != '/',
    ensures
        pieces(a + seq!['/'] + x) == pieces(a).push(x),
    decreases x.len(),
{
    let all = a + seq!['/'] + x;
    if x.len() > 0 {
        assert(x[x.len() - 1] != '/');
        let t = x.drop_last();
        assert forall|i: int| 0 <= i < t.len() implies (#[trigger] t[i]) != '/' by {
            assert(t[i] == x[i]);
        }
        lemma_pieces_joined(a, t);
        assert(all.drop_last() =~= a + seq!['/'] + t);
        assert(t.push(x.last()) =~= x);
        assert(pieces(all) =~= pieces(a).push(x));
    } else {
        assert(all.drop_last() =~= a);
        assert(x =~= Seq::<char>::empty());
    }
}

} // verus!
