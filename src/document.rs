//! The settings document: a tree of containers and leaves addressed by
//! paths of segments, such as `settings` / `oci-defaults` / `capabilities`.
//! Only leaves and containers added on their own are stored; a container
//! exists as long as something is stored at or beneath it.
use vstd::prelude::*;

use crate::error::{DocumentError, PathState, TreeError, ValueKind};
use crate::text::push_char;
use crate::values::{accepts, validation_error_fits, ModeledValue, RawValue, ValueView};

verus! {

/// The segments of a path, as character sequences.
pub open spec fn path_view(p: Seq<String>) -> Seq<Seq<char>> {
    p.map_values(|s: String| s@)
}

/// The segments of a path written out with a `.` between each two.
pub open spec fn dotted(p: Seq<Seq<char>>) -> Seq<char>
    decreases p.len(),
{
    if p.len() == 0 {
        Seq::empty()
    } else if p.len() == 1 {
        p[0]
    } else {
        dotted(p.drop_last()) + seq!['.'] + p.last()
    }
}

pub open spec fn no_dot(s: Seq<char>) -> bool {
    forall|i: int| 0 <= i < s.len() ==> s[i] != '.'
}

/// Whether `p` is `q` or one of its ancestors.
pub open spec fn is_prefix(p: Seq<Seq<char>>, q: Seq<Seq<char>>) -> bool {
    p.len() <= q.len() && q.take(p.len() as int) == p
}

pub enum NodeView {
    Container,
    Leaf(ValueView),
}

/// What a document stores: each leaf with its value, and each container
/// that was added on its own. The containers above a stored path are
/// implied by it and are not stored; the root (the empty path) is never
/// stored.
pub type Tree = Map<Seq<Seq<char>>, NodeView>;

/// The container/leaf rule: nothing is stored beneath a leaf.
pub open spec fn well_shaped(m: Tree) -> bool {
    &&& !m.contains_key(Seq::<Seq<char>>::empty())
    &&& forall|q: Seq<Seq<char>>, k: int|
        #![trigger m.contains_key(q), q.take(k)]
        m.contains_key(q) && 0 < k < q.len() ==> !is_leaf_at(m, q.take(k))
}

pub open spec fn is_leaf_at(m: Tree, p: Seq<Seq<char>>) -> bool {
    m.contains_key(p) && m[p] is Leaf
}

/// Whether the path `q` exists: it is stored, or something is stored
/// beneath it.
pub open spec fn in_tree(m: Tree, q: Seq<Seq<char>>) -> bool {
    q.len() > 0 && exists|k: Seq<Seq<char>>| #[trigger] m.contains_key(k) && is_prefix(q, k)
}

pub open spec fn is_container_at(m: Tree, p: Seq<Seq<char>>) -> bool {
    in_tree(m, p) && !is_leaf_at(m, p)
}

/// What the path `q` is in `m`.
pub open spec fn state_at(m: Tree, q: Seq<Seq<char>>) -> PathState {
    if !in_tree(m, q) {
        PathState::Absent
    } else if is_leaf_at(m, q) {
        PathState::Leaf
    } else {
        PathState::Container
    }
}

/// Whether one of the first `n` nonempty prefixes of `p` is a leaf.
pub open spec fn leaf_among(m: Tree, p: Seq<Seq<char>>, n: int) -> bool {
    exists|k: int| 1 <= k <= n && #[trigger] is_leaf_at(m, p.take(k))
}

/// Whether `e` reports a leaf found at a nonempty prefix of `p` (one of
/// the first `n`), where a container was needed.
pub open spec fn reports_leaf_on(m: Tree, p: Seq<Seq<char>>, n: int, e: TreeError) -> bool {
    match e {
        TreeError::UnexpectedState { path, expected, actual } => {
            &&& expected == PathState::Container
            &&& actual == PathState::Leaf
            &&& 1 <= path@.len() <= n
            &&& path_view(path@) == p.take(path@.len() as int)
            &&& is_leaf_at(m, path_view(path@))
        },
        _ => false,
    }
}

/// Whether `e` truly describes why the leaf `p` cannot be set in `m`: `p`
/// is the root, an ancestor of `p` is a leaf, or `p` is a container.
pub open spec fn set_error_fits(m: Tree, p: Seq<Seq<char>>, e: TreeError) -> bool {
    ||| (p.len() == 0 && e is RootPath)
    ||| (p.len() > 0 && reports_leaf_on(m, p, p.len() - 1, e))
    ||| (e matches TreeError::UnexpectedState { path: at, expected, actual } && path_view(at@) == p && expected
        == PathState::Leaf && actual == PathState::Container && is_container_at(m, p))
}

/// `m` without `p` and everything beneath it.
pub open spec fn without_subtree(m: Tree, p: Seq<Seq<char>>) -> Tree {
    Map::new(|q: Seq<Seq<char>>| m.contains_key(q) && !is_prefix(p, q), |q: Seq<Seq<char>>| m[q])
}

/// What adding the container `p` to `m` gives: `p` is stored unless it
/// already exists (or is the root). `None` where `p` or one of its
/// ancestors is a leaf.
pub open spec fn add_container_outcome(m: Tree, p: Seq<Seq<char>>) -> Option<Tree> {
    if leaf_among(m, p, p.len() as int) {
        None
    } else if p.len() == 0 || in_tree(m, p) {
        Some(m)
    } else {
        Some(m.insert(p, NodeView::Container))
    }
}

/// What setting the leaf `p` to `v` in `m` gives, replacing any earlier
/// value. `None` where `p` is the root, an ancestor of `p` is a leaf, or
/// `p` is a container.
pub open spec fn set_value_outcome(m: Tree, p: Seq<Seq<char>>, v: ValueView) -> Option<Tree> {
    if p.len() == 0 || leaf_among(m, p, p.len() - 1) || is_container_at(m, p) {
        None
    } else {
        Some(m.insert(p, NodeView::Leaf(v)))
    }
}

proof fn lemma_take_take(q: Seq<Seq<char>>, a: int, b: int)
    requires
        0 <= a <= b <= q.len(),
    ensures
        q.take(b).take(a) == q.take(a),
{
    assert(q.take(b).take(a) =~= q.take(a));
}

/// Removing a subtree keeps a tree well shaped.
pub proof fn lemma_without_subtree_shape(m: Tree, p: Seq<Seq<char>>)
    requires
        well_shaped(m),
    ensures
        well_shaped(without_subtree(m, p)),
{
    let r = without_subtree(m, p);
    assert forall|q: Seq<Seq<char>>, k: int|
        #![trigger r.contains_key(q), q.take(k)]
        r.contains_key(q) && 0 < k < q.len() implies !is_leaf_at(r, q.take(k)) by {
        assert(m.contains_key(q));
    }
}

/// `q`, which lies at or beneath `from`, as it lies beneath `to`.
pub open spec fn relocate(q: Seq<Seq<char>>, from: Seq<Seq<char>>, to: Seq<Seq<char>>) -> Seq<Seq<char>> {
    to + q.skip(from.len() as int)
}

/// `m` with everything at or beneath `from` moved to `to`, every value
/// kept.
pub open spec fn moved_subtree(m: Tree, from: Seq<Seq<char>>, to: Seq<Seq<char>>) -> Tree {
    Map::new(
        |q: Seq<Seq<char>>|
            (m.contains_key(q) && !is_prefix(from, q)) || (is_prefix(to, q) && m.contains_key(relocate(q, to, from))),
        |q: Seq<Seq<char>>| if is_prefix(to, q) { m[relocate(q, to, from)] } else { m[q] },
    )
}

/// What renaming `from` to `to` in `m` gives: the subtree moves. `None`
/// where `from` does not exist, `to` is the root or exists, `to` lies
/// beneath `from`, or an ancestor of `to` is a leaf.
pub open spec fn rename_outcome(m: Tree, from: Seq<Seq<char>>, to: Seq<Seq<char>>) -> Option<Tree> {
    if !in_tree(m, from) || to.len() == 0 || in_tree(m, to) || is_prefix(from, to) || leaf_among(
        m,
        to,
        to.len() - 1,
    ) {
        None
    } else {
        Some(moved_subtree(m, from, to))
    }
}

/// Whether `e` truly describes why renaming `from` to `to` in `m` cannot
/// be done.
pub open spec fn rename_error_fits(m: Tree, from: Seq<Seq<char>>, to: Seq<Seq<char>>, e: TreeError) -> bool {
    match e {
        TreeError::Missing { path } => path_view(path@) == from && !in_tree(m, from),
        TreeError::RootPath => to.len() == 0,
        TreeError::IntoOwnSubtree { from: f, to: t } => path_view(f@) == from && path_view(t@) == to
            && is_prefix(from, to),
        TreeError::UnexpectedState { path, expected, actual } => {
            ||| (path_view(path@) == to && expected == PathState::Absent && actual == state_at(m, to)
                && actual != PathState::Absent)
            ||| (to.len() > 0 && reports_leaf_on(m, to, to.len() - 1, e))
        },
    }
}

proof fn lemma_relocate(q: Seq<Seq<char>>, from: Seq<Seq<char>>, to: Seq<Seq<char>>)
    requires
        is_prefix(from, q),
    ensures
        is_prefix(to, relocate(q, from, to)),
        relocate(relocate(q, from, to), to, from) == q,
        relocate(q, from, to).len() == to.len() + q.len() - from.len(),
{
    let r = relocate(q, from, to);
    assert(r.take(to.len() as int) =~= to);
    assert(r.skip(to.len() as int) =~= q.skip(from.len() as int));
    assert(from + q.skip(from.len() as int) =~= q);
}

/// Where nothing in `m` lies at or beneath `to`, adding one entry to `m`
/// adds one entry, moved or not, to the result of moving.
proof fn lemma_moved_insert(m: Tree, k: Seq<Seq<char>>, v: NodeView, from: Seq<Seq<char>>, to: Seq<Seq<char>>)
    requires
        forall|q: Seq<Seq<char>>| #[trigger] m.contains_key(q) ==> !is_prefix(to, q),
        !is_prefix(to, k),
        !m.contains_key(k),
        !is_prefix(to, from),
    ensures
        is_prefix(from, k) ==> !moved_subtree(m, from, to).contains_key(relocate(k, from, to))
            && moved_subtree(m.insert(k, v), from, to) == moved_subtree(m, from, to).insert(relocate(k, from, to), v),
        !is_prefix(from, k) ==> !moved_subtree(m, from, to).contains_key(k)
            && moved_subtree(m.insert(k, v), from, to) == moved_subtree(m, from, to).insert(k, v),
{
    let a = moved_subtree(m.insert(k, v), from, to);
    let b = moved_subtree(m, from, to);
    if is_prefix(from, k) {
        let nk = relocate(k, from, to);
        lemma_relocate(k, from, to);
        assert(!(b.contains_key(nk))) by {
            assert(!m.contains_key(nk));
        }
        assert forall|q: Seq<Seq<char>>| #[trigger] a.contains_key(q) == b.insert(nk, v).contains_key(q) by {
            if is_prefix(to, q) && relocate(q, to, from) == k {
                assert(q.take(to.len() as int) == to);
                assert(q =~= nk) by {
                    assert(q =~= to + q.skip(to.len() as int));
                    assert(k.skip(from.len() as int) =~= q.skip(to.len() as int));
                }
            }
        }
        assert forall|q: Seq<Seq<char>>| #[trigger] a.contains_key(q) implies a[q] == b.insert(nk, v)[q] by {
            if q == nk {
            } else if is_prefix(to, q) {
                if relocate(q, to, from) == k {
                    assert(q =~= to + q.skip(to.len() as int));
                    assert(k.skip(from.len() as int) =~= q.skip(to.len() as int));
                    assert(q =~= nk);
                }
            }
        }
        assert(a =~= b.insert(nk, v));
    } else {
        assert(!b.contains_key(k));
        assert forall|q: Seq<Seq<char>>| #[trigger] a.contains_key(q) == b.insert(k, v).contains_key(q) by {
            if is_prefix(to, q) && relocate(q, to, from) == k {
                assert(k.take(from.len() as int) =~= from);
            }
        }
        assert forall|q: Seq<Seq<char>>| #[trigger] a.contains_key(q) implies a[q] == b.insert(k, v)[q] by {
            if is_prefix(to, q) && relocate(q, to, from) == k {
                assert(k.take(from.len() as int) =~= from);
            }
        }
        assert(a =~= b.insert(k, v));
    }
}

/// Moving a subtree to a free place that meets no leaf keeps a tree well
/// shaped.
proof fn lemma_moved_shape(m: Tree, from: Seq<Seq<char>>, to: Seq<Seq<char>>)
    requires
        well_shaped(m),
        from.len() >= 1,
        to.len() >= 1,
        !leaf_among(m, to, to.len() - 1),
        forall|q: Seq<Seq<char>>| #[trigger] m.contains_key(q) ==> !is_prefix(to, q),
    ensures
        well_shaped(moved_subtree(m, from, to)),
{
    let r = moved_subtree(m, from, to);
    assert(!r.contains_key(Seq::<Seq<char>>::empty()));
    assert forall|q: Seq<Seq<char>>, k: int|
        #![trigger r.contains_key(q), q.take(k)]
        r.contains_key(q) && 0 < k < q.len() implies !is_leaf_at(r, q.take(k)) by {
        let a = q.take(k);
        if is_prefix(to, q) {
            let p0 = relocate(q, to, from);
            if k < to.len() {
                lemma_take_take(q, k, to.len() as int);
                assert(a == to.take(k));
                assert(!is_leaf_at(m, to.take(k)));
            } else {
                let j = from.len() + k - to.len();
                lemma_take_take(q, to.len() as int, k);
                assert(is_prefix(to, a));
                assert(relocate(a, to, from) =~= p0.take(j));
                assert(!m.contains_key(q));
                assert(m.contains_key(p0) && 0 < j < p0.len());
                assert(!is_leaf_at(m, p0.take(j)));
            }
        } else {
            assert(m.contains_key(q));
            assert(!is_leaf_at(m, a));
            if is_prefix(to, a) {
                lemma_take_take(q, to.len() as int, k);
            }
        }
    }
}

/// Renaming a subtree and renaming it back restores the document: nothing
/// beneath the subtree is lost or changed, and nothing else is touched.
pub proof fn lemma_rename_back(m: Tree, from: Seq<Seq<char>>, to: Seq<Seq<char>>)
    requires
        well_shaped(m),
        rename_outcome(m, from, to) is Some,
    ensures
        rename_outcome(rename_outcome(m, from, to)->Some_0, to, from) == Some(m),
{
    let m1 = moved_subtree(m, from, to);
    assert forall|q: Seq<Seq<char>>| #[trigger] m.contains_key(q) implies !is_prefix(to, q) by {
        if is_prefix(to, q) {
            assert(in_tree(m, to));
        }
    }
    let w = choose|k: Seq<Seq<char>>| #[trigger] m.contains_key(k) && is_prefix(from, k);
    lemma_relocate(w, from, to);
    assert(m1.contains_key(relocate(w, from, to)));
    assert(in_tree(m1, to));
    assert(!is_prefix(to, from)) by {
        if is_prefix(to, from) {
            lemma_take_take(w, to.len() as int, from.len() as int);
            assert(is_prefix(to, w));
        }
    }
    assert(!in_tree(m1, from)) by {
        if in_tree(m1, from) {
            let k = choose|k: Seq<Seq<char>>| #[trigger] m1.contains_key(k) && is_prefix(from, k);
            if is_prefix(to, k) {
                if from.len() <= to.len() {
                    lemma_take_take(k, from.len() as int, to.len() as int);
                } else {
                    lemma_take_take(k, to.len() as int, from.len() as int);
                }
            }
        }
    }
    assert(!leaf_among(m1, from, from.len() - 1)) by {
        assert forall|k: int| 1 <= k <= from.len() - 1 implies !#[trigger] is_leaf_at(m1, from.take(k)) by {
            lemma_take_take(w, k, from.len() as int);
            assert(m.contains_key(w) && 0 < k < w.len());
            assert(!is_leaf_at(m, w.take(k)));
            if is_prefix(to, from.take(k)) {
                if to.len() <= k {
                    lemma_take_take(from, to.len() as int, k);
                } else {
                    lemma_take_take(to, k, to.len() as int);
                }
            }
        }
    }
    let back = moved_subtree(m1, to, from);
    assert forall|q: Seq<Seq<char>>| #[trigger] back.contains_key(q) == m.contains_key(q) by {
        if is_prefix(from, q) {
            lemma_relocate(q, from, to);
        }
        if m1.contains_key(q) && is_prefix(to, q) {
            lemma_relocate(q, to, from);
        }
    }
    assert forall|q: Seq<Seq<char>>| #[trigger] back.contains_key(q) implies back[q] == m[q] by {
        if is_prefix(from, q) {
            lemma_relocate(q, from, to);
        }
    }
    assert(back =~= m);
}

#[derive(Debug)]
enum Node {
    Container,
    Leaf(ModeledValue),
}

impl Node {
    spec fn view(&self) -> NodeView {
        match self {
            Node::Container => NodeView::Container,
            Node::Leaf(v) => NodeView::Leaf(v@),
        }
    }
}

#[derive(Debug)]
struct Entry {
    path: Vec<String>,
    node: Node,
}

spec fn key(e: Entry) -> Seq<Seq<char>> {
    path_view(e.path@)
}

spec fn keys_unique(s: Seq<Entry>) -> bool {
    forall|i: int, j: int|
        0 <= i < s.len() && 0 <= j < s.len() && i != j ==> #[trigger] key(s[i]) != #[trigger] key(s[j])
}

spec fn has_key(s: Seq<Entry>, q: Seq<Seq<char>>) -> bool {
    exists|i: int| 0 <= i < s.len() && key(s[i]) == q
}

spec fn entries_view(s: Seq<Entry>) -> Tree {
    Map::new(
        |q: Seq<Seq<char>>| has_key(s, q),
        |q: Seq<Seq<char>>| s[choose|i: int| 0 <= i < s.len() && key(s[i]) == q].node.view(),
    )
}

proof fn lemma_entry_in_view(s: Seq<Entry>, i: int)
    requires
        keys_unique(s),
        0 <= i < s.len(),
    ensures
        entries_view(s).contains_key(key(s[i])),
        entries_view(s)[key(s[i])] == s[i].node.view(),
{
    let q = key(s[i]);
    assert(has_key(s, q));
    let j = choose|j: int| 0 <= j < s.len() && key(s[j]) == q;
    assert(key(s[j]) == key(s[i]));
}

proof fn lemma_view_push(s: Seq<Entry>, e: Entry)
    requires
        keys_unique(s),
        !entries_view(s).contains_key(key(e)),
    ensures
        keys_unique(s.push(e)),
        entries_view(s.push(e)) == entries_view(s).insert(key(e), e.node.view()),
{
    let t = s.push(e);
    assert forall|i: int, j: int|
        0 <= i < t.len() && 0 <= j < t.len() && i != j implies #[trigger] key(t[i]) != #[trigger] key(t[j]) by {
        if i < s.len() && j < s.len() {
            assert(t[i] == s[i] && t[j] == s[j]);
        } else if i < s.len() {
            assert(has_key(s, key(t[i])));
        } else {
            assert(has_key(s, key(t[j])));
        }
    }
    let a = entries_view(t);
    let b = entries_view(s).insert(key(e), e.node.view());
    assert forall|q: Seq<Seq<char>>| a.contains_key(q) == b.contains_key(q) by {
        if has_key(t, q) {
            let i = choose|i: int| 0 <= i < t.len() && key(t[i]) == q;
            if i < s.len() {
                assert(t[i] == s[i]);
                assert(has_key(s, q));
            }
        }
        if has_key(s, q) {
            let i = choose|i: int| 0 <= i < s.len() && key(s[i]) == q;
            assert(t[i] == s[i]);
            assert(has_key(t, q));
        }
        if q == key(e) {
            assert(key(t[s.len() as int]) == q);
        }
    }
    assert forall|q: Seq<Seq<char>>| #[trigger] a.contains_key(q) implies a[q] == b[q] by {
        let i = choose|i: int| 0 <= i < t.len() && key(t[i]) == q;
        lemma_entry_in_view(t, i);
        if i < s.len() {
            assert(t[i] == s[i]);
            lemma_entry_in_view(s, i);
        }
    }
    assert(a =~= b);
}

proof fn lemma_view_update(s: Seq<Entry>, i: int, e: Entry)
    requires
        keys_unique(s),
        0 <= i < s.len(),
        key(e) == key(s[i]),
    ensures
        keys_unique(s.update(i, e)),
        entries_view(s.update(i, e)) == entries_view(s).insert(key(e), e.node.view()),
{
    let t = s.update(i, e);
    assert forall|a: int, b: int|
        0 <= a < t.len() && 0 <= b < t.len() && a != b implies #[trigger] key(t[a]) != #[trigger] key(t[b]) by {
        assert(key(t[a]) == key(s[a]));
        assert(key(t[b]) == key(s[b]));
    }
    let x = entries_view(t);
    let y = entries_view(s).insert(key(e), e.node.view());
    assert forall|q: Seq<Seq<char>>| x.contains_key(q) == y.contains_key(q) by {
        if has_key(t, q) {
            let j = choose|j: int| 0 <= j < t.len() && key(t[j]) == q;
            assert(key(s[j]) == q);
        }
        if has_key(s, q) {
            let j = choose|j: int| 0 <= j < s.len() && key(s[j]) == q;
            assert(key(t[j]) == q);
        }
    }
    assert forall|q: Seq<Seq<char>>| #[trigger] x.contains_key(q) implies x[q] == y[q] by {
        let j = choose|j: int| 0 <= j < t.len() && key(t[j]) == q;
        lemma_entry_in_view(t, j);
        if j != i {
            lemma_entry_in_view(s, j);
        }
    }
    assert(x =~= y);
}

/// Whether two paths hold the same segments.
fn same_path(a: &Vec<String>, b: &Vec<String>) -> (r: bool)
    ensures
        r == (path_view(a@) == path_view(b@)),
{
    if a.len() != b.len() {
        assert(path_view(a@).len() != path_view(b@).len());
        return false;
    }
    let mut i: usize = 0;
    while i < a.len()
        invariant
            a.len() == b.len(),
            i <= a.len(),
            forall|j: int| 0 <= j < i ==> (#[trigger] a@[j])@ == b@[j]@,
        decreases a.len() - i,
    {
        if a[i] != b[i] {
            assert(path_view(a@)[i as int] != path_view(b@)[i as int]);
            return false;
        }
        i = i + 1;
    }
    assert(path_view(a@) =~= path_view(b@));
    true
}

/// The first `k` segments of `p`.
fn prefix_path(p: &Vec<String>, k: usize) -> (r: Vec<String>)
    requires
        k <= p.len(),
    ensures
        path_view(r@) == path_view(p@).take(k as int),
{
    let mut r: Vec<String> = Vec::new();
    let mut i: usize = 0;
    while i < k
        invariant
            k <= p.len(),
            i <= k,
            r@.len() == i,
            forall|j: int| 0 <= j < i ==> (#[trigger] r@[j])@ == p@[j]@,
        decreases k - i,
    {
        r.push(p[i].clone());
        i = i + 1;
    }
    assert(path_view(r@) =~= path_view(p@).take(k as int));
    r
}

/// Splits a dotted path such as `settings.oci-defaults` into its segments
/// at every `.`; the empty text is the root, with no segments.
pub fn parse_path(text: &str) -> (r: Vec<String>)
    ensures
        dotted(path_view(r@)) == text@,
        forall|i: int| 0 <= i < r@.len() ==> no_dot(#[trigger] r@[i]@),
        r@.len() == 0 <==> text@.len() == 0,
{
    let mut r: Vec<String> = Vec::new();
    let n = text.unicode_len();
    if n == 0 {
        return r;
    }
    let mut current = String::new();
    let mut i: usize = 0;
    assert(text@.take(0) =~= Seq::<char>::empty());
    while i < n
        invariant
            n == text@.len(),
            i <= n,
            dotted(path_view(r@).push(current@)) == text@.take(i as int),
            forall|j: int| 0 <= j < r@.len() ==> no_dot(#[trigger] r@[j]@),
            no_dot(current@),
        decreases n - i,
    {
        let c = text.get_char(i);
        let ghost segs = path_view(r@);
        assert(text@.take(i + 1) == text@.take(i as int).push(c));
        if c == '.' {
            let done = current;
            r.push(done);
            current = String::new();
            proof {
                let grown = path_view(r@).push(current@);
                assert(path_view(r@) == segs.push(done@));
                assert(grown.drop_last() == segs.push(done@));
                assert(grown.last() == Seq::<char>::empty());
                assert(dotted(grown) =~= text@.take(i + 1));
            }
        } else {
            let ghost before = current@;
            push_char(&mut current, c);
            proof {
                let grown = segs.push(current@);
                if segs.len() == 0 {
                    assert(dotted(grown) == current@);
                    assert(dotted(segs.push(before)) == before);
                } else {
                    assert(grown.drop_last() == segs);
                    assert(segs.push(before).drop_last() == segs);
                    assert(dotted(grown) =~= dotted(segs.push(before)).push(c));
                }
                assert(no_dot(current@)) by {
                    assert forall|k: int| 0 <= k < current@.len() implies current@[k] != '.' by {
                        if k < before.len() {
                            assert(current@[k] == before[k]);
                        }
                    }
                }
            }
        }
        i = i + 1;
    }
    let ghost segs = path_view(r@);
    let ghost last = current@;
    r.push(current);
    assert(path_view(r@) =~= segs.push(last));
    assert(text@.take(n as int) == text@);
    r
}

/// `to` followed by the segments of `p` after its first `n`.
fn relocated_path(p: &Vec<String>, n: usize, to: &Vec<String>) -> (r: Vec<String>)
    requires
        n <= p.len(),
    ensures
        path_view(r@) == path_view(to@) + path_view(p@).skip(n as int),
{
    let mut r = prefix_path(to, to.len());
    assert(path_view(to@).take(to.len() as int) == path_view(to@));
    let mut j: usize = n;
    while j < p.len()
        invariant
            n <= j <= p.len(),
            path_view(r@) == path_view(to@) + path_view(p@).subrange(n as int, j as int),
        decreases p.len() - j,
    {
        let ghost before = path_view(r@);
        r.push(p[j].clone());
        assert(path_view(r@) =~= before.push(p@[j as int]@));
        assert(path_view(p@).subrange(n as int, j + 1) =~= path_view(p@).subrange(n as int, j as int).push(p@[j as int]@));
        j = j + 1;
    }
    assert(path_view(p@).subrange(n as int, p.len() as int) =~= path_view(p@).skip(n as int));
    r
}

/// Whether `s` is among `names`.
fn has_name(names: &Vec<String>, s: &String) -> (r: bool)
    ensures
        r == exists|j: int| 0 <= j < names@.len() && names@[j]@ == s@,
{
    let mut i: usize = 0;
    while i < names.len()
        invariant
            i <= names@.len(),
            forall|j: int| 0 <= j < i ==> (#[trigger] names@[j])@ != s@,
        decreases names@.len() - i,
    {
        if names[i] == *s {
            return true;
        }
        i = i + 1;
    }
    false
}

/// A settings document: a tree of containers and leaves, where each leaf
/// holds a validated value and the containers above a stored path are
/// implied by it.
#[derive(Debug)]
pub struct SettingsDocument {
    entries: Vec<Entry>,
}

impl View for SettingsDocument {
    type V = Tree;

    closed spec fn view(&self) -> Tree {
        entries_view(self.entries@)
    }
}

impl SettingsDocument {
    pub closed spec fn wf(&self) -> bool {
        &&& keys_unique(self.entries@)
        &&& well_shaped(self@)
    }

    /// The empty document.
    pub fn new() -> (r: SettingsDocument)
        ensures
            r.wf(),
            r@ == Map::<Seq<Seq<char>>, NodeView>::empty(),
    {
        let r = SettingsDocument { entries: Vec::new() };
        assert(r@ =~= Map::<Seq<Seq<char>>, NodeView>::empty());
        r
    }

    /// The contents are well shaped.
    pub proof fn lemma_well_shaped(&self)
        requires
            self.wf(),
        ensures
            well_shaped(self@),
    {
    }

    fn find(&self, p: &Vec<String>) -> (r: Option<usize>)
        requires
            self.wf(),
        ensures
            match r {
                Some(i) => {
                    &&& i < self.entries@.len()
                    &&& key(self.entries@[i as int]) == path_view(p@)
                    &&& self@.contains_key(path_view(p@))
                    &&& self@[path_view(p@)] == self.entries@[i as int].node.view()
                },
                None => !self@.contains_key(path_view(p@)),
            },
    {
        let mut i: usize = 0;
        while i < self.entries.len()
            invariant
                self.wf(),
                i <= self.entries@.len(),
                forall|j: int| 0 <= j < i ==> key(#[trigger] self.entries@[j]) != path_view(p@),
            decreases self.entries@.len() - i,
        {
            if same_path(&self.entries[i].path, p) {
                proof {
                    lemma_entry_in_view(self.entries@, i as int);
                }
                return Some(i);
            }
            i = i + 1;
        }
        None
    }

    /// Whether something is stored at or beneath `path`.
    fn reaches(&self, path: &Vec<String>) -> (r: bool)
        requires
            self.wf(),
        ensures
            r == in_tree(self@, path_view(path@)),
    {
        let ghost pv = path_view(path@);
        if path.len() == 0 {
            return false;
        }
        let mut i: usize = 0;
        while i < self.entries.len()
            invariant
                self.wf(),
                pv == path_view(path@),
                pv.len() > 0,
                i <= self.entries@.len(),
                forall|j: int| 0 <= j < i ==> !is_prefix(pv, key(#[trigger] self.entries@[j])),
            decreases self.entries@.len() - i,
        {
            if self.under(path, &self.entries[i].path) {
                proof {
                    lemma_entry_in_view(self.entries@, i as int);
                    let k = key(self.entries@[i as int]);
                    assert(self@.contains_key(k) && is_prefix(pv, k));
                }
                return true;
            }
            i = i + 1;
        }
        assert forall|k: Seq<Seq<char>>| #[trigger] self@.contains_key(k) implies !is_prefix(pv, k) by {
            let j = choose|j: int| 0 <= j < self.entries@.len() && key(self.entries@[j]) == k;
            assert(!is_prefix(pv, key(self.entries@[j])));
        }
        false
    }

    /// Whether `path` exists: stored, or with something stored beneath it.
    pub fn contains(&self, path: &Vec<String>) -> (r: bool)
        requires
            self.wf(),
        ensures
            r == in_tree(self@, path_view(path@)),
    {
        self.reaches(path)
    }

    /// Whether `path` exists as a container.
    pub fn is_container(&self, path: &Vec<String>) -> (r: bool)
        requires
            self.wf(),
        ensures
            r == is_container_at(self@, path_view(path@)),
    {
        if !self.reaches(path) {
            return false;
        }
        match self.find(path) {
            Some(i) => match self.entries[i].node {
                Node::Container => true,
                Node::Leaf(_) => false,
            },
            None => true,
        }
    }

    /// A copy of the value of the leaf at `path`, if there is one.
    pub fn value_at(&self, path: &Vec<String>) -> (r: Option<ModeledValue>)
        requires
            self.wf(),
        ensures
            match r {
                Some(v) => self@.contains_key(path_view(path@)) && self@[path_view(path@)] == NodeView::Leaf(v@),
                None => !is_leaf_at(self@, path_view(path@)),
            },
    {
        match self.find(path) {
            Some(i) => match &self.entries[i].node {
                Node::Container => None,
                Node::Leaf(v) => Some(v.duplicate()),
            },
            None => None,
        }
    }

    /// The smallest `k` in `1..=n` at which the first `k` segments of
    /// `path` name a leaf, if any.
    fn first_leaf(&self, path: &Vec<String>, n: usize) -> (r: Option<usize>)
        requires
            self.wf(),
            n <= path.len(),
        ensures
            match r {
                Some(k) => 1 <= k <= n && is_leaf_at(self@, path_view(path@).take(k as int)),
                None => !leaf_among(self@, path_view(path@), n as int),
            },
    {
        let ghost pv = path_view(path@);
        let mut k: usize = 0;
        while k < n
            invariant
                self.wf(),
                n <= path.len(),
                pv == path_view(path@),
                0 <= k <= n,
                forall|j: int| 1 <= j <= k ==> !#[trigger] is_leaf_at(self@, pv.take(j)),
            decreases n - k,
        {
            let pre = prefix_path(path, k + 1);
            match self.find(&pre) {
                Some(i) => {
                    if let Node::Leaf(_) = &self.entries[i].node {
                        return Some(k + 1);
                    }
                },
                None => {},
            }
            k = k + 1;
        }
        None
    }

    /// Adds `path` as a container; a path that already exists, and the
    /// root, are left as they are. Fails, changing nothing, where `path` or
    /// one of its ancestors is a leaf, naming that leaf.
    pub fn add_container(&mut self, path: &Vec<String>) -> (r: Result<(), TreeError>)
        requires
            old(self).wf(),
        ensures
            final(self).wf(),
            match add_container_outcome(old(self)@, path_view(path@)) {
                Some(m) => r is Ok && final(self)@ == m,
                None => r is Err && final(self)@ == old(self)@,
            },
            r matches Err(e) ==> reports_leaf_on(old(self)@, path_view(path@), path@.len() as int, e),
    {
        let ghost m = self@;
        let ghost pv = path_view(path@);
        let n = path.len();
        if let Some(k) = self.first_leaf(path, n) {
            let at = prefix_path(path, k);
            assert(path_view(at@).len() == at@.len());
            assert(leaf_among(m, pv, n as int));
            return Err(TreeError::UnexpectedState { path: at, expected: PathState::Container, actual: PathState::Leaf });
        }
        if n == 0 || self.reaches(path) {
            return Ok(());
        }
        let e = Entry { path: prefix_path(path, n), node: Node::Container };
        proof {
            assert(pv.take(n as int) == pv);
            assert(!m.contains_key(pv)) by {
                assert(is_prefix(pv, pv));
            }
            lemma_view_push(self.entries@, e);
        }
        self.entries.push(e);
        proof {
            let r = self@;
            assert(r == m.insert(pv, NodeView::Container));
            assert forall|q: Seq<Seq<char>>, k: int|
                #![trigger r.contains_key(q), q.take(k)]
                r.contains_key(q) && 0 < k < q.len() implies !is_leaf_at(r, q.take(k)) by {
                if q == pv {
                    assert(!is_leaf_at(m, pv.take(k)));
                } else {
                    assert(m.contains_key(q));
                    assert(!is_leaf_at(m, q.take(k)));
                }
            }
        }
        Ok(())
    }

    /// Sets the leaf at `path` to `value`, replacing any earlier value.
    /// Fails, changing nothing, where `path` is the root, an ancestor is a
    /// leaf (named by the error), or `path` is a container.
    pub fn set_value(&mut self, path: &Vec<String>, value: ModeledValue) -> (r: Result<(), TreeError>)
        requires
            old(self).wf(),
        ensures
            final(self).wf(),
            match set_value_outcome(old(self)@, path_view(path@), value@) {
                Some(m) => r is Ok && final(self)@ == m,
                None => r is Err && final(self)@ == old(self)@,
            },
            r matches Err(e) ==> set_error_fits(old(self)@, path_view(path@), e),
    {
        let ghost m = self@;
        let ghost pv = path_view(path@);
        let n = path.len();
        if n == 0 {
            return Err(TreeError::RootPath);
        }
        if let Some(k) = self.first_leaf(path, n - 1) {
            let at = prefix_path(path, k);
            assert(path_view(at@).len() == at@.len());
            return Err(TreeError::UnexpectedState { path: at, expected: PathState::Container, actual: PathState::Leaf });
        }
        if self.is_container(path) {
            let at = prefix_path(path, n);
            assert(pv.take(n as int) == pv);
            return Err(TreeError::UnexpectedState { path: at, expected: PathState::Leaf, actual: PathState::Container });
        }
        assert(pv.len() == n);
        assert(pv.take(n as int) == pv);
        let ghost target = m.insert(pv, NodeView::Leaf(value@));
        let e = Entry { path: prefix_path(path, n), node: Node::Leaf(value) };
        match self.find(path) {
            Some(i) => {
                proof {
                    lemma_view_update(self.entries@, i as int, e);
                }
                self.entries.set(i, e);
            },
            None => {
                proof {
                    lemma_view_push(self.entries@, e);
                }
                self.entries.push(e);
            },
        }
        proof {
            let r = self@;
            assert(r == target);
            assert forall|q: Seq<Seq<char>>, k: int|
                #![trigger r.contains_key(q), q.take(k)]
                r.contains_key(q) && 0 < k < q.len() implies !is_leaf_at(r, q.take(k)) by {
                if q == pv {
                    assert(!is_leaf_at(m, pv.take(k)));
                    assert(pv.take(k) != pv);
                } else {
                    assert(m.contains_key(q));
                    assert(!is_leaf_at(m, q.take(k)));
                    if q.take(k) == pv {
                        lemma_take_take(q, k, k);
                        assert(is_prefix(pv, q));
                        assert(in_tree(m, pv));
                    }
                }
            }
        }
        Ok(())
    }

    /// Validates `raw` as a value of kind `kind` and sets the leaf at `path`
    /// to it. Nothing changes on failure.
    pub fn set(&mut self, path: &Vec<String>, kind: ValueKind, raw: &RawValue) -> (r: Result<(), DocumentError>)
        requires
            old(self).wf(),
        ensures
            final(self).wf(),
            match r {
                Ok(()) => exists|v: ValueView|
                    accepts(kind, raw@, v) && set_value_outcome(old(self)@, path_view(path@), v) == Some(final(self)@),
                Err(DocumentError::Validation(e)) => {
                    &&& forall|v: ValueView| !accepts(kind, raw@, v)
                    &&& validation_error_fits(kind, raw@, e)
                    &&& final(self)@ == old(self)@
                },
                Err(DocumentError::Tree(t)) => {
                    &&& exists|v: ValueView|
                        accepts(kind, raw@, v) && set_value_outcome(old(self)@, path_view(path@), v) is None
                    &&& set_error_fits(old(self)@, path_view(path@), t)
                    &&& final(self)@ == old(self)@
                },
            },
    {
        match ModeledValue::from_raw(kind, raw) {
            Ok(v) => {
                let ghost vv = v@;
                match self.set_value(path, v) {
                    Ok(()) => {
                        assert(accepts(kind, raw@, vv));
                        Ok(())
                    },
                    Err(e) => {
                        assert(accepts(kind, raw@, vv));
                        Err(DocumentError::Tree(e))
                    },
                }
            },
            Err(e) => Err(DocumentError::Validation(e)),
        }
    }

    /// Removes `path` and everything beneath it. Removing an absent path
    /// changes nothing; removing the root empties the document.
    pub fn remove(&mut self, path: &Vec<String>)
        requires
            old(self).wf(),
        ensures
            final(self).wf(),
            final(self)@ == without_subtree(old(self)@, path_view(path@)),
    {
        let ghost orig = self.entries@;
        let ghost m = self@;
        let ghost pv = path_view(path@);
        let mut kept: Vec<Entry> = Vec::new();
        let ghost mut i: int = 0;
        proof {
            assert(entries_view(kept@) =~= without_subtree(entries_view(orig.take(0)), pv));
        }
        while self.entries.len() > 0
            invariant
                keys_unique(orig),
                pv == path_view(path@),
                0 <= i <= orig.len(),
                self.entries@ == orig.subrange(i, orig.len() as int),
                keys_unique(kept@),
                entries_view(kept@) == without_subtree(entries_view(orig.take(i)), pv),
            decreases self.entries@.len(),
        {
            let e = self.entries.remove(0);
            let ghost prev = orig.take(i);
            proof {
                assert(e == orig[i]);
                assert(orig.take(i + 1) == prev.push(e));
                assert(keys_unique(prev)) by {
                    assert forall|a: int, b: int|
                        0 <= a < prev.len() && 0 <= b < prev.len() && a != b implies #[trigger] key(prev[a]) != #[trigger] key(prev[b]) by {
                        assert(prev[a] == orig[a] && prev[b] == orig[b]);
                    }
                }
                assert(!entries_view(prev).contains_key(key(e))) by {
                    if has_key(prev, key(e)) {
                        let j = choose|j: int| 0 <= j < prev.len() && key(prev[j]) == key(e);
                        assert(prev[j] == orig[j]);
                    }
                }
                lemma_view_push(prev, e);
            }
            if !self.under(path, &e.path) {
                proof {
                    lemma_view_push(kept@, e);
                }
                kept.push(e);
                proof {
                    assert(entries_view(kept@) =~= without_subtree(entries_view(orig.take(i + 1)), pv));
                }
            } else {
                proof {
                    assert(entries_view(kept@) =~= without_subtree(entries_view(orig.take(i + 1)), pv));
                }
            }
            proof {
                i = i + 1;
                assert(self.entries@ =~= orig.subrange(i, orig.len() as int));
            }
        }
        assert(orig.take(i) == orig);
        self.entries = kept;
        proof {
            lemma_without_subtree_shape(m, pv);
        }
    }

    /// Whether `p` is `q` or one of its ancestors.
    fn under(&self, p: &Vec<String>, q: &Vec<String>) -> (r: bool)
        ensures
            r == is_prefix(path_view(p@), path_view(q@)),
    {
        if p.len() > q.len() {
            return false;
        }
        let head = prefix_path(q, p.len());
        same_path(p, &head)
    }

    /// An exact copy of the document.
    pub fn duplicate(&self) -> (r: SettingsDocument)
        requires
            self.wf(),
        ensures
            r.wf(),
            r@ == self@,
    {
        let mut out: Vec<Entry> = Vec::new();
        let mut i: usize = 0;
        proof {
            assert(entries_view(out@) =~= entries_view(self.entries@.take(0)));
        }
        while i < self.entries.len()
            invariant
                self.wf(),
                i <= self.entries@.len(),
                keys_unique(out@),
                entries_view(out@) == entries_view(self.entries@.take(i as int)),
            decreases self.entries@.len() - i,
        {
            let src = &self.entries[i];
            let node = match &src.node {
                Node::Container => Node::Container,
                Node::Leaf(v) => Node::Leaf(v.duplicate()),
            };
            let e = Entry { path: prefix_path(&src.path, src.path.len()), node };
            let ghost all = self.entries@;
            let ghost prev = all.take(i as int);
            proof {
                assert(path_view(src.path@).take(src.path@.len() as int) == path_view(src.path@));
                assert(all.take(i + 1) == prev.push(all[i as int]));
                assert(keys_unique(prev)) by {
                    assert forall|a: int, b: int|
                        0 <= a < prev.len() && 0 <= b < prev.len() && a != b implies #[trigger] key(prev[a]) != #[trigger] key(prev[b]) by {
                        assert(prev[a] == all[a] && prev[b] == all[b]);
                    }
                }
                assert(!entries_view(prev).contains_key(key(e))) by {
                    if has_key(prev, key(e)) {
                        let j = choose|j: int| 0 <= j < prev.len() && key(prev[j]) == key(e);
                        assert(prev[j] == all[j]);
                    }
                }
                lemma_view_push(prev, all[i as int]);
                lemma_view_push(out@, e);
            }
            out.push(e);
            i = i + 1;
        }
        assert(self.entries@.take(self.entries@.len() as int) == self.entries@);
        SettingsDocument { entries: out }
    }

    /// Every stored path, each once: the leaves and the containers that
    /// were added on their own. The containers above them are implied.
    pub fn paths(&self) -> (r: Vec<Vec<String>>)
        requires
            self.wf(),
        ensures
            forall|q: Seq<Seq<char>>|
                self@.contains_key(q) <==> exists|i: int| 0 <= i < r@.len() && path_view(#[trigger] r@[i]@) == q,
            forall|i: int, j: int|
                0 <= i < r@.len() && 0 <= j < r@.len() && i != j ==> path_view(#[trigger] r@[i]@) != path_view(#[trigger] r@[j]@),
    {
        let mut r: Vec<Vec<String>> = Vec::new();
        let mut i: usize = 0;
        while i < self.entries.len()
            invariant
                self.wf(),
                i <= self.entries@.len(),
                r@.len() == i,
                forall|j: int| 0 <= j < i ==> path_view(#[trigger] r@[j]@) == key(self.entries@[j]),
            decreases self.entries@.len() - i,
        {
            let copy = prefix_path(&self.entries[i].path, self.entries[i].path.len());
            assert(path_view(self.entries@[i as int].path@).take(self.entries@[i as int].path@.len() as int)
                == path_view(self.entries@[i as int].path@));
            r.push(copy);
            i = i + 1;
        }
        assert forall|q: Seq<Seq<char>>|
            self@.contains_key(q) <==> exists|i: int| 0 <= i < r@.len() && path_view(#[trigger] r@[i]@) == q by {
            if self@.contains_key(q) {
                let j = choose|j: int| 0 <= j < self.entries@.len() && key(self.entries@[j]) == q;
                assert(path_view(r@[j]@) == q);
            }
            if exists|i: int| 0 <= i < r@.len() && path_view(#[trigger] r@[i]@) == q {
                let j = choose|j: int| 0 <= j < r@.len() && path_view(#[trigger] r@[j]@) == q;
                assert(key(self.entries@[j]) == q);
            }
        }
        assert forall|a: int, b: int|
            0 <= a < r@.len() && 0 <= b < r@.len() && a != b implies path_view(#[trigger] r@[a]@) != path_view(#[trigger] r@[b]@) by {
            assert(key(self.entries@[a]) != key(self.entries@[b]));
        }
        r
    }

    /// The names of the direct children of `path` that exist, each once.
    pub fn children(&self, path: &Vec<String>) -> (r: Vec<String>)
        requires
            self.wf(),
        ensures
            forall|name: Seq<char>|
                in_tree(self@, path_view(path@).push(name)) <==> exists|i: int| 0 <= i < r@.len() && (#[trigger] r@[i])@ == name,
            forall|i: int, j: int| 0 <= i < r@.len() && 0 <= j < r@.len() && i != j ==> (#[trigger] r@[i])@ != (#[trigger] r@[j])@,
    {
        let ghost pv = path_view(path@);
        let mut r: Vec<String> = Vec::new();
        let mut i: usize = 0;
        while i < self.entries.len()
            invariant
                self.wf(),
                pv == path_view(path@),
                i <= self.entries@.len(),
                forall|j: int| 0 <= j < r@.len() ==> in_tree(self@, pv.push(#[trigger] r@[j]@)),
                forall|j: int, k: int| 0 <= j < r@.len() && 0 <= k < r@.len() && j != k ==> (#[trigger] r@[j])@ != (#[trigger] r@[k])@,
                forall|e: int| 0 <= e < i && key(#[trigger] self.entries@[e]).len() > pv.len() && is_prefix(pv, key(self.entries@[e]))
                    ==> exists|j: int| 0 <= j < r@.len() && r@[j]@ == key(self.entries@[e])[pv.len() as int],
            decreases self.entries@.len() - i,
        {
            let ep = &self.entries[i].path;
            let ghost before = r@;
            let ghost ki = key(self.entries@[i as int]);
            let ghost qualifies = ki.len() > pv.len() && is_prefix(pv, ki);
            if ep.len() > path.len() && self.under(path, ep) {
                let name = &ep[path.len()];
                proof {
                    let k = key(self.entries@[i as int]);
                    lemma_entry_in_view(self.entries@, i as int);
                    assert(k[pv.len() as int] == name@);
                    assert(k.take(pv.len() as int + 1) =~= pv.push(name@)) by {
                        assert(k.take(pv.len() as int) == pv);
                    }
                    assert(is_prefix(pv.push(name@), k));
                    assert(in_tree(self@, pv.push(name@)));
                }
                if !has_name(&r, name) {
                    r.push(name.clone());
                    assert(r@[r@.len() - 1]@ == name@);
                }
                assert(exists|j: int| 0 <= j < r@.len() && r@[j]@ == ki[pv.len() as int]);
            }
            assert(qualifies ==> exists|j: int| 0 <= j < r@.len() && r@[j]@ == ki[pv.len() as int]);
            proof {
                assert forall|e: int| 0 <= e < i + 1 && key(#[trigger] self.entries@[e]).len() > pv.len() && is_prefix(pv, key(self.entries@[e]))
                    implies exists|j: int| 0 <= j < r@.len() && r@[j]@ == key(self.entries@[e])[pv.len() as int] by {
                    if e < i {
                        let j = choose|j: int| 0 <= j < before.len() && before[j]@ == key(self.entries@[e])[pv.len() as int];
                        assert(r@[j] == before[j]);
                    } else {
                        assert(path_view(ep@) == key(self.entries@[e]));
                    }
                }
            }
            i = i + 1;
        }
        assert forall|name: Seq<char>|
            in_tree(self@, pv.push(name)) implies exists|j: int| 0 <= j < r@.len() && (#[trigger] r@[j])@ == name by {
            let k = choose|k: Seq<Seq<char>>| #[trigger] self@.contains_key(k) && is_prefix(pv.push(name), k);
            let e = choose|e: int| 0 <= e < self.entries@.len() && key(self.entries@[e]) == k;
            lemma_take_take(k, pv.len() as int, pv.len() as int + 1);
            assert(pv.push(name).take(pv.len() as int) =~= pv);
            assert(is_prefix(pv, k));
            assert(k[pv.len() as int] == pv.push(name)[pv.len() as int]);
            let j = choose|j: int| 0 <= j < r@.len() && r@[j]@ == key(self.entries@[e])[pv.len() as int];
        }
        r
    }

    /// Moves `from` and everything beneath it to `to`, keeping every
    /// value. Fails, changing nothing, where `from` does not exist, `to` is
    /// the root or exists, `to` lies beneath `from`, or an ancestor of `to`
    /// is a leaf; the error says which.
    pub fn rename(&mut self, from: &Vec<String>, to: &Vec<String>) -> (r: Result<(), TreeError>)
        requires
            old(self).wf(),
        ensures
            final(self).wf(),
            match rename_outcome(old(self)@, path_view(from@), path_view(to@)) {
                Some(m) => r is Ok && final(self)@ == m,
                None => r is Err && final(self)@ == old(self)@,
            },
            r matches Err(e) ==> rename_error_fits(old(self)@, path_view(from@), path_view(to@), e),
    {
        let ghost m = self@;
        let ghost fv = path_view(from@);
        let ghost tv = path_view(to@);
        if !self.reaches(from) {
            let at = prefix_path(from, from.len());
            assert(fv.take(from.len() as int) == fv);
            return Err(TreeError::Missing { path: at });
        }
        let n = to.len();
        if n == 0 {
            return Err(TreeError::RootPath);
        }
        assert(tv.take(n as int) == tv);
        if self.reaches(to) {
            let actual = match self.find(to) {
                Some(i) => match &self.entries[i].node {
                    Node::Container => PathState::Container,
                    Node::Leaf(_) => PathState::Leaf,
                },
                None => PathState::Container,
            };
            return Err(TreeError::UnexpectedState { path: prefix_path(to, n), expected: PathState::Absent, actual });
        }
        if self.under(from, to) {
            let f = prefix_path(from, from.len());
            assert(fv.take(from.len() as int) == fv);
            return Err(TreeError::IntoOwnSubtree { from: f, to: prefix_path(to, n) });
        }
        if let Some(k) = self.first_leaf(to, n - 1) {
            let at = prefix_path(to, k);
            assert(path_view(at@).len() == at@.len());
            return Err(TreeError::UnexpectedState { path: at, expected: PathState::Container, actual: PathState::Leaf });
        }
        proof {
            assert forall|q: Seq<Seq<char>>| #[trigger] m.contains_key(q) implies !is_prefix(tv, q) by {
                if is_prefix(tv, q) {
                    assert(in_tree(m, tv));
                }
            }
            let w = choose|k: Seq<Seq<char>>| #[trigger] m.contains_key(k) && is_prefix(fv, k);
            assert(!is_prefix(tv, fv)) by {
                if is_prefix(tv, fv) {
                    lemma_take_take(w, tv.len() as int, fv.len() as int);
                    assert(is_prefix(tv, w));
                }
            }
            lemma_moved_shape(m, fv, tv);
        }
        let ghost orig = self.entries@;
        let mut out: Vec<Entry> = Vec::new();
        let ghost mut i: int = 0;
        proof {
            assert(entries_view(orig.take(0)) =~= Map::<Seq<Seq<char>>, NodeView>::empty());
            assert(entries_view(out@) =~= moved_subtree(entries_view(orig.take(0)), fv, tv));
        }
        while self.entries.len() > 0
            invariant
                keys_unique(orig),
                entries_view(orig) == m,
                forall|q: Seq<Seq<char>>| #[trigger] m.contains_key(q) ==> !is_prefix(tv, q),
                !is_prefix(tv, fv),
                fv == path_view(from@),
                tv == path_view(to@),
                0 <= i <= orig.len(),
                self.entries@ == orig.subrange(i, orig.len() as int),
                keys_unique(out@),
                forall|q: Seq<Seq<char>>| #[trigger] entries_view(orig.take(i)).contains_key(q) ==> m.contains_key(q),
                entries_view(out@) == moved_subtree(entries_view(orig.take(i)), fv, tv),
            decreases self.entries@.len(),
        {
            let e = self.entries.remove(0);
            let ghost prev = orig.take(i);
            let ghost mp = entries_view(prev);
            proof {
                assert(e == orig[i]);
                assert(orig.take(i + 1) == prev.push(e));
                assert(keys_unique(prev)) by {
                    assert forall|a: int, b: int|
                        0 <= a < prev.len() && 0 <= b < prev.len() && a != b implies #[trigger] key(prev[a]) != #[trigger] key(prev[b]) by {
                        assert(prev[a] == orig[a] && prev[b] == orig[b]);
                    }
                }
                assert(!mp.contains_key(key(e))) by {
                    if has_key(prev, key(e)) {
                        let j = choose|j: int| 0 <= j < prev.len() && key(prev[j]) == key(e);
                        assert(prev[j] == orig[j]);
                    }
                }
                lemma_view_push(prev, e);
                lemma_entry_in_view(orig, i);
                assert(m.contains_key(key(e)));
                assert forall|q: Seq<Seq<char>>| #[trigger] mp.contains_key(q) implies !is_prefix(tv, q) by {
                    assert(m.contains_key(q));
                }
                lemma_moved_insert(mp, key(e), e.node.view(), fv, tv);
            }
            let Entry { path, node } = e;
            if self.under(from, &path) {
                let np = relocated_path(&path, from.len(), to);
                let moved = Entry { path: np, node };
                proof {
                    lemma_view_push(out@, moved);
                }
                out.push(moved);
            } else {
                let kept = Entry { path, node };
                proof {
                    lemma_view_push(out@, kept);
                }
                out.push(kept);
            }
            proof {
                i = i + 1;
                assert(self.entries@ =~= orig.subrange(i, orig.len() as int));
                assert forall|q: Seq<Seq<char>>| #[trigger] entries_view(orig.take(i)).contains_key(q) implies m.contains_key(q) by {
                    if q != key(e) {
                        assert(mp.contains_key(q));
                    }
                }
            }
        }
        assert(orig.take(i) == orig);
        self.entries = out;
        Ok(())
    }
}

} // verus!
