//! Laws that relate the operations of the library.
use crate::index::{bytes_cmp, path_cmp, step_cmp, Step};
use crate::iter::{
    child_entries, child_steps, expands, kid, kids_len, lemma_walk_kids_split, mutate_kids,
    mutate_kids_budget, mutate_walk, mutate_walk_budget, set_kid, step_spec, truncate, visited,
    visitor_keeps_valid, walk, walk_kids, walk_kids_upto, Entry, Visitor,
};
use crate::merge::{
    absorb, absorb_one, fold_merge, merge_kids, merge_rule, merge_step_spec, merge_walk,
    rule_keeps_valid, set_child, union_rule, MergeRule, NodeRule, UnionRule,
};
use crate::order::{deep_eq, keys_covered, lemma_entries_deep_eq, lemma_items_deep_eq};
use crate::sort::{
    entry_order, insertion_sort, item_order, sort_insert, sorted_entries, sorted_items, KeyOrder,
    PathOrder, SortKeys, SortValues, ValueOrder,
};
use crate::value::{
    child, key_index, lemma_key_index, lemma_key_index_first, put, resolve, unique_keys, update,
    well_formed, Node,
};
use std::cmp::Ordering;
use vstd::prelude::*;

verus! {

/// With depth bound 0 a walk visits the root alone, at the empty path.
pub proof fn depth_zero_visits_root(t: Node)
    ensures
        walk(t, Seq::empty(), 0, Some(0usize)) == seq![(Seq::<Step>::empty(), t)],
{
    assert(walk(t, Seq::empty(), 0, Some(0usize)) =~= seq![(Seq::<Step>::empty(), t)]);
}

/// A bound of `n` visits keeps exactly the first `n` pairs of the unbounded
/// walk, for every `n` up to the number of nodes.
pub proof fn limit_keeps_prefix(t: Node, depth: Option<usize>, n: usize)
    requires
        n <= walk(t, Seq::empty(), 0, depth).len(),
    ensures
        truncate(walk(t, Seq::empty(), 0, depth), Some(n)) == walk(t, Seq::empty(), 0, depth).take(
            n as int,
        ),
{
    let w = walk(t, Seq::empty(), 0, depth);
    if n == w.len() {
        assert(w.take(n as int) =~= w);
    }
}

/// Every object has unique keys and every array is empty, all the way down.
pub open spec fn merges_into_itself(n: Node) -> bool
    decreases n,
{
    match n {
        Node::Arr(a) => a.len() == 0,
        Node::Obj(e) => unique_keys(e) && forall|i: int|
            0 <= i < e.len() ==> merges_into_itself(#[trigger] e[i].1),
        _ => true,
    }
}

proof fn lemma_absorb_present(e: Seq<(Seq<char>, Node)>, f: Seq<(Seq<char>, Node)>)
    requires
        forall|j: int| 0 <= j < f.len() ==> key_index(e, #[trigger] f[j].0) >= 0,
    ensures
        absorb(e, f) == e,
    decreases f.len(),
{
    if f.len() > 0 {
        let g = f.drop_last();
        assert forall|j: int| 0 <= j < g.len() implies key_index(e, #[trigger] g[j].0) >= 0 by {
            assert(g[j] == f[j]);
        }
        lemma_absorb_present(e, g);
        assert(key_index(e, f[f.len() - 1].0) >= 0);
    }
}

proof fn lemma_merge_kids_self(e: Seq<(Seq<char>, Node)>, p: Seq<Step>, d: nat, i: nat)
    requires
        merges_into_itself(Node::Obj(e)),
        i <= e.len(),
    ensures
        merge_kids(MergeRule, Node::Obj(e), Node::Obj(e), p, d, None, i) == Node::Obj(e),
    decreases Node::Obj(e), e.len() - i,
{
    if i < e.len() {
        let n = Node::Obj(e);
        let s = Step::Key(e[i as int].0);
        assert forall|m: int| 0 <= m < i implies e[m].0 != e[i as int].0 by {}
        lemma_key_index_first(e, e[i as int].0, i as int);
        assert(child(n, s) == Some(e[i as int].1));
        assert(merges_into_itself(e[i as int].1));
        assert(decreases_to!(n => e[i as int].1)) by {
            assert(decreases_to!(n => n->Obj_0));
            assert(n->Obj_0 == e);
            assert(decreases_to!(e => e[i as int]));
            assert(decreases_to!(e[i as int] => e[i as int].1));
        }
        lemma_merge_self(e[i as int].1, p.push(s), d + 1);
        assert(e.update(i as int, (e[i as int].0, e[i as int].1)) =~= e);
        assert(set_child(n, s, e[i as int].1) == n);
        lemma_merge_kids_self(e, p, d, i + 1);
    }
}

/// Merging a tree into itself with the merge rule gives the tree back, for
/// trees whose objects have unique keys and whose arrays are empty (a
/// non-empty array would be appended to itself).
pub proof fn lemma_merge_self(n: Node, p: Seq<Step>, d: nat)
    requires
        merges_into_itself(n),
    ensures
        merge_walk(MergeRule, n, n, p, d, None) == n,
    decreases n, kids_len(n) + 1,
{
    match n {
        Node::Obj(e) => {
            assert forall|j: int| 0 <= j < e.len() implies key_index(e, #[trigger] e[j].0) >= 0 by {
                lemma_key_index(e, e[j].0);
            }
            lemma_absorb_present(e, e);
            assert(merge_rule(n, n) == (n, true));
            if expands(None, d) {
                lemma_merge_kids_self(e, p, d, 0);
            }
        },
        Node::Arr(a) => {
            assert(a + a =~= a);
        },
        _ => {},
    }
}

/// Merging a tree into itself, all the way down with the merge rule, gives
/// the tree back when its objects have unique keys and its arrays are empty.
pub proof fn merge_recursive_self_is_identity(a: Node)
    requires
        merges_into_itself(a),
    ensures
        merge_walk(MergeRule, a, a, Seq::empty(), 0, None) == a,
{
    lemma_merge_self(a, Seq::empty(), 0);
}

proof fn lemma_kid(n: Node, i: int)
    requires
        well_formed(n),
        0 <= i < kids_len(n),
    ensures
        child(n, kid(n, i).0) == Some(kid(n, i).1),
        well_formed(kid(n, i).1),
        decreases_to!(n => kid(n, i).1),
        forall|j: int| 0 <= j < kids_len(n) && j != i ==> kid(n, j).0 != kid(n, i).0,
{
    match n {
        Node::Arr(a) => {
            assert(decreases_to!(n => a[i])) by {
                assert(decreases_to!(n => n->Arr_0));
                assert(decreases_to!(n->Arr_0 => n->Arr_0[i]));
            }
        },
        Node::Obj(e) => {
            assert forall|m: int| 0 <= m < i implies e[m].0 != e[i].0 by {}
            lemma_key_index_first(e, e[i].0, i);
            assert(decreases_to!(n => e[i].1)) by {
                assert(decreases_to!(n => n->Obj_0));
                assert(decreases_to!(n->Obj_0 => n->Obj_0[i]));
                assert(decreases_to!(n->Obj_0[i] => n->Obj_0[i].1));
            }
        },
        _ => {},
    }
}

proof fn lemma_resolve_cons(n: Node, s: Step, r: Seq<Step>)
    ensures
        resolve(n, seq![s] + r) == match child(n, s) {
            Some(c) => resolve(c, r),
            None => None,
        },
{
    assert((seq![s] + r)[0] == s);
    assert((seq![s] + r).drop_first() =~= r);
}

/// What the entries of a walk from `p` look like: each path extends `p`,
/// and the rest of it leads from `n` to the entry's node.
pub open spec fn walk_sound(n: Node, p: Seq<Step>, w: Seq<(Seq<Step>, Node)>) -> bool {
    forall|k: int|
        0 <= k < w.len() ==> (#[trigger] w[k]).0.len() >= p.len() && w[k].0.take(p.len() as int) == p
            && resolve(n, w[k].0.skip(p.len() as int)) == Some(w[k].1)
}

pub open spec fn distinct_paths(w: Seq<(Seq<Step>, Node)>) -> bool {
    forall|k1: int, k2: int| 0 <= k1 < k2 < w.len() ==> (#[trigger] w[k1]).0 != (#[trigger] w[k2]).0
}

proof fn lemma_walk_kids_sound(n: Node, p: Seq<Step>, d: nat, i: nat)
    requires
        well_formed(n),
        i <= kids_len(n),
    ensures
        ({
            let w = walk_kids(n, p, d, None, i);
            &&& distinct_paths(w)
            &&& forall|k: int|
                0 <= k < w.len() ==> exists|j: int|
                    i <= j < kids_len(n) && (#[trigger] w[k]).0.len() > p.len() && w[k].0.take(
                        p.len() + 1int,
                    ) == p.push(kid(n, j).0) && resolve(kid(n, j).1, w[k].0.skip(p.len() + 1int))
                        == Some(w[k].1)
        }),
    decreases n, kids_len(n) - i,
{
    let w = walk_kids(n, p, d, None, i);
    if i == kids_len(n) {
        assert(w =~= Seq::empty());
    } else {
        let s = kid(n, i as int).0;
        let c = kid(n, i as int).1;
        lemma_kid(n, i as int);
        let wi = walk(c, p.push(s), d + 1, None);
        let rest = walk_kids(n, p, d, None, i + 1);
        assert(w == wi + rest);
        lemma_walk_sound(c, p.push(s), d + 1);
        lemma_walk_kids_sound(n, p, d, i + 1);
        assert forall|k: int| 0 <= k < w.len() implies exists|j: int|
            i <= j < kids_len(n) && (#[trigger] w[k]).0.len() > p.len() && w[k].0.take(p.len() + 1int)
                == p.push(kid(n, j).0) && resolve(kid(n, j).1, w[k].0.skip(p.len() + 1int)) == Some(
                w[k].1,
            ) by {
            if k < wi.len() {
                assert(w[k] == wi[k]);
                let q = wi[k].0;
                assert(q.take(p.len() + 1int) == p.push(s));
                assert(q.len() >= p.len() + 1int);
            } else {
                assert(w[k] == rest[k - wi.len()]);
                let j = choose|j: int|
                    i + 1 <= j < kids_len(n) && (#[trigger] rest[k - wi.len()]).0.len() > p.len()
                        && rest[k - wi.len()].0.take(p.len() + 1int) == p.push(kid(n, j).0) && resolve(
                        kid(n, j).1,
                        rest[k - wi.len()].0.skip(p.len() + 1int),
                    ) == Some(rest[k - wi.len()].1);
            }
        }
        assert forall|k1: int, k2: int| 0 <= k1 < k2 < w.len() implies (#[trigger] w[k1]).0 != (
        #[trigger] w[k2]).0 by {
            if k2 < wi.len() {
                assert(w[k1] == wi[k1] && w[k2] == wi[k2]);
            } else if k1 >= wi.len() {
                assert(w[k1] == rest[k1 - wi.len()] && w[k2] == rest[k2 - wi.len()]);
            } else {
                assert(w[k1] == wi[k1] && w[k2] == rest[k2 - wi.len()]);
                let q1 = wi[k1].0;
                let q2 = rest[k2 - wi.len()].0;
                let j = choose|j: int|
                    i + 1 <= j < kids_len(n) && (#[trigger] rest[k2 - wi.len()]).0.len() > p.len()
                        && rest[k2 - wi.len()].0.take(p.len() + 1int) == p.push(kid(n, j).0) && resolve(
                        kid(n, j).1,
                        rest[k2 - wi.len()].0.skip(p.len() + 1int),
                    ) == Some(rest[k2 - wi.len()].1);
                assert(q1.take(p.len() + 1int) == p.push(s));
                assert(q1[p.len() as int] == q1.take(p.len() + 1int)[p.len() as int]);
                assert(q2[p.len() as int] == q2.take(p.len() + 1int)[p.len() as int]);
                assert(kid(n, j).0 != s);
                assert(q1[p.len() as int] != q2[p.len() as int]);
            }
        }
    }
}

proof fn lemma_walk_sound(n: Node, p: Seq<Step>, d: nat)
    requires
        well_formed(n),
    ensures
        walk_sound(n, p, walk(n, p, d, None)),
        distinct_paths(walk(n, p, d, None)),
    decreases n, kids_len(n) + 1,
{
    let w = walk(n, p, d, None);
    let kids = if expands(None, d) {
        walk_kids(n, p, d, None, 0)
    } else {
        Seq::empty()
    };
    assert(w == seq![(p, n)] + kids);
    if expands(None, d) {
        lemma_walk_kids_sound(n, p, d, 0);
    }
    assert(p.take(p.len() as int) =~= p);
    assert(p.skip(p.len() as int) =~= Seq::<Step>::empty());
    assert forall|k: int| 0 <= k < w.len() implies (#[trigger] w[k]).0.len() >= p.len() && w[k].0.take(
        p.len() as int,
    ) == p && resolve(n, w[k].0.skip(p.len() as int)) == Some(w[k].1) by {
        if k > 0 {
            assert(w[k] == kids[k - 1]);
            let q = kids[k - 1].0;
            let j = choose|j: int|
                0 <= j < kids_len(n) && (#[trigger] kids[k - 1]).0.len() > p.len() && kids[k - 1].0.take(
                    p.len() + 1int,
                ) == p.push(kid(n, j).0) && resolve(kid(n, j).1, kids[k - 1].0.skip(p.len() + 1int))
                    == Some(kids[k - 1].1);
            lemma_kid(n, j);
            assert(q.take(p.len() as int) =~= q.take(p.len() + 1int).take(p.len() as int));
            assert(p.push(kid(n, j).0).take(p.len() as int) =~= p);
            assert(q.skip(p.len() as int) =~= seq![kid(n, j).0] + q.skip(p.len() + 1int)) by {
                assert(q[p.len() as int] == q.take(p.len() + 1int)[p.len() as int]);
            }
            lemma_resolve_cons(n, kid(n, j).0, q.skip(p.len() + 1int));
        }
    }
    assert forall|k1: int, k2: int| 0 <= k1 < k2 < w.len() implies (#[trigger] w[k1]).0 != (
    #[trigger] w[k2]).0 by {
        if k1 == 0 {
            assert(w[k2] == kids[k2 - 1]);
            let j = choose|j: int|
                0 <= j < kids_len(n) && (#[trigger] kids[k2 - 1]).0.len() > p.len() && kids[k2
                    - 1].0.take(p.len() + 1int) == p.push(kid(n, j).0) && resolve(
                    kid(n, j).1,
                    kids[k2 - 1].0.skip(p.len() + 1int),
                ) == Some(kids[k2 - 1].1);
        } else {
            assert(w[k1] == kids[k1 - 1] && w[k2] == kids[k2 - 1]);
        }
    }
}

proof fn lemma_walk_complete(n: Node, p: Seq<Step>, d: nat, r: Seq<Step>)
    requires
        well_formed(n),
        resolve(n, r) is Some,
        d + r.len() <= usize::MAX,
    ensures
        exists|k: int|
            0 <= k < walk(n, p, d, None).len() && #[trigger] walk(n, p, d, None)[k] == (
                p + r,
                resolve(n, r)->0,
            ),
    decreases r.len(),
{
    let w = walk(n, p, d, None);
    if r.len() == 0 {
        assert(p + r =~= p);
        assert(w[0] == (p + r, resolve(n, r)->0));
    } else {
        let s = r[0];
        let c = child(n, s)->0;
        let j: int = match (n, s) {
            (Node::Arr(a), Step::Pos(i)) => i as int,
            (Node::Obj(e), Step::Key(k)) => key_index(e, k),
            _ => 0,
        };
        match n {
            Node::Obj(e) => {
                lemma_key_index(e, s->Key_0);
            },
            _ => {},
        }
        assert(0 <= j < kids_len(n) && kid(n, j) == (s, c));
        lemma_kid(n, j);
        assert(resolve(c, r.drop_first()) == resolve(n, r));
        lemma_walk_complete(c, p.push(s), d + 1, r.drop_first());
        let wj = walk(c, p.push(s), d + 1, None);
        let k2 = choose|k: int| 0 <= k < wj.len() && #[trigger] wj[k] == (
            p.push(s) + r.drop_first(),
            resolve(c, r.drop_first())->0,
        );
        assert(p.push(s) + r.drop_first() =~= p + r);
        lemma_walk_kids_split(n, p, d, None, j as nat);
        let up = walk_kids_upto(n, p, d, None, j as nat);
        let kids = walk_kids(n, p, d, None, 0);
        assert(walk_kids(n, p, d, None, j as nat) == wj + walk_kids(n, p, d, None, (j + 1) as nat));
        assert(kids[up.len() + k2] == wj[k2]);
        assert(expands(None, d));
        assert(w == seq![(p, n)] + kids);
        assert(w[1 + up.len() + k2] == wj[k2]);
    }
}

/// A walk with no depth bound visits each node once: every visited path
/// leads to the node it is paired with, no path comes twice, and every path
/// that leads to a node (and is no longer than the largest depth a
/// traverser can count to) is visited. Objects must have unique keys.
pub proof fn walk_visits_each_node_once(t: Node)
    requires
        well_formed(t),
    ensures
        forall|k: int|
            0 <= k < walk(t, Seq::empty(), 0, None).len() ==> resolve(
                t,
                (#[trigger] walk(t, Seq::empty(), 0, None)[k]).0,
            ) == Some(walk(t, Seq::empty(), 0, None)[k].1),
        distinct_paths(walk(t, Seq::empty(), 0, None)),
        forall|r: Seq<Step>|
            #![trigger resolve(t, r)]
            resolve(t, r) is Some && r.len() <= usize::MAX ==> exists|k: int|
                0 <= k < walk(t, Seq::empty(), 0, None).len() && #[trigger] walk(
                    t,
                    Seq::empty(),
                    0,
                    None,
                )[k] == (r, resolve(t, r)->0),
{
    let w = walk(t, Seq::empty(), 0, None);
    lemma_walk_sound(t, Seq::empty(), 0);
    assert forall|k: int| 0 <= k < w.len() implies resolve(t, (#[trigger] w[k]).0) == Some(w[k].1) by {
        assert(w[k].0.skip(0) =~= w[k].0);
    }
    assert forall|r: Seq<Step>| resolve(t, r) is Some && r.len() <= usize::MAX implies exists|k: int|
        0 <= k < w.len() && #[trigger] w[k] == (r, resolve(t, r)->0) by {
        lemma_walk_complete(t, Seq::empty(), 0, r);
        assert(Seq::<Step>::empty() + r =~= r);
    }
}

proof fn lemma_bytes_cmp_refl(a: Seq<u8>)
    ensures
        bytes_cmp(a, a) == Ordering::Equal,
    decreases a.len(),
{
    if a.len() > 0 {
        lemma_bytes_cmp_refl(a.drop_first());
    }
}

proof fn lemma_bytes_cmp_antisym(a: Seq<u8>, b: Seq<u8>)
    ensures
        (bytes_cmp(a, b) == Ordering::Greater) == (bytes_cmp(b, a) == Ordering::Less),
    decreases a.len(),
{
    if a.len() > 0 && b.len() > 0 && a[0] == b[0] {
        lemma_bytes_cmp_antisym(a.drop_first(), b.drop_first());
    }
}

proof fn lemma_step_cmp_refl(x: Step)
    ensures
        step_cmp(x, x) == Ordering::Equal,
{
    match x {
        Step::Key(k) => lemma_bytes_cmp_refl(vstd::utf8::encode_utf8(k)),
        Step::Pos(_) => {},
    }
}

/// Two paths that differ only in their last step compare as those steps do.
proof fn lemma_path_cmp_siblings(parent: Seq<Step>, x: Step, y: Step)
    ensures
        path_cmp(parent.push(x), parent.push(y)) == step_cmp(x, y),
    decreases parent.len(),
{
    if parent.len() == 0 {
        assert(seq![x].drop_first() =~= Seq::<Step>::empty());
        assert(seq![y].drop_first() =~= Seq::<Step>::empty());
        assert(parent.push(x) =~= seq![x]);
        assert(parent.push(y) =~= seq![y]);
        assert(path_cmp(Seq::<Step>::empty(), Seq::<Step>::empty()) == Ordering::Equal);
    } else {
        lemma_step_cmp_refl(parent[0]);
        assert(parent.push(x)[0] == parent[0]);
        assert(parent.push(y)[0] == parent[0]);
        assert(parent.push(x).drop_first() =~= parent.drop_first().push(x));
        assert(parent.push(y).drop_first() =~= parent.drop_first().push(y));
        lemma_path_cmp_siblings(parent.drop_first(), x, y);
    }
}

/// The default order of entries compares the entries' keys alone.
proof fn lemma_path_order_keys(parent: Seq<Step>, x: (Seq<char>, Node), y: (Seq<char>, Node))
    ensures
        (entry_order(PathOrder, parent))(x, y) == bytes_cmp(
            vstd::utf8::encode_utf8(x.0),
            vstd::utf8::encode_utf8(y.0),
        ),
{
    lemma_path_cmp_siblings(parent, Step::Key(x.0), Step::Key(y.0));
}

/// Each item is not greater than the next.
pub open spec fn sorted_by<A>(cmp: spec_fn(A, A) -> Ordering, s: Seq<A>) -> bool {
    forall|i: int| 0 <= i < s.len() - 1 ==> #[trigger] cmp(s[i], s[i + 1]) != Ordering::Greater
}

pub open spec fn antisymmetric<A>(cmp: spec_fn(A, A) -> Ordering) -> bool {
    forall|a: A, b: A| #[trigger] cmp(a, b) == Ordering::Greater ==> cmp(b, a) != Ordering::Greater
}

/// Inserting adds one item, and every item of the result is the new one or
/// an item of the old sequence.
pub proof fn lemma_sort_insert_shape<A>(cmp: spec_fn(A, A) -> Ordering, t: Seq<A>, x: A)
    ensures
        sort_insert(cmp, t, x).len() == t.len() + 1,
        sort_insert(cmp, t, x).last() == x || (t.len() > 0 && sort_insert(cmp, t, x).last()
            == t.last()),
        forall|i: int|
            0 <= i < sort_insert(cmp, t, x).len() ==> #[trigger] sort_insert(cmp, t, x)[i] == x
                || exists|j: int| 0 <= j < t.len() && sort_insert(cmp, t, x)[i] == t[j],
    decreases t.len(),
{
    let r = sort_insert(cmp, t, x);
    if t.len() > 0 {
        let u = t.drop_last();
        lemma_sort_insert_shape(cmp, u, x);
        if cmp(t.last(), x) == Ordering::Greater {
            let r2 = sort_insert(cmp, u, x);
            assert forall|i: int| 0 <= i < r.len() implies #[trigger] r[i] == x || exists|j: int|
                0 <= j < t.len() && r[i] == t[j] by {
                if i < r2.len() {
                    assert(r[i] == r2[i]);
                    if r2[i] != x {
                        let j = choose|j: int| 0 <= j < u.len() && r2[i] == u[j];
                        assert(u[j] == t[j]);
                    }
                } else {
                    assert(r[i] == t[t.len() - 1]);
                }
            }
        } else {
            assert forall|i: int| 0 <= i < r.len() implies #[trigger] r[i] == x || exists|j: int|
                0 <= j < t.len() && r[i] == t[j] by {
                if i < t.len() {
                    assert(r[i] == t[i]);
                }
            }
        }
    } else {
        assert(r =~= seq![x]);
    }
}

/// Inserting into a sorted sequence by an antisymmetric order keeps it sorted.
pub proof fn lemma_sort_insert_sorted<A>(cmp: spec_fn(A, A) -> Ordering, t: Seq<A>, x: A)
    requires
        antisymmetric(cmp),
        sorted_by(cmp, t),
    ensures
        sorted_by(cmp, sort_insert(cmp, t, x)),
    decreases t.len(),
{
    let r = sort_insert(cmp, t, x);
    if t.len() > 0 {
        let u = t.drop_last();
        assert(sorted_by(cmp, u)) by {
            assert forall|i: int| 0 <= i < u.len() - 1 implies #[trigger] cmp(u[i], u[i + 1])
                != Ordering::Greater by {
                assert(u[i] == t[i] && u[i + 1] == t[i + 1]);
            }
        }
        if cmp(t.last(), x) == Ordering::Greater {
            lemma_sort_insert_sorted(cmp, u, x);
            lemma_sort_insert_shape(cmp, u, x);
            let r2 = sort_insert(cmp, u, x);
            assert(cmp(r2.last(), t.last()) != Ordering::Greater) by {
                if r2.last() == x {
                    assert(cmp(t.last(), x) == Ordering::Greater);
                } else {
                    let i = t.len() - 2;
                    assert(u.last() == t[i]);
                    assert(cmp(t[i], t[i + 1]) != Ordering::Greater);
                    assert(t[i + 1] == t.last());
                }
            }
            assert forall|i: int| 0 <= i < r.len() - 1 implies #[trigger] cmp(r[i], r[i + 1])
                != Ordering::Greater by {
                if i < r2.len() - 1 {
                    assert(r[i] == r2[i] && r[i + 1] == r2[i + 1]);
                } else {
                    assert(r[i] == r2.last() && r[i + 1] == t.last());
                }
            }
        } else {
            assert forall|i: int| 0 <= i < r.len() - 1 implies #[trigger] cmp(r[i], r[i + 1])
                != Ordering::Greater by {
                if i < t.len() - 1 {
                    assert(r[i] == t[i] && r[i + 1] == t[i + 1]);
                } else {
                    assert(r[i] == t.last() && r[i + 1] == x);
                }
            }
        }
    }
}

/// Insertion sort by an antisymmetric order gives a sorted sequence of the
/// same length, each of whose items is an item of the input.
pub proof fn lemma_insertion_sorted<A>(cmp: spec_fn(A, A) -> Ordering, s: Seq<A>)
    requires
        antisymmetric(cmp),
    ensures
        sorted_by(cmp, insertion_sort(cmp, s)),
        insertion_sort(cmp, s).len() == s.len(),
        forall|i: int|
            0 <= i < s.len() ==> exists|j: int|
                0 <= j < s.len() && #[trigger] insertion_sort(cmp, s)[i] == s[j],
    decreases s.len(),
{
    if s.len() > 0 {
        let u = s.drop_last();
        lemma_insertion_sorted(cmp, u);
        let t = insertion_sort(cmp, u);
        lemma_sort_insert_sorted(cmp, t, s.last());
        lemma_sort_insert_shape(cmp, t, s.last());
        let r = insertion_sort(cmp, s);
        assert forall|i: int| 0 <= i < s.len() implies exists|j: int|
            0 <= j < s.len() && #[trigger] r[i] == s[j] by {
            if r[i] == s.last() {
                assert(r[i] == s[s.len() - 1]);
            } else {
                let j1 = choose|j: int| 0 <= j < t.len() && r[i] == t[j];
                let j2 = choose|j: int| 0 <= j < u.len() && #[trigger] t[j1] == u[j];
                assert(u[j2] == s[j2]);
            }
        }
    }
}

/// Insertion sort leaves a sequence that is already sorted as it is.
pub proof fn lemma_insertion_of_sorted<A>(cmp: spec_fn(A, A) -> Ordering, s: Seq<A>)
    requires
        sorted_by(cmp, s),
    ensures
        insertion_sort(cmp, s) == s,
    decreases s.len(),
{
    if s.len() > 0 {
        let u = s.drop_last();
        assert(sorted_by(cmp, u)) by {
            assert forall|i: int| 0 <= i < u.len() - 1 implies #[trigger] cmp(u[i], u[i + 1])
                != Ordering::Greater by {
                assert(u[i] == s[i] && u[i + 1] == s[i + 1]);
            }
        }
        lemma_insertion_of_sorted(cmp, u);
        if u.len() > 0 {
            let i = s.len() - 2;
            assert(u.last() == s[i]);
            assert(cmp(s[i], s[i + 1]) != Ordering::Greater);
            assert(s[i + 1] == s.last());
        }
        assert(u.push(s.last()) =~= s);
    }
}

proof fn lemma_path_order_antisymmetric(parent: Seq<Step>)
    ensures
        antisymmetric(entry_order(PathOrder, parent)),
{
    let cmp = entry_order(PathOrder, parent);
    assert forall|a: (Seq<char>, Node), b: (Seq<char>, Node)| #[trigger] cmp(a, b)
        == Ordering::Greater implies cmp(b, a) != Ordering::Greater by {
        lemma_path_order_keys(parent, a, b);
        lemma_path_order_keys(parent, b, a);
        lemma_bytes_cmp_antisym(vstd::utf8::encode_utf8(a.0), vstd::utf8::encode_utf8(b.0));
    }
}

/// An order of entries that looks at paths alone, not at the nodes.
pub open spec fn ignores_nodes<O: KeyOrder>(o: O) -> bool {
    forall|ap: Seq<Step>, av: Node, bp: Seq<Step>, bv: Node, av2: Node, bv2: Node|
        #![trigger o.spec_cmp(ap, av, bp, bv), o.spec_cmp(ap, av2, bp, bv2)]
        o.spec_cmp(ap, av, bp, bv) == o.spec_cmp(ap, av2, bp, bv2)
}

/// An order of entries under which "greater" one way is never "greater"
/// the other way, at every parent path.
pub open spec fn antisymmetric_keys<O: KeyOrder>(o: O) -> bool {
    forall|parent: Seq<Step>| #[trigger] antisymmetric(entry_order(o, parent))
}

/// Entries with the same keys in the same order are sorted alike by an
/// order that ignores nodes.
proof fn lemma_sorted_by_keys<O: KeyOrder>(
    o: O,
    parent: Seq<Step>,
    f: Seq<(Seq<char>, Node)>,
    g: Seq<(Seq<char>, Node)>,
)
    requires
        ignores_nodes(o),
        sorted_by(entry_order(o, parent), f),
        f.len() == g.len(),
        forall|j: int| 0 <= j < f.len() ==> (#[trigger] f[j]).0 == g[j].0,
    ensures
        sorted_by(entry_order(o, parent), g),
{
    let cmp = entry_order(o, parent);
    assert forall|i: int| 0 <= i < g.len() - 1 implies #[trigger] cmp(g[i], g[i + 1])
        != Ordering::Greater by {
        assert(f[i].0 == g[i].0 && f[i + 1].0 == g[i + 1].0);
        let ap = parent.push(Step::Key(f[i].0));
        let bp = parent.push(Step::Key(f[i + 1].0));
        assert(o.spec_cmp(ap, f[i].1, bp, f[i + 1].1) == o.spec_cmp(ap, g[i].1, bp, g[i + 1].1));
        assert(cmp(f[i], f[i + 1]) != Ordering::Greater);
    }
}

/// The default order of entries looks at paths alone and is antisymmetric.
pub proof fn lemma_path_order_laws()
    ensures
        ignores_nodes(PathOrder),
        antisymmetric_keys(PathOrder),
{
    assert forall|parent: Seq<Step>| #[trigger] antisymmetric(entry_order(PathOrder, parent)) by {
        lemma_path_order_antisymmetric(parent);
    }
}

/// What the mutating walk does to the children of an object from the
/// `i`-th on: each is walked in place, keys and order kept.
proof fn lemma_mutate_obj_kids<V: Visitor>(
    v: V,
    f: Seq<(Seq<char>, Node)>,
    p: Seq<Step>,
    d: nat,
    bound: Option<usize>,
    i: nat,
)
    requires
        expands(bound, d),
        i <= f.len(),
    ensures
        mutate_kids(v, Node::Obj(f), p, d, bound, i) == Node::Obj(
            Seq::new(
                f.len(),
                |j: int|
                    if j < i {
                        f[j]
                    } else {
                        (f[j].0, mutate_walk(v, f[j].1, p.push(Step::Key(f[j].0)), d + 1, bound))
                    },
            ),
        ),
    decreases f.len() - i,
{
    let target = Seq::new(
        f.len(),
        |j: int|
            if j < i {
                f[j]
            } else {
                (f[j].0, mutate_walk(v, f[j].1, p.push(Step::Key(f[j].0)), d + 1, bound))
            },
    );
    if i == f.len() {
        assert(target =~= f);
    } else {
        let c2 = mutate_walk(v, f[i as int].1, p.push(Step::Key(f[i as int].0)), d + 1, bound);
        let g = f.update(i as int, (f[i as int].0, c2));
        lemma_mutate_obj_kids(v, g, p, d, bound, i + 1);
        let tg = Seq::new(
            g.len(),
            |j: int|
                if j < i + 1 {
                    g[j]
                } else {
                    (g[j].0, mutate_walk(v, g[j].1, p.push(Step::Key(g[j].0)), d + 1, bound))
                },
        );
        assert(tg =~= target);
    }
}

proof fn lemma_mutate_arr_kids<V: Visitor>(
    v: V,
    a: Seq<Node>,
    p: Seq<Step>,
    d: nat,
    bound: Option<usize>,
    i: nat,
)
    requires
        expands(bound, d),
        i <= a.len(),
    ensures
        mutate_kids(v, Node::Arr(a), p, d, bound, i) == Node::Arr(
            Seq::new(
                a.len(),
                |j: int|
                    if j < i {
                        a[j]
                    } else {
                        mutate_walk(v, a[j], p.push(Step::Pos(j as nat)), d + 1, bound)
                    },
            ),
        ),
    decreases a.len() - i,
{
    let target = Seq::new(
        a.len(),
        |j: int|
            if j < i {
                a[j]
            } else {
                mutate_walk(v, a[j], p.push(Step::Pos(j as nat)), d + 1, bound)
            },
    );
    if i == a.len() {
        assert(target =~= a);
    } else {
        let c2 = mutate_walk(v, a[i as int], p.push(Step::Pos(i)), d + 1, bound);
        let g = a.update(i as int, c2);
        lemma_mutate_arr_kids(v, g, p, d, bound, i + 1);
        let tg = Seq::new(
            g.len(),
            |j: int|
                if j < i + 1 {
                    g[j]
                } else {
                    mutate_walk(v, g[j], p.push(Step::Pos(j as nat)), d + 1, bound)
                },
        );
        assert(tg =~= target);
    }
}

/// What sorting the keys of every object by `o` makes of `n` at `p`, depth `d`.
pub open spec fn sort_all_keys<O: KeyOrder>(o: &O, n: Node, p: Seq<Step>, d: nat) -> Node {
    mutate_walk(SortKeys { order: o }, n, p, d, None)
}

proof fn lemma_sort_keys_twice<O: KeyOrder>(o: &O, n: Node, p: Seq<Step>, d: nat)
    requires
        ignores_nodes(*o),
        antisymmetric_keys(*o),
    ensures
        sort_all_keys(o, sort_all_keys(o, n, p, d), p, d) == sort_all_keys(o, n, p, d),
    decreases n,
{
    let v = SortKeys { order: o };
    match n {
        Node::Obj(e) => {
            let cmp = entry_order(*o, p);
            let f = sorted_entries(*o, p, e);
            assert(antisymmetric(entry_order(*o, p)));
            lemma_insertion_sorted(cmp, e);
            if !expands(None, d) {
                lemma_insertion_of_sorted(cmp, f);
            } else {
                lemma_mutate_obj_kids(v, f, p, d, None, 0);
                let f1 = Seq::new(
                    f.len(),
                    |j: int| (f[j].0, sort_all_keys(o, f[j].1, p.push(Step::Key(f[j].0)), d + 1)),
                );
                assert(Seq::new(
                    f.len(),
                    |j: int|
                        if j < 0 {
                            f[j]
                        } else {
                            (f[j].0, mutate_walk(v, f[j].1, p.push(Step::Key(f[j].0)), d + 1, None))
                        },
                ) =~= f1);
                assert(sort_all_keys(o, n, p, d) == Node::Obj(f1));
                lemma_sorted_by_keys(*o, p, f, f1);
                lemma_insertion_of_sorted(cmp, f1);
                lemma_mutate_obj_kids(v, f1, p, d, None, 0);
                let f2 = Seq::new(
                    f1.len(),
                    |j: int| (f1[j].0, sort_all_keys(o, f1[j].1, p.push(Step::Key(f1[j].0)), d + 1)),
                );
                assert(Seq::new(
                    f1.len(),
                    |j: int|
                        if j < 0 {
                            f1[j]
                        } else {
                            (f1[j].0, mutate_walk(v, f1[j].1, p.push(Step::Key(f1[j].0)), d + 1, None))
                        },
                ) =~= f2);
                assert forall|j: int| 0 <= j < f.len() implies #[trigger] f2[j] == f1[j] by {
                    let k = choose|k: int| 0 <= k < e.len() && #[trigger] f[j] == e[k];
                    assert(decreases_to!(n => e[k].1)) by {
                        assert(decreases_to!(n => n->Obj_0));
                        assert(decreases_to!(n->Obj_0 => n->Obj_0[k]));
                        assert(decreases_to!(n->Obj_0[k] => n->Obj_0[k].1));
                    }
                    lemma_sort_keys_twice(o, e[k].1, p.push(Step::Key(f[j].0)), d + 1);
                }
                assert(f2 =~= f1);
            }
        },
        Node::Arr(a) => {
            if expands(None, d) {
                lemma_mutate_arr_kids(v, a, p, d, None, 0);
                let a1 = Seq::new(a.len(), |j: int| sort_all_keys(o, a[j], p.push(Step::Pos(j as nat)), d + 1));
                assert(Seq::new(
                    a.len(),
                    |j: int|
                        if j < 0 {
                            a[j]
                        } else {
                            mutate_walk(v, a[j], p.push(Step::Pos(j as nat)), d + 1, None)
                        },
                ) =~= a1);
                lemma_mutate_arr_kids(v, a1, p, d, None, 0);
                let a2 = Seq::new(a1.len(), |j: int| sort_all_keys(o, a1[j], p.push(Step::Pos(j as nat)), d + 1));
                assert(Seq::new(
                    a1.len(),
                    |j: int|
                        if j < 0 {
                            a1[j]
                        } else {
                            mutate_walk(v, a1[j], p.push(Step::Pos(j as nat)), d + 1, None)
                        },
                ) =~= a2);
                assert forall|j: int| 0 <= j < a.len() implies #[trigger] a2[j] == a1[j] by {
                    assert(decreases_to!(n => a[j])) by {
                        assert(decreases_to!(n => n->Arr_0));
                        assert(decreases_to!(n->Arr_0 => n->Arr_0[j]));
                    }
                    lemma_sort_keys_twice(o, a[j], p.push(Step::Pos(j as nat)), d + 1);
                }
                assert(a2 =~= a1);
            }
        },
        _ => {},
    }
}

/// Sorting the keys of every object a second time changes nothing, for an
/// order of entries that looks at paths alone and is antisymmetric.
pub proof fn sorted_keys_recursive_is_idempotent<O: KeyOrder>(o: &O, t: Node)
    requires
        ignores_nodes(*o),
        antisymmetric_keys(*o),
    ensures
        sort_all_keys(o, sort_all_keys(o, t, Seq::empty(), 0), Seq::empty(), 0) == sort_all_keys(
            o,
            t,
            Seq::empty(),
            0,
        ),
{
    lemma_sort_keys_twice(o, t, Seq::empty(), 0);
}

/// Sorting the keys of every object by their text a second time changes
/// nothing.
pub proof fn sorted_keys_recursive_by_text_is_idempotent(t: Node)
    ensures
        sort_all_keys(&PathOrder, sort_all_keys(&PathOrder, t, Seq::empty(), 0), Seq::empty(), 0)
            == sort_all_keys(&PathOrder, t, Seq::empty(), 0),
{
    lemma_path_order_laws();
    lemma_sort_keys_twice(&PathOrder, t, Seq::empty(), 0);
}

/// Whether two trees can be united in either order to the same result:
/// where both hold a node at the same path, either one of them is null,
/// both are objects (and their common keys hold such nodes in turn), both
/// are arrays that give the same items joined either way, or they are equal.
pub open spec fn compatible(x: Node, y: Node) -> bool
    decreases x,
{
    if x is Null || y is Null {
        true
    } else {
        match (x, y) {
            (Node::Obj(e), Node::Obj(f)) => forall|i: int|
                0 <= i < e.len() && key_index(f, (#[trigger] e[i]).0) >= 0 ==> compatible(
                    e[i].1,
                    f[key_index(f, e[i].0)].1,
                ),
            (Node::Arr(a), Node::Arr(b)) => a + b == b + a,
            _ => x == y,
        }
    }
}

/// Objects nest fewer than `k` deep.
pub open spec fn fits(n: Node, k: nat) -> bool
    decreases n,
{
    match n {
        Node::Obj(e) => k > 0 && forall|i: int| 0 <= i < e.len() ==> fits(#[trigger] e[i].1, (k - 1) as nat),
        _ => true,
    }
}

pub open spec fn unite(x: Node, y: Node, p: Seq<Step>, d: nat) -> Node {
    merge_walk(UnionRule, x, y, p, d, None)
}

proof fn lemma_key_present(e: Seq<(Seq<char>, Node)>, k: Seq<char>, j: int)
    requires
        0 <= j < e.len(),
        e[j].0 == k,
    ensures
        key_index(e, k) >= 0,
{
    lemma_key_index(e, k);
}

proof fn lemma_key_unique(e: Seq<(Seq<char>, Node)>, j: int)
    requires
        unique_keys(e),
        0 <= j < e.len(),
    ensures
        key_index(e, e[j].0) == j,
{
    assert forall|m: int| 0 <= m < j implies e[m].0 != e[j].0 by {}
    lemma_key_index_first(e, e[j].0, j);
}

proof fn lemma_deep_eq_refl(x: Node)
    requires
        well_formed(x),
    ensures
        deep_eq(x, x),
    decreases x,
{
    match x {
        Node::Obj(e) => {
            assert forall|i: int| 0 <= i < e.len() implies key_index(e, (#[trigger] e[i]).0) >= 0
                && deep_eq(e[i].1, e[key_index(e, e[i].0)].1) by {
                lemma_key_unique(e, i);
                assert(decreases_to!(x => e[i].1)) by {
                    assert(decreases_to!(x => x->Obj_0));
                    assert(decreases_to!(x->Obj_0 => x->Obj_0[i]));
                    assert(decreases_to!(x->Obj_0[i] => x->Obj_0[i].1));
                }
                lemma_deep_eq_refl(e[i].1);
            }
            lemma_entries_deep_eq(e, e, 0);
            assert(keys_covered(e, e));
        },
        Node::Arr(a) => {
            assert forall|i: int| 0 <= i < a.len() implies deep_eq(#[trigger] a[i], a[i]) by {
                assert(decreases_to!(x => a[i])) by {
                    assert(decreases_to!(x => x->Arr_0));
                    assert(decreases_to!(x->Arr_0 => x->Arr_0[i]));
                }
                lemma_deep_eq_refl(a[i]);
            }
            lemma_items_deep_eq(a, a, 0);
        },
        _ => {},
    }
}

/// What `absorb` makes: `e` first, then the keys of `f` that `e` lacks, as
/// nulls; keys stay unique and every key of `f` is there.
pub proof fn lemma_absorb(e: Seq<(Seq<char>, Node)>, f: Seq<(Seq<char>, Node)>)
    requires
        unique_keys(e),
    ensures
        ({
            let g = absorb(e, f);
            &&& g.len() >= e.len()
            &&& forall|j: int| 0 <= j < e.len() ==> #[trigger] g[j] == e[j]
            &&& forall|j: int|
                e.len() <= j < g.len() ==> (#[trigger] g[j]).1 == Node::Null && key_index(e, g[j].0)
                    < 0 && key_index(f, g[j].0) >= 0
            &&& unique_keys(g)
            &&& forall|t: int| 0 <= t < f.len() ==> key_index(g, (#[trigger] f[t]).0) >= 0
        }),
    decreases f.len(),
{
    if f.len() > 0 {
        let f0 = f.drop_last();
        lemma_absorb(e, f0);
        let g0 = absorb(e, f0);
        let k = f.last().0;
        let g = absorb(e, f);
        assert(g == absorb_one(g0, k));
        lemma_key_index(g0, k);
        lemma_key_present(f, k, f.len() - 1);
        assert forall|j: int| e.len() <= j < g0.len() implies key_index(f, (#[trigger] g0[j]).0) >= 0 by {
            lemma_key_index(f0, g0[j].0);
            let t = key_index(f0, g0[j].0);
            lemma_key_present(f, g0[j].0, t);
        }
        if key_index(g0, k) < 0 {
            assert(g == g0.push((k, Node::Null)));
            assert(key_index(e, k) < 0) by {
                lemma_key_index(e, k);
                if key_index(e, k) >= 0 {
                    lemma_key_present(g0, k, key_index(e, k));
                }
            }
            assert forall|j: int| 0 <= j < e.len() implies #[trigger] g[j] == e[j] by {
                assert(g[j] == g0[j]);
            }
            assert forall|j: int| e.len() <= j < g.len() implies (#[trigger] g[j]).1 == Node::Null
                && key_index(e, g[j].0) < 0 && key_index(f, g[j].0) >= 0 by {
                if j < g0.len() {
                    assert(g[j] == g0[j]);
                }
            }
            assert(unique_keys(g)) by {
                assert forall|a: int, b: int| 0 <= a < b < g.len() implies g[a].0 != g[b].0 by {
                    if b < g0.len() {
                        assert(g[a] == g0[a] && g[b] == g0[b]);
                    } else {
                        assert(g[a] == g0[a]);
                    }
                }
            }
            assert forall|t: int| 0 <= t < f.len() implies key_index(g, (#[trigger] f[t]).0) >= 0 by {
                if t < f.len() - 1 {
                    assert(f[t] == f0[t]);
                    lemma_key_index(g0, f[t].0);
                    lemma_key_present(g, f[t].0, key_index(g0, f[t].0));
                } else {
                    lemma_key_present(g, k, g0.len() as int);
                }
            }
        } else {
            assert forall|t: int| 0 <= t < f.len() implies key_index(g, (#[trigger] f[t]).0) >= 0 by {
                if t < f.len() - 1 {
                    assert(f[t] == f0[t]);
                }
            }
        }
    }
}

/// The children of a donor object `f`, from the `i`-th on, united into a
/// receiving object `g` that already holds all of `f`'s keys.
proof fn lemma_union_kids(g: Seq<(Seq<char>, Node)>, f: Seq<(Seq<char>, Node)>, p: Seq<Step>, d: nat, i: nat)
    requires
        unique_keys(g),
        unique_keys(f),
        forall|t: int| 0 <= t < f.len() ==> key_index(g, (#[trigger] f[t]).0) >= 0,
        i <= f.len(),
    ensures
        merge_kids(UnionRule, Node::Obj(g), Node::Obj(f), p, d, None, i) == Node::Obj(
            Seq::new(
                g.len(),
                |j: int|
                    (
                        g[j].0,
                        if key_index(f, g[j].0) >= i {
                            unite(g[j].1, f[key_index(f, g[j].0)].1, p.push(Step::Key(g[j].0)), d + 1)
                        } else {
                            g[j].1
                        },
                    ),
            ),
        ),
    decreases f.len() - i,
{
    let target = Seq::new(
        g.len(),
        |j: int|
            (
                g[j].0,
                if key_index(f, g[j].0) >= i {
                    unite(g[j].1, f[key_index(f, g[j].0)].1, p.push(Step::Key(g[j].0)), d + 1)
                } else {
                    g[j].1
                },
            ),
    );
    if i == f.len() {
        assert forall|j: int| 0 <= j < g.len() implies #[trigger] target[j] == g[j] by {
            lemma_key_index(f, g[j].0);
        }
        assert(target =~= g);
    } else {
        let k = f[i as int].0;
        let s = Step::Key(k);
        let jj = key_index(g, k);
        lemma_key_index(g, k);
        lemma_key_unique(f, i as int);
        let new = unite(g[jj].1, f[i as int].1, p.push(s), d + 1);
        let g2 = g.update(jj, (g[jj].0, new));
        assert(child(Node::Obj(g), s) == Some(g[jj].1));
        assert(set_child(Node::Obj(g), s, new) == Node::Obj(g2));
        assert(unique_keys(g2)) by {
            assert forall|a: int, b: int| 0 <= a < b < g2.len() implies g2[a].0 != g2[b].0 by {
                assert(g2[a].0 == g[a].0 && g2[b].0 == g[b].0);
            }
        }
        assert forall|t: int| 0 <= t < f.len() implies key_index(g2, (#[trigger] f[t]).0) >= 0 by {
            lemma_key_index(g, f[t].0);
            lemma_key_present(g2, f[t].0, key_index(g, f[t].0));
        }
        lemma_union_kids(g2, f, p, d, i + 1);
        let t2 = Seq::new(
            g2.len(),
            |j: int|
                (
                    g2[j].0,
                    if key_index(f, g2[j].0) >= i + 1 {
                        unite(g2[j].1, f[key_index(f, g2[j].0)].1, p.push(Step::Key(g2[j].0)), d + 1)
                    } else {
                        g2[j].1
                    },
                ),
        );
        assert forall|j: int| 0 <= j < g.len() implies #[trigger] t2[j] == target[j] by {
            if j == jj {
                assert(g[j].0 == k);
            } else {
                assert(g2[j] == g[j]);
                if key_index(f, g[j].0) == i {
                    lemma_key_index(f, g[j].0);
                    assert(g[j].0 == g[jj].0);
                }
            }
        }
        assert(t2 =~= target);
    }
}

proof fn lemma_unite_null_left(y: Node, p: Seq<Step>, d: nat)
    ensures
        unite(Node::Null, y, p, d) == y,
{
}

/// The entries of the union of two objects, key by key.
proof fn lemma_unite_objects(e: Seq<(Seq<char>, Node)>, f: Seq<(Seq<char>, Node)>, p: Seq<Step>, d: nat)
    requires
        unique_keys(e),
        unique_keys(f),
        expands(None, d),
    ensures
        ({
            let g = absorb(e, f);
            unite(Node::Obj(e), Node::Obj(f), p, d) == Node::Obj(
                Seq::new(
                    g.len(),
                    |j: int|
                        (
                            g[j].0,
                            if key_index(f, g[j].0) >= 0 {
                                unite(g[j].1, f[key_index(f, g[j].0)].1, p.push(Step::Key(g[j].0)), d + 1)
                            } else {
                                g[j].1
                            },
                        ),
                ),
            )
        }),
{
    lemma_absorb(e, f);
    assert(union_rule(Node::Obj(e), Node::Obj(f)) == (Node::Obj(absorb(e, f)), true));
    lemma_union_kids(absorb(e, f), f, p, d, 0);
}

proof fn lemma_unite_commutes(x: Node, y: Node, p: Seq<Step>, d: nat)
    requires
        well_formed(x),
        well_formed(y),
        compatible(x, y),
        d <= usize::MAX,
        fits(x, (usize::MAX - d) as nat),
        fits(y, (usize::MAX - d) as nat),
    ensures
        deep_eq(unite(x, y, p, d), unite(y, x, p, d)),
    decreases x,
{
    if x is Null {
        lemma_deep_eq_refl(y);
    } else if y is Null {
        lemma_deep_eq_refl(x);
    } else {
        match (x, y) {
            (Node::Obj(e), Node::Obj(f)) => {
                assert(expands(None, d));
                lemma_unite_objects(e, f, p, d);
                lemma_unite_objects(f, e, p, d);
                lemma_absorb(e, f);
                lemma_absorb(f, e);
                let g1 = absorb(e, f);
                let g2 = absorb(f, e);
                let x1 = Seq::new(
                    g1.len(),
                    |j: int|
                        (
                            g1[j].0,
                            if key_index(f, g1[j].0) >= 0 {
                                unite(g1[j].1, f[key_index(f, g1[j].0)].1, p.push(Step::Key(g1[j].0)), d + 1)
                            } else {
                                g1[j].1
                            },
                        ),
                );
                let y1 = Seq::new(
                    g2.len(),
                    |j: int|
                        (
                            g2[j].0,
                            if key_index(e, g2[j].0) >= 0 {
                                unite(g2[j].1, e[key_index(e, g2[j].0)].1, p.push(Step::Key(g2[j].0)), d + 1)
                            } else {
                                g2[j].1
                            },
                        ),
                );
                assert(unite(x, y, p, d) == Node::Obj(x1));
                assert(unite(y, x, p, d) == Node::Obj(y1));
                assert forall|i: int| 0 <= i < x1.len() implies key_index(y1, (#[trigger] x1[i]).0)
                    >= 0 && deep_eq(x1[i].1, y1[key_index(y1, x1[i].0)].1) by {
                    let k = g1[i].0;
                    let ie = key_index(e, k);
                    let jf = key_index(f, k);
                    lemma_key_index(e, k);
                    lemma_key_index(f, k);
                    // where `k` stands in the other union
                    let j2 = if jf >= 0 {
                        jf
                    } else {
                        key_index(g2, e[ie].0)
                    };
                    if jf < 0 {
                        assert(i < e.len());
                        lemma_key_index(g2, k);
                    }
                    assert(0 <= j2 < y1.len() && y1[j2].0 == k) by {
                        if jf >= 0 {
                            assert(g2[jf] == f[jf]);
                        } else {
                            assert(e[ie] == e[i]) by {
                                lemma_key_unique(e, i);
                            }
                        }
                    }
                    assert forall|a: int, b: int| 0 <= a < b < y1.len() implies y1[a].0 != y1[b].0 by {}
                    lemma_key_unique(y1, j2);
                    lemma_key_present(y1, k, j2);
                    if ie >= 0 && jf >= 0 {
                        lemma_key_unique(e, ie);
                        assert(i < e.len()) by {
                            if i >= e.len() {
                                assert(key_index(e, g1[i].0) < 0);
                            }
                        }
                        lemma_key_unique(e, i);
                        assert(i == ie);
                        assert(g1[i] == e[ie]);
                        assert(g2[jf] == f[jf]);
                        lemma_key_unique(f, jf);
                        assert(compatible(e[ie].1, f[jf].1));
                        assert(decreases_to!(x => e[ie].1)) by {
                            assert(decreases_to!(x => x->Obj_0));
                            assert(decreases_to!(x->Obj_0 => x->Obj_0[ie]));
                            assert(decreases_to!(x->Obj_0[ie] => x->Obj_0[ie].1));
                        }
                        lemma_unite_commutes(e[ie].1, f[jf].1, p.push(Step::Key(k)), d + 1);
                    } else if ie >= 0 {
                        assert(i < e.len()) by {
                            if i >= e.len() {
                                assert(key_index(e, g1[i].0) < 0);
                            }
                        }
                        lemma_key_unique(e, i);
                        assert(x1[i].1 == e[i].1);
                        assert(g2[j2].1 == Node::Null);
                        assert(y1[j2].1 == unite(Node::Null, e[ie].1, p.push(Step::Key(k)), d + 1));
                        lemma_unite_null_left(e[ie].1, p.push(Step::Key(k)), d + 1);
                        lemma_deep_eq_refl(e[i].1);
                    } else {
                        assert(i >= e.len()) by {
                            if i < e.len() {
                                lemma_key_present(e, k, i);
                            }
                        }
                        assert(g1[i].1 == Node::Null);
                        lemma_unite_null_left(f[jf].1, p.push(Step::Key(k)), d + 1);
                        assert(g2[jf] == f[jf]);
                        assert(y1[jf].1 == f[jf].1);
                        lemma_deep_eq_refl(f[jf].1);
                    }
                }
                assert forall|j: int| 0 <= j < y1.len() implies key_index(x1, (#[trigger] y1[j]).0)
                    >= 0 by {
                    let k = g2[j].0;
                    if j < f.len() {
                        lemma_key_index(g1, f[j].0);
                        lemma_key_present(x1, k, key_index(g1, f[j].0));
                    } else {
                        lemma_key_index(e, k);
                        assert(e[key_index(e, k)].0 == k);
                        lemma_key_present(x1, k, key_index(e, k));
                    }
                }
                lemma_entries_deep_eq(x1, y1, 0);
            },
            (Node::Arr(a), Node::Arr(b)) => {
                lemma_deep_eq_refl(Node::Arr(a + b));
            },
            _ => {
                lemma_deep_eq_refl(x);
            },
        }
    }
}

/// The entries of `e` with every value null.
pub open spec fn null_entries(e: Seq<(Seq<char>, Node)>) -> Seq<(Seq<char>, Node)> {
    Seq::new(e.len(), |j: int| (e[j].0, Node::Null))
}

proof fn lemma_absorb_into_empty(e: Seq<(Seq<char>, Node)>)
    requires
        unique_keys(e),
    ensures
        absorb(Seq::empty(), e) == null_entries(e),
    decreases e.len(),
{
    if e.len() > 0 {
        let e0 = e.drop_last();
        assert(unique_keys(e0)) by {
            assert forall|a: int, b: int| 0 <= a < b < e0.len() implies e0[a].0 != e0[b].0 by {
                assert(e0[a] == e[a] && e0[b] == e[b]);
            }
        }
        lemma_absorb_into_empty(e0);
        let k = e.last().0;
        let n0 = null_entries(e0);
        lemma_key_index(n0, k);
        if key_index(n0, k) >= 0 {
            let t = key_index(n0, k);
            assert(e[t].0 == e[e.len() - 1].0);
        }
        assert(n0.push((k, Node::Null)) =~= null_entries(e));
    }
}

/// Uniting a tree into an empty object gives the tree if it is an object,
/// and the empty object otherwise.
proof fn lemma_unite_into_empty(a: Node)
    requires
        well_formed(a),
    ensures
        unite(Node::Obj(Seq::empty()), a, Seq::empty(), 0) == if a is Obj {
            a
        } else {
            Node::Obj(Seq::empty())
        },
{
    match a {
        Node::Obj(e) => {
            assert(unique_keys(Seq::<(Seq<char>, Node)>::empty()));
            lemma_unite_objects(Seq::empty(), e, Seq::empty(), 0);
            lemma_absorb_into_empty(e);
            let g = absorb(Seq::empty(), e);
            let r = Seq::new(
                g.len(),
                |j: int|
                    (
                        g[j].0,
                        if key_index(e, g[j].0) >= 0 {
                            unite(g[j].1, e[key_index(e, g[j].0)].1, Seq::empty().push(Step::Key(g[j].0)), 1)
                        } else {
                            g[j].1
                        },
                    ),
            );
            assert forall|j: int| 0 <= j < e.len() implies #[trigger] r[j] == e[j] by {
                lemma_key_unique(e, j);
                lemma_unite_null_left(e[j].1, Seq::empty().push(Step::Key(e[j].0)), 1);
            }
            assert(r =~= e);
        },
        _ => {},
    }
}

/// Uniting two trees into an empty object gives the same tree, up to the
/// order of keys, in either order, when the trees are compatible (where
/// both hold a node at the same path, one is null, both are objects, both
/// are arrays that join to the same items either way, or the two are
/// equal), their objects have unique keys, and their objects nest fewer
/// than `usize::MAX` deep.
pub proof fn union_all_commutes(a: Node, b: Node)
    requires
        well_formed(a),
        well_formed(b),
        compatible(a, b),
        fits(a, usize::MAX as nat),
        fits(b, usize::MAX as nat),
    ensures
        deep_eq(
            fold_merge(UnionRule, Node::Obj(Seq::empty()), seq![a, b]),
            fold_merge(UnionRule, Node::Obj(Seq::empty()), seq![b, a]),
        ),
{
    let empty = Node::Obj(Seq::<(Seq<char>, Node)>::empty());
    assert(seq![a, b].drop_last() =~= seq![a]);
    assert(seq![b, a].drop_last() =~= seq![b]);
    assert(seq![a].drop_last() =~= Seq::<Node>::empty());
    assert(seq![b].drop_last() =~= Seq::<Node>::empty());
    assert(fold_merge(UnionRule, empty, Seq::<Node>::empty()) == empty);
    assert(seq![a].last() == a && seq![b].last() == b);
    assert(fold_merge(UnionRule, empty, seq![a]) == unite(empty, a, Seq::empty(), 0));
    assert(fold_merge(UnionRule, empty, seq![b]) == unite(empty, b, Seq::empty(), 0));
    assert(fold_merge(UnionRule, empty, seq![a, b]) == unite(
        unite(empty, a, Seq::empty(), 0),
        b,
        Seq::empty(),
        0,
    ));
    assert(fold_merge(UnionRule, empty, seq![b, a]) == unite(
        unite(empty, b, Seq::empty(), 0),
        a,
        Seq::empty(),
        0,
    ));
    lemma_unite_into_empty(a);
    lemma_unite_into_empty(b);
    if a is Obj && b is Obj {
        lemma_unite_commutes(a, b, Seq::empty(), 0);
    } else if a is Obj {
        lemma_deep_eq_refl(a);
    } else if b is Obj {
        lemma_deep_eq_refl(b);
    } else {
        lemma_deep_eq_refl(empty);
    }
}

/// The part of the walk that a pending entry still owes: the walk of the
/// node that its path names, from the entry's depth.
pub open spec fn owed(t: Node, bound: Option<usize>, e: Entry) -> Seq<(Seq<Step>, Node)> {
    match resolve(t, e.1) {
        Some(n) => walk(n, e.1, e.0, bound),
        None => seq![(e.1, Node::Null)],
    }
}

/// What a stack of pending entries still owes, top (last) entry first.
pub open spec fn pending(t: Node, bound: Option<usize>, q: Seq<Entry>) -> Seq<(Seq<Step>, Node)>
    decreases q.len(),
{
    if q.len() == 0 {
        Seq::empty()
    } else {
        owed(t, bound, q.last()) + pending(t, bound, q.drop_last())
    }
}

proof fn lemma_pending_concat(t: Node, bound: Option<usize>, q1: Seq<Entry>, q2: Seq<Entry>)
    ensures
        pending(t, bound, q1 + q2) == pending(t, bound, q2) + pending(t, bound, q1),
    decreases q2.len(),
{
    if q2.len() == 0 {
        assert(q1 + q2 =~= q1);
        assert(Seq::<(Seq<Step>, Node)>::empty() + pending(t, bound, q1) =~= pending(t, bound, q1));
    } else {
        assert((q1 + q2).last() == q2.last());
        assert((q1 + q2).drop_last() =~= q1 + q2.drop_last());
        lemma_pending_concat(t, bound, q1, q2.drop_last());
        assert(pending(t, bound, q1 + q2) =~= pending(t, bound, q2) + pending(t, bound, q1));
    }
}

proof fn lemma_resolve_push(t: Node, p: Seq<Step>, s: Step)
    ensures
        resolve(t, p.push(s)) == match resolve(t, p) {
            Some(n) => child(n, s),
            None => None,
        },
    decreases p.len(),
{
    if p.len() == 0 {
        assert(p.push(s) =~= seq![s]);
        assert(seq![s].drop_first() =~= Seq::<Step>::empty());
        assert(seq![s][0] == s);
        assert(resolve(t, p) == Some(t));
        match child(t, s) {
            Some(c) => {
                assert(resolve(c, Seq::<Step>::empty()) == Some(c));
            },
            None => {},
        }
    } else {
        assert(p.push(s)[0] == p[0]);
        assert(p.push(s).drop_first() =~= p.drop_first().push(s));
        match child(t, p[0]) {
            Some(c) => lemma_resolve_push(c, p.drop_first(), s),
            None => {},
        }
    }
}

pub proof fn lemma_resolve_well_formed(t: Node, p: Seq<Step>)
    requires
        well_formed(t),
        resolve(t, p) is Some,
    ensures
        well_formed(resolve(t, p)->0),
    decreases p.len(),
{
    if p.len() > 0 {
        let c = child(t, p[0])->0;
        match (t, p[0]) {
            (Node::Obj(e), Step::Key(k)) => {
                lemma_key_index(e, k);
            },
            _ => {},
        }
        assert(well_formed(c));
        lemma_resolve_well_formed(c, p.drop_first());
    }
}

/// The entries queued for the children of `n` from the `i`-th on, last first.
pub open spec fn kid_entries(n: Node, p: Seq<Step>, d: nat, i: nat) -> Seq<Entry> {
    let s = child_steps(n);
    Seq::new((s.len() - i) as nat, |x: int| ((d + 1) as nat, p.push(s[s.len() - 1 - x])))
}

proof fn lemma_kid_entries_owe(t: Node, bound: Option<usize>, n: Node, p: Seq<Step>, d: nat, i: nat)
    requires
        well_formed(n),
        resolve(t, p) == Some(n),
        i <= kids_len(n),
    ensures
        pending(t, bound, kid_entries(n, p, d, i)) == walk_kids(n, p, d, bound, i),
        forall|x: int| 0 <= x < kid_entries(n, p, d, i).len() ==> resolve(t, (#[trigger] kid_entries(n, p, d, i)[x]).1) is Some,
    decreases kids_len(n) - i,
{
    let q = kid_entries(n, p, d, i);
    assert(child_steps(n).len() == kids_len(n));
    if i == kids_len(n) {
        assert(q =~= Seq::<Entry>::empty());
    } else {
        let s = kid(n, i as int).0;
        assert(child_steps(n)[i as int] == s);
        assert(q.last() == ((d + 1) as nat, p.push(s)));
        assert(q.drop_last() =~= kid_entries(n, p, d, i + 1));
        lemma_kid(n, i as int);
        lemma_resolve_push(t, p, s);
        lemma_kid_entries_owe(t, bound, n, p, d, i + 1);
        assert(owed(t, bound, q.last()) == walk(kid(n, i as int).1, p.push(s), d + 1, bound));
        assert forall|x: int| 0 <= x < q.len() implies resolve(t, (#[trigger] q[x]).1) is Some by {
            if x < q.len() - 1 {
                assert(q[x] == kid_entries(n, p, d, i + 1)[x]);
            }
        }
    }
}

/// One step of the traverser, without a visit bound, over a tree whose
/// objects have unique keys: it returns the path of the first pair that the
/// pending entries owe, and afterwards they owe the rest of it.
pub proof fn traverser_step_follows_walk(
    t: Node,
    depth: Option<usize>,
    q: Seq<Entry>,
    visited: nat,
    q2: Seq<Entry>,
    visited2: nat,
    r: Option<Seq<Step>>,
)
    requires
        well_formed(t),
        forall|x: int| 0 <= x < q.len() ==> resolve(t, (#[trigger] q[x]).1) is Some,
        step_spec(q, depth, None, visited, t, q2, visited2, r),
    ensures
        q.len() == 0 ==> r is None && pending(t, depth, q) == Seq::<(Seq<Step>, Node)>::empty(),
        q.len() > 0 ==> r == Some(pending(t, depth, q)[0].0) && pending(t, depth, q2) == pending(
            t,
            depth,
            q,
        ).drop_first(),
        forall|x: int| 0 <= x < q2.len() ==> resolve(t, (#[trigger] q2[x]).1) is Some,
{
    if q.len() > 0 {
        let (d, p) = q.last();
        let rest = q.drop_last();
        assert(resolve(t, q[q.len() - 1].1) is Some);
        let n = resolve(t, p)->0;
        lemma_resolve_well_formed(t, p);
        let w = walk(n, p, d, depth);
        let kids = if expands(depth, d) {
            walk_kids(n, p, d, depth, 0)
        } else {
            Seq::empty()
        };
        assert(w == seq![(p, n)] + kids);
        assert(pending(t, depth, q) == w + pending(t, depth, rest));
        assert(pending(t, depth, q)[0] == (p, n));
        assert forall|x: int| 0 <= x < rest.len() implies resolve(t, (#[trigger] rest[x]).1) is Some by {
            assert(rest[x] == q[x]);
        }
        if expands(depth, d) {
            let ce = child_entries(resolve(t, p), d, p);
            assert(ce =~= kid_entries(n, p, d, 0));
            lemma_kid_entries_owe(t, depth, n, p, d, 0);
            lemma_pending_concat(t, depth, rest, ce);
            assert(pending(t, depth, q2) =~= pending(t, depth, q).drop_first());
            assert forall|x: int| 0 <= x < q2.len() implies resolve(t, (#[trigger] q2[x]).1) is Some by {
                if x < rest.len() {
                    assert(q2[x] == rest[x]);
                } else {
                    assert(q2[x] == ce[x - rest.len()]);
                }
            }
        } else {
            assert(pending(t, depth, q2) =~= pending(t, depth, q).drop_first());
        }
    }
}

/// A fresh traverser owes exactly the walk of the whole tree.
pub proof fn fresh_traverser_owes_walk(t: Node, depth: Option<usize>)
    ensures
        pending(t, depth, seq![(0nat, Seq::<Step>::empty())]) == walk(t, Seq::empty(), 0, depth),
{
    let q = seq![(0nat, Seq::<Step>::empty())];
    assert(q.drop_last() =~= Seq::<Entry>::empty());
    assert(resolve(t, Seq::<Step>::empty()) == Some(t));
    assert(q.last() == (0nat, Seq::<Step>::empty()));
    assert(pending(t, depth, Seq::<Entry>::empty()) == Seq::<(Seq<Step>, Node)>::empty());
    assert(owed(t, depth, q.last()) == walk(t, Seq::empty(), 0, depth));
    assert(pending(t, depth, q) =~= walk(t, Seq::empty(), 0, depth) + Seq::empty());
}

/// `n` with one more child, an empty object: under key `k` for an object,
/// at the end of an array; other nodes as they are.
pub open spec fn grown(n: Node, k: Seq<char>) -> Node {
    match n {
        Node::Obj(e) => Node::Obj(e.push((k, Node::Obj(Seq::empty())))),
        Node::Arr(a) => Node::Arr(a.push(Node::Obj(Seq::empty()))),
        _ => n,
    }
}

/// `m` empty objects nested one in the other under key `k`, below an empty
/// object at the bottom.
pub open spec fn chain(k: Seq<char>, m: nat) -> Node
    decreases m,
{
    if m == 0 {
        Node::Obj(Seq::empty())
    } else {
        Node::Obj(seq![(k, chain(k, (m - 1) as nat))])
    }
}

proof fn lemma_growth_chain<V: Visitor>(v: V, k: Seq<char>, p: Seq<Step>, d: nat, depth: usize)
    requires
        forall|q: Seq<Step>, n: Node| #[trigger] visited(v, q, n) == grown(n, k),
        d <= depth,
    ensures
        mutate_walk(v, Node::Obj(Seq::empty()), p, d, Some(depth)) == chain(k, (depth + 1 - d) as nat),
    decreases depth - d,
{
    let empty = Node::Obj(Seq::<(Seq<char>, Node)>::empty());
    let m = visited(v, p, empty);
    assert(m == Node::Obj(seq![(k, empty)])) by {
        assert(Seq::<(Seq<char>, Node)>::empty().push((k, empty)) =~= seq![(k, empty)]);
    }
    assert(chain(k, 0) == empty);
    if expands(Some(depth), d) {
        lemma_growth_chain(v, k, p.push(Step::Key(k)), d + 1, depth);
        let c2 = mutate_walk(v, empty, p.push(Step::Key(k)), d + 1, Some(depth));
        assert(kid(m, 0) == (Step::Key(k), empty));
        let m2 = set_kid(m, 0, c2);
        assert(m2 == Node::Obj(seq![(k, c2)])) by {
            assert(seq![(k, empty)].update(0, (k, c2)) =~= seq![(k, c2)]);
        }
        assert(mutate_kids(v, m2, p, d, Some(depth), 1) == m2);
        assert(mutate_kids(v, m, p, d, Some(depth), 0) == m2);
    } else {
        assert(d == depth);
    }
}

/// A mutating pass with depth bound `depth` whose visitor gives every object
/// and array one more child, an empty object, turns an empty object into a
/// chain of `depth + 1` new objects, one inside the other: each node down to
/// the bound is visited and grows, and the pass stops at the bound.
pub proof fn bounded_growth_builds_chain<V: Visitor>(v: V, k: Seq<char>, depth: usize)
    requires
        forall|q: Seq<Step>, n: Node| #[trigger] visited(v, q, n) == grown(n, k),
    ensures
        mutate_walk(v, Node::Obj(Seq::empty()), Seq::empty(), 0, Some(depth)) == chain(
            k,
            (depth + 1) as nat,
        ),
{
    lemma_growth_chain(v, k, Seq::empty(), 0, depth);
}

/// Sorting the keys of an object by an antisymmetric order of entries puts
/// them in order, keeps their number and brings in no entry that was not
/// there.
pub proof fn sorted_keys_are_in_order<O: KeyOrder>(o: O, parent: Seq<Step>, e: Seq<(Seq<char>, Node)>)
    requires
        antisymmetric(entry_order(o, parent)),
    ensures
        sorted_by(entry_order(o, parent), sorted_entries(o, parent, e)),
        sorted_entries(o, parent, e).len() == e.len(),
        forall|i: int|
            0 <= i < e.len() ==> exists|j: int|
                0 <= j < e.len() && #[trigger] sorted_entries(o, parent, e)[i] == e[j],
{
    lemma_insertion_sorted(entry_order(o, parent), e);
}

/// A mutating pass with depth bound `depth` whose visitor gives every object
/// and array one more child, an empty object, adds below each object at
/// depth `d` (down to the bound) a chain of `depth - d` new objects, and
/// walks the old children in place, one level down; at the bound the old
/// children are left as they are.
pub proof fn bounded_growth_adds_chain_under_objects<V: Visitor>(
    v: V,
    k: Seq<char>,
    e: Seq<(Seq<char>, Node)>,
    p: Seq<Step>,
    d: nat,
    depth: usize,
)
    requires
        forall|q: Seq<Step>, n: Node| #[trigger] visited(v, q, n) == grown(n, k),
        d <= depth,
    ensures
        ({
            let r = mutate_walk(v, Node::Obj(e), p, d, Some(depth));
            &&& r is Obj
            &&& r->Obj_0.len() == e.len() + 1
            &&& r->Obj_0[e.len() as int] == (k, chain(k, (depth - d) as nat))
            &&& forall|j: int|
                0 <= j < e.len() ==> (#[trigger] r->Obj_0[j]).0 == e[j].0 && r->Obj_0[j].1 == if d
                    < depth {
                    mutate_walk(v, e[j].1, p.push(Step::Key(e[j].0)), d + 1, Some(depth))
                } else {
                    e[j].1
                }
        }),
{
    let empty = Node::Obj(Seq::<(Seq<char>, Node)>::empty());
    let g = e.push((k, empty));
    assert(visited(v, p, Node::Obj(e)) == Node::Obj(g));
    assert(chain(k, 0) == empty);
    if expands(Some(depth), d) {
        lemma_mutate_obj_kids(v, g, p, d, Some(depth), 0);
        let r = Seq::new(
            g.len(),
            |j: int|
                if j < 0 {
                    g[j]
                } else {
                    (g[j].0, mutate_walk(v, g[j].1, p.push(Step::Key(g[j].0)), d + 1, Some(depth)))
                },
        );
        assert(mutate_walk(v, Node::Obj(e), p, d, Some(depth)) == Node::Obj(r));
        lemma_growth_chain(v, k, p.push(Step::Key(k)), d + 1, depth);
        assert(r[e.len() as int] == (k, chain(k, (depth - d) as nat)));
        assert forall|j: int| 0 <= j < e.len() implies (#[trigger] r[j]).0 == e[j].0 && r[j].1
            == mutate_walk(v, e[j].1, p.push(Step::Key(e[j].0)), d + 1, Some(depth)) by {
            assert(g[j] == e[j]);
        }
    } else {
        assert(d == depth);
        assert forall|j: int| 0 <= j < e.len() implies (#[trigger] g[j]).0 == e[j].0 && g[j].1
            == e[j].1 by {}
    }
}

/// The same for arrays: the new empty object comes last and grows into a
/// chain of `depth - d` new objects.
pub proof fn bounded_growth_adds_chain_under_arrays<V: Visitor>(
    v: V,
    k: Seq<char>,
    a: Seq<Node>,
    p: Seq<Step>,
    d: nat,
    depth: usize,
)
    requires
        forall|q: Seq<Step>, n: Node| #[trigger] visited(v, q, n) == grown(n, k),
        d <= depth,
    ensures
        ({
            let r = mutate_walk(v, Node::Arr(a), p, d, Some(depth));
            &&& r is Arr
            &&& r->Arr_0.len() == a.len() + 1
            &&& r->Arr_0[a.len() as int] == chain(k, (depth - d) as nat)
            &&& forall|j: int|
                0 <= j < a.len() ==> #[trigger] r->Arr_0[j] == if d < depth {
                    mutate_walk(v, a[j], p.push(Step::Pos(j as nat)), d + 1, Some(depth))
                } else {
                    a[j]
                }
        }),
{
    let empty = Node::Obj(Seq::<(Seq<char>, Node)>::empty());
    let g = a.push(empty);
    assert(visited(v, p, Node::Arr(a)) == Node::Arr(g));
    assert(chain(k, 0) == empty);
    if expands(Some(depth), d) {
        lemma_mutate_arr_kids(v, g, p, d, Some(depth), 0);
        let r = Seq::new(
            g.len(),
            |j: int|
                if j < 0 {
                    g[j]
                } else {
                    mutate_walk(v, g[j], p.push(Step::Pos(j as nat)), d + 1, Some(depth))
                },
        );
        assert(mutate_walk(v, Node::Arr(a), p, d, Some(depth)) == Node::Arr(r));
        lemma_growth_chain(v, k, p.push(Step::Pos(a.len() as nat)), d + 1, depth);
        assert(r[a.len() as int] == chain(k, (depth - d) as nat));
        assert forall|j: int| 0 <= j < a.len() implies #[trigger] r[j] == mutate_walk(
            v,
            a[j],
            p.push(Step::Pos(j as nat)),
            d + 1,
            Some(depth),
        ) by {
            assert(g[j] == a[j]);
        }
    } else {
        assert(d == depth);
        assert forall|j: int| 0 <= j < a.len() implies #[trigger] g[j] == a[j] by {}
    }
}

/// Storing the node that a path already names changes nothing.
proof fn lemma_update_same(t: Node, p: Seq<Step>)
    requires
        resolve(t, p) is Some,
    ensures
        update(t, p, resolve(t, p)->0) == t,
    decreases p.len(),
{
    if p.len() > 0 {
        let c = child(t, p[0])->0;
        lemma_update_same(c, p.drop_first());
        match (t, p[0]) {
            (Node::Arr(a), Step::Pos(i)) => {
                assert(a.update(i as int, c) =~= a);
            },
            (Node::Obj(e), Step::Key(k)) => {
                lemma_key_index(e, k);
                let j = key_index(e, k);
                assert(e.update(j, (e[j].0, c)) =~= e);
            },
            _ => {},
        }
    }
}

/// After storing `x` at a path that names a node, the path names `x`, and
/// storing again replaces the first store.
proof fn lemma_update_twice(t: Node, p: Seq<Step>, x: Node, y: Node)
    requires
        resolve(t, p) is Some,
    ensures
        resolve(update(t, p, x), p) == Some(x),
        update(update(t, p, x), p, y) == update(t, p, y),
    decreases p.len(),
{
    if p.len() > 0 {
        let c = child(t, p[0])->0;
        lemma_update_twice(c, p.drop_first(), x, y);
        match (t, p[0]) {
            (Node::Arr(a), Step::Pos(i)) => {
                let a1 = a.update(i as int, update(c, p.drop_first(), x));
                assert(a1.update(i as int, update(update(c, p.drop_first(), x), p.drop_first(), y))
                    =~= a.update(i as int, update(c, p.drop_first(), y)));
            },
            (Node::Obj(e), Step::Key(k)) => {
                lemma_key_index(e, k);
                let j = key_index(e, k);
                let e1 = e.update(j, (e[j].0, update(c, p.drop_first(), x)));
                assert forall|m: int| 0 <= m < j implies e1[m].0 != k by {}
                lemma_key_index_first(e1, k, j);
                assert(e1.update(j, (e1[j].0, update(update(c, p.drop_first(), x), p.drop_first(), y)))
                    =~= e.update(j, (e[j].0, update(c, p.drop_first(), y))));
            },
            _ => {},
        }
    }
}

/// Storing at a child of the node at `p` is storing at `p` that node with
/// the child replaced.
proof fn lemma_update_push(t: Node, p: Seq<Step>, s: Step, x: Node)
    requires
        resolve(t, p) is Some,
        child(resolve(t, p)->0, s) is Some,
    ensures
        update(t, p.push(s), x) == update(t, p, set_child(resolve(t, p)->0, s, x)),
    decreases p.len(),
{
    if p.len() == 0 {
        assert(p.push(s) =~= seq![s]);
        assert(seq![s].drop_first() =~= Seq::<Step>::empty());
        assert(seq![s][0] == s);
        assert(resolve(t, p) == Some(t));
        assert(update(t, p, set_child(t, s, x)) == set_child(t, s, x));
        match (t, s) {
            (Node::Arr(a), Step::Pos(i)) => {
                assert(update(a[i as int], Seq::<Step>::empty(), x) == x);
            },
            (Node::Obj(e), Step::Key(k)) => {
                lemma_key_index(e, k);
                let j = key_index(e, k);
                assert(update(e[j].1, Seq::<Step>::empty(), x) == x);
            },
            _ => {},
        }
    } else {
        assert(p.push(s)[0] == p[0]);
        assert(p.push(s).drop_first() =~= p.drop_first().push(s));
        let c = child(t, p[0])->0;
        lemma_update_push(c, p.drop_first(), s, x);
        match (t, p[0]) {
            (Node::Obj(e), Step::Key(k)) => {
                lemma_key_index(e, k);
            },
            _ => {},
        }
    }
}

/// No two entries of an object node share a key; other nodes qualify as
/// they are.
pub open spec fn top_unique(n: Node) -> bool {
    match n {
        Node::Obj(e) => unique_keys(e),
        _ => true,
    }
}

/// The tree after the mutating walk of the node that an entry's path names,
/// from the entry's depth; the tree itself where the path names no node.
pub open spec fn apply_at<V: Visitor>(v: V, t: Node, e: Entry, bound: Option<usize>) -> Node {
    match resolve(t, e.1) {
        Some(n) => update(t, e.1, mutate_walk(v, n, e.1, e.0, bound)),
        None => t,
    }
}

/// The tree once the mutating walks that a stack of pending entries still
/// owes are done, top (last) entry first.
pub open spec fn finish<V: Visitor>(v: V, t: Node, q: Seq<Entry>, bound: Option<usize>) -> Node
    decreases q.len(),
{
    if q.len() == 0 {
        t
    } else {
        finish(v, apply_at(v, t, q.last(), bound), q.drop_last(), bound)
    }
}

proof fn lemma_finish_concat<V: Visitor>(v: V, t: Node, q1: Seq<Entry>, q2: Seq<Entry>, bound: Option<usize>)
    ensures
        finish(v, t, q1 + q2, bound) == finish(v, finish(v, t, q2, bound), q1, bound),
    decreases q2.len(),
{
    if q2.len() == 0 {
        assert(q1 + q2 =~= q1);
    } else {
        assert((q1 + q2).last() == q2.last());
        assert((q1 + q2).drop_last() =~= q1 + q2.drop_last());
        lemma_finish_concat(v, apply_at(v, t, q2.last(), bound), q1, q2.drop_last(), bound);
    }
}

proof fn lemma_set_kid_keys(w: Node, i: int, c: Node)
    requires
        0 <= i < kids_len(w),
    ensures
        child_steps(set_kid(w, i, c)) == child_steps(w),
        kids_len(set_kid(w, i, c)) == kids_len(w),
        top_unique(w) ==> top_unique(set_kid(w, i, c)),
        forall|j: int| 0 <= j < kids_len(w) && j != i ==> #[trigger] kid(set_kid(w, i, c), j) == kid(w, j),
        kid(set_kid(w, i, c), i).0 == kid(w, i).0,
{
    match w {
        Node::Arr(a) => {
            assert(child_steps(set_kid(w, i, c)) =~= child_steps(w));
        },
        Node::Obj(e) => {
            let e2 = e.update(i, (e[i].0, c));
            assert(child_steps(set_kid(w, i, c)) =~= child_steps(w));
            if top_unique(w) {
                assert forall|a: int, b: int| 0 <= a < b < e2.len() implies e2[a].0 != e2[b].0 by {}
            }
        },
        _ => {},
    }
}

proof fn lemma_finish_kids<V: Visitor>(
    v: V,
    u: Node,
    p: Seq<Step>,
    d: nat,
    bound: Option<usize>,
    w: Node,
    i: nat,
)
    requires
        resolve(u, p) == Some(w),
        expands(bound, d),
        top_unique(w),
        i <= kids_len(w),
    ensures
        finish(v, u, kid_entries(w, p, d, i), bound) == update(u, p, mutate_kids(v, w, p, d, bound, i)),
    decreases kids_len(w) - i,
{
    let ke = kid_entries(w, p, d, i);
    assert(child_steps(w).len() == kids_len(w));
    if i == kids_len(w) {
        assert(ke =~= Seq::<Entry>::empty());
        lemma_update_same(u, p);
    } else {
        let s = kid(w, i as int).0;
        let c = kid(w, i as int).1;
        assert(child_steps(w)[i as int] == s);
        assert(ke.last() == ((d + 1) as nat, p.push(s)));
        assert(child(w, s) == Some(c)) by {
            match w {
                Node::Obj(e) => {
                    assert forall|m: int| 0 <= m < i implies e[m].0 != e[i as int].0 by {}
                    lemma_key_index_first(e, e[i as int].0, i as int);
                },
                _ => {},
            }
        }
        lemma_resolve_push(u, p, s);
        let c2 = mutate_walk(v, c, p.push(s), d + 1, bound);
        let w2 = set_kid(w, i as int, c2);
        assert(set_child(w, s, c2) == w2) by {
            match w {
                Node::Obj(e) => {
                    assert forall|m: int| 0 <= m < i implies e[m].0 != e[i as int].0 by {}
                    lemma_key_index_first(e, e[i as int].0, i as int);
                },
                _ => {},
            }
        }
        lemma_update_push(u, p, s, c2);
        let u2 = update(u, p, w2);
        assert(apply_at(v, u, ke.last(), bound) == u2);
        lemma_set_kid_keys(w, i as int, c2);
        assert(ke.drop_last() =~= kid_entries(w2, p, d, i + 1));
        lemma_update_twice(u, p, w2, mutate_kids(v, w2, p, d, bound, i + 1));
        lemma_finish_kids(v, u2, p, d, bound, w2, i + 1);
        assert(mutate_kids(v, w, p, d, bound, i) == mutate_kids(v, w2, p, d, bound, i + 1));
    }
}

/// One step of the mutating traverser, without a visit bound, keeps what the
/// pending entries still owe: the tree once they are done is the same
/// before and after the step. The visitor must hand back objects with
/// unique keys. With a fresh traverser the entries owe the whole mutating
/// walk (see `fresh_mutation_owes_mutate_walk`), and with nothing pending
/// they owe the tree as it stands, so stepping until `None` gives exactly
/// `mutate_walk`.
pub proof fn mutating_step_follows_mutate_walk<V: Visitor>(
    v: V,
    t: Node,
    depth: Option<usize>,
    q: Seq<Entry>,
    visited_before: nat,
    t2: Node,
    q2: Seq<Entry>,
    visited_after: nat,
    r: Option<Seq<Step>>,
)
    requires
        forall|pp: Seq<Step>, n: Node| #[trigger] top_unique(visited(v, pp, n)),
        step_spec(q, depth, None, visited_before, t2, q2, visited_after, r),
        t2 == match r {
            Some(p) => match resolve(t, p) {
                Some(n) => match v.spec_visit(p, n) {
                    Some(x) => update(t, p, x),
                    None => t,
                },
                None => t,
            },
            None => t,
        },
    ensures
        finish(v, t2, q2, depth) == finish(v, t, q, depth),
{
    if q.len() > 0 {
        let (d, p) = q.last();
        let rest = q.drop_last();
        match resolve(t, p) {
            None => {
                assert(child_entries(resolve(t2, p), d, p) =~= Seq::empty());
                assert(rest + Seq::<Entry>::empty() =~= rest);
            },
            Some(n) => {
                let m = visited(v, p, n);
                if v.spec_visit(p, n) is None {
                    lemma_update_same(t, p);
                }
                assert(t2 == update(t, p, m));
                lemma_update_twice(t, p, m, m);
                assert(resolve(t2, p) == Some(m));
                assert(top_unique(m));
                if expands(depth, d) {
                    let ce = child_entries(resolve(t2, p), d, p);
                    assert(ce =~= kid_entries(m, p, d, 0));
                    lemma_finish_concat(v, t2, rest, ce, depth);
                    lemma_finish_kids(v, t2, p, d, depth, m, 0);
                    lemma_update_twice(t, p, m, mutate_kids(v, m, p, d, depth, 0));
                } else {
                    lemma_update_twice(t, p, m, m);
                }
            },
        }
    }
}

/// A fresh traverser owes the whole mutating walk of the tree.
pub proof fn fresh_mutation_owes_mutate_walk<V: Visitor>(v: V, t: Node, depth: Option<usize>)
    ensures
        finish(v, t, seq![(0nat, Seq::<Step>::empty())], depth) == mutate_walk(
            v,
            t,
            Seq::empty(),
            0,
            depth,
        ),
{
    let q = seq![(0nat, Seq::<Step>::empty())];
    assert(q.drop_last() =~= Seq::<Entry>::empty());
    assert(q.last() == (0nat, Seq::<Step>::empty()));
    assert(resolve(t, Seq::<Step>::empty()) == Some(t));
    let w = mutate_walk(v, t, Seq::empty(), 0, depth);
    assert(update(t, Seq::<Step>::empty(), w) == w);
    assert(apply_at(v, t, q.last(), depth) == w);
    assert(finish(v, w, Seq::<Entry>::empty(), depth) == w);
}

/// The receiving tree after the merge that a pending entry of the donor
/// walk owes: where its path names a node in both trees, that node with the
/// donor's merged in; else the tree as it is.
pub open spec fn merge_at<R: NodeRule>(rule: R, t: Node, donor: Node, e: Entry, bound: Option<usize>) -> Node {
    match (resolve(t, e.1), resolve(donor, e.1)) {
        (Some(w), Some(o)) => update(t, e.1, merge_walk(rule, w, o, e.1, e.0, bound)),
        _ => t,
    }
}

/// The receiving tree once the merges that a stack of pending entries still
/// owes are done, top (last) entry first.
pub open spec fn finish_merge<R: NodeRule>(
    rule: R,
    t: Node,
    donor: Node,
    q: Seq<Entry>,
    bound: Option<usize>,
) -> Node
    decreases q.len(),
{
    if q.len() == 0 {
        t
    } else {
        finish_merge(rule, merge_at(rule, t, donor, q.last(), bound), donor, q.drop_last(), bound)
    }
}

proof fn lemma_finish_merge_concat<R: NodeRule>(
    rule: R,
    t: Node,
    donor: Node,
    q1: Seq<Entry>,
    q2: Seq<Entry>,
    bound: Option<usize>,
)
    ensures
        finish_merge(rule, t, donor, q1 + q2, bound) == finish_merge(
            rule,
            finish_merge(rule, t, donor, q2, bound),
            donor,
            q1,
            bound,
        ),
    decreases q2.len(),
{
    if q2.len() == 0 {
        assert(q1 + q2 =~= q1);
    } else {
        assert((q1 + q2).last() == q2.last());
        assert((q1 + q2).drop_last() =~= q1 + q2.drop_last());
        lemma_finish_merge_concat(
            rule,
            merge_at(rule, t, donor, q2.last(), bound),
            donor,
            q1,
            q2.drop_last(),
            bound,
        );
    }
}

/// Entries below a path that names no node in the receiver owe nothing.
proof fn lemma_finish_merge_missing<R: NodeRule>(
    rule: R,
    t: Node,
    donor: Node,
    o: Node,
    p: Seq<Step>,
    d: nat,
    i: nat,
    bound: Option<usize>,
)
    requires
        resolve(t, p) is None,
        i <= kids_len(o),
    ensures
        finish_merge(rule, t, donor, kid_entries(o, p, d, i), bound) == t,
    decreases kids_len(o) - i,
{
    let ke = kid_entries(o, p, d, i);
    assert(child_steps(o).len() == kids_len(o));
    if i == kids_len(o) {
        assert(ke =~= Seq::<Entry>::empty());
    } else {
        let s = child_steps(o)[i as int];
        assert(ke.last() == ((d + 1) as nat, p.push(s)));
        lemma_resolve_push(t, p, s);
        assert(ke.drop_last() =~= kid_entries(o, p, d, i + 1));
        lemma_finish_merge_missing(rule, t, donor, o, p, d, i + 1, bound);
    }
}

proof fn lemma_finish_merge_kids<R: NodeRule>(
    rule: R,
    u: Node,
    donor: Node,
    p: Seq<Step>,
    d: nat,
    bound: Option<usize>,
    w: Node,
    o: Node,
    i: nat,
)
    requires
        resolve(u, p) == Some(w),
        resolve(donor, p) == Some(o),
        well_formed(o),
        i <= kids_len(o),
    ensures
        finish_merge(rule, u, donor, kid_entries(o, p, d, i), bound) == update(
            u,
            p,
            merge_kids(rule, w, o, p, d, bound, i),
        ),
    decreases kids_len(o) - i,
{
    let ke = kid_entries(o, p, d, i);
    assert(child_steps(o).len() == kids_len(o));
    if i == kids_len(o) {
        assert(ke =~= Seq::<Entry>::empty());
        lemma_update_same(u, p);
        assert(merge_kids(rule, w, o, p, d, bound, i) == w);
    } else {
        let s = kid(o, i as int).0;
        let oc = kid(o, i as int).1;
        assert(child_steps(o)[i as int] == s);
        assert(ke.last() == ((d + 1) as nat, p.push(s)));
        assert(ke.drop_last() =~= kid_entries(o, p, d, i + 1));
        lemma_kid(o, i as int);
        lemma_resolve_push(donor, p, s);
        lemma_resolve_push(u, p, s);
        match child(w, s) {
            Some(tc) => {
                let c2 = merge_walk(rule, tc, oc, p.push(s), d + 1, bound);
                let w2 = set_child(w, s, c2);
                lemma_update_push(u, p, s, c2);
                let u2 = update(u, p, w2);
                assert(merge_at(rule, u, donor, ke.last(), bound) == u2);
                lemma_update_twice(u, p, w2, merge_kids(rule, w2, o, p, d, bound, i + 1));
                lemma_finish_merge_kids(rule, u2, donor, p, d, bound, w2, o, i + 1);
                assert(merge_kids(rule, w, o, p, d, bound, i) == merge_kids(rule, w2, o, p, d, bound, i + 1));
            },
            None => {
                assert(merge_at(rule, u, donor, ke.last(), bound) == u);
                lemma_finish_merge_kids(rule, u, donor, p, d, bound, w, o, i + 1);
                assert(merge_kids(rule, w, o, p, d, bound, i) == merge_kids(rule, w, o, p, d, bound, i + 1));
            },
        }
    }
}

/// One merge step driven by the traverser over the donor, without a visit
/// bound, keeps what the pending entries still owe: the receiving tree once
/// they are done is the same before and after the step. The donor's objects
/// must have unique keys. A fresh traverser owes the whole of `merge_walk`
/// (see `fresh_merge_owes_merge_walk`), and with nothing pending the
/// receiver is what it owes, so stepping until `None` gives exactly
/// `merge_walk`.
pub proof fn merge_step_follows_merge_walk<R: NodeRule>(
    rule: R,
    t: Node,
    donor: Node,
    depth: Option<usize>,
    q: Seq<Entry>,
    visited_before: nat,
    q2: Seq<Entry>,
    visited_after: nat,
    t2: Node,
    r: Option<Seq<Step>>,
)
    requires
        well_formed(donor),
        merge_step_spec(rule, q, depth, None, visited_before, t, donor, q2, visited_after, t2, r),
    ensures
        finish_merge(rule, t2, donor, q2, depth) == finish_merge(rule, t, donor, q, depth),
{
    if q.len() > 0 {
        let (d, p) = q.last();
        let rest = q.drop_last();
        match (resolve(t, p), resolve(donor, p)) {
            (Some(w), Some(o)) => {
                let (m, go) = rule.spec_apply(p, w, o);
                lemma_resolve_well_formed(donor, p);
                lemma_update_twice(t, p, m, m);
                if go && expands(depth, d) {
                    let ce = child_entries(Some(o), d, p);
                    assert(ce =~= kid_entries(o, p, d, 0));
                    lemma_finish_merge_concat(rule, t2, donor, rest, ce, depth);
                    lemma_finish_merge_kids(rule, t2, donor, p, d, depth, m, o, 0);
                    lemma_update_twice(t, p, m, merge_kids(rule, m, o, p, d, depth, 0));
                }
            },
            (None, Some(o)) => {
                if expands(depth, d) {
                    let ce = child_entries(Some(o), d, p);
                    assert(ce =~= kid_entries(o, p, d, 0));
                    lemma_finish_merge_concat(rule, t, donor, rest, ce, depth);
                    lemma_finish_merge_missing(rule, t, donor, o, p, d, 0, depth);
                }
            },
            (_, None) => {
                if expands(depth, d) {
                    assert(child_entries(resolve(donor, p), d, p) =~= Seq::empty());
                    assert(rest + Seq::<Entry>::empty() =~= rest);
                }
            },
        }
    }
}

/// A fresh traverser owes the whole merge of the donor into the receiver.
pub proof fn fresh_merge_owes_merge_walk<R: NodeRule>(rule: R, t: Node, donor: Node, depth: Option<usize>)
    ensures
        finish_merge(rule, t, donor, seq![(0nat, Seq::<Step>::empty())], depth) == merge_walk(
            rule,
            t,
            donor,
            Seq::empty(),
            0,
            depth,
        ),
{
    let q = seq![(0nat, Seq::<Step>::empty())];
    assert(q.drop_last() =~= Seq::<Entry>::empty());
    assert(q.last() == (0nat, Seq::<Step>::empty()));
    assert(resolve(t, Seq::<Step>::empty()) == Some(t));
    assert(resolve(donor, Seq::<Step>::empty()) == Some(donor));
    let w = merge_walk(rule, t, donor, Seq::empty(), 0, depth);
    assert(update(t, Seq::<Step>::empty(), w) == w);
    assert(merge_at(rule, t, donor, q.last(), depth) == w);
    assert(finish_merge(rule, w, donor, Seq::<Entry>::empty(), depth) == w);
}

/// `a` and `b` are alike under `cmp`: neither comes before the other.
pub open spec fn alike<A>(cmp: spec_fn(A, A) -> Ordering, a: A, b: A) -> bool {
    cmp(a, b) == Ordering::Equal && cmp(b, a) == Ordering::Equal
}

/// Items alike to a common item are alike to each other, and so not greater.
pub open spec fn alike_transitive<A>(cmp: spec_fn(A, A) -> Ordering) -> bool {
    forall|a: A, b: A, c: A|
        #![trigger alike(cmp, a, c), alike(cmp, b, c)]
        alike(cmp, a, c) && alike(cmp, b, c) ==> cmp(a, b) == Ordering::Equal
}

proof fn lemma_sort_insert_multiset<A>(cmp: spec_fn(A, A) -> Ordering, t: Seq<A>, x: A)
    ensures
        sort_insert(cmp, t, x).to_multiset() == t.to_multiset().insert(x),
    decreases t.len(),
{
    broadcast use vstd::seq_lib::group_to_multiset_ensures;

    if t.len() == 0 {
        assert(seq![x] =~= t.push(x));
    } else {
        let u = t.drop_last();
        assert(u.push(t.last()) =~= t);
        if cmp(t.last(), x) == Ordering::Greater {
            lemma_sort_insert_multiset(cmp, u, x);
            assert(sort_insert(cmp, t, x).to_multiset() =~= t.to_multiset().insert(x));
        }
    }
}

proof fn lemma_sort_insert_stable<A>(cmp: spec_fn(A, A) -> Ordering, t: Seq<A>, x: A, x0: A)
    requires
        alike_transitive(cmp),
    ensures
        sort_insert(cmp, t, x).filter(|y: A| alike(cmp, y, x0)) == if alike(cmp, x, x0) {
            t.filter(|y: A| alike(cmp, y, x0)).push(x)
        } else {
            t.filter(|y: A| alike(cmp, y, x0))
        },
    decreases t.len(),
{
    broadcast use Seq::lemma_filter_push;

    let pred = |y: A| alike(cmp, y, x0);
    if t.len() == 0 {
        assert(seq![x] =~= t.push(x));
        assert(t.filter(pred) =~= t) by {
            reveal(Seq::filter);
        }
    } else {
        let u = t.drop_last();
        let l = t.last();
        assert(u.push(l) =~= t);
        if cmp(l, x) == Ordering::Greater {
            lemma_sort_insert_stable(cmp, u, x, x0);
            if alike(cmp, x, x0) {
                assert(!alike(cmp, l, x0));
            }
        }
    }
}

/// Insertion sort keeps the items of its input, each as often (it gives a
/// permutation), and keeps alike items in the order they came in (it is
/// stable), when being alike is transitive.
pub proof fn insertion_sort_is_stable_permutation<A>(cmp: spec_fn(A, A) -> Ordering, s: Seq<A>, x0: A)
    requires
        alike_transitive(cmp),
    ensures
        insertion_sort(cmp, s).to_multiset() == s.to_multiset(),
        insertion_sort(cmp, s).filter(|y: A| alike(cmp, y, x0)) == s.filter(|y: A| alike(cmp, y, x0)),
    decreases s.len(),
{
    broadcast use vstd::seq_lib::group_to_multiset_ensures, Seq::lemma_filter_push;

    if s.len() == 0 {
    } else {
        let u = s.drop_last();
        assert(u.push(s.last()) =~= s);
        insertion_sort_is_stable_permutation(cmp, u, x0);
        lemma_sort_insert_multiset(cmp, insertion_sort(cmp, u), s.last());
        lemma_sort_insert_stable(cmp, insertion_sort(cmp, u), s.last(), x0);
    }
}

/// Storing a valid node in a valid tree gives a valid tree.
pub proof fn lemma_update_valid(t: Node, p: Seq<Step>, x: Node)
    requires
        well_formed(t),
        well_formed(x),
    ensures
        well_formed(update(t, p, x)),
    decreases p.len(),
{
    if p.len() > 0 {
        match (t, p[0]) {
            (Node::Arr(a), Step::Pos(i)) => {
                if i < a.len() {
                    lemma_update_valid(a[i as int], p.drop_first(), x);
                    let a2 = a.update(i as int, update(a[i as int], p.drop_first(), x));
                    assert forall|j: int| 0 <= j < a2.len() implies well_formed(#[trigger] a2[j]) by {}
                }
            },
            (Node::Obj(e), Step::Key(k)) => {
                let j = key_index(e, k);
                if j >= 0 {
                    lemma_key_index(e, k);
                    lemma_update_valid(e[j].1, p.drop_first(), x);
                    let e2 = e.update(j, (e[j].0, update(e[j].1, p.drop_first(), x)));
                    assert forall|a: int, b: int| 0 <= a < b < e2.len() implies e2[a].0 != e2[b].0 by {}
                    assert forall|m: int| 0 <= m < e2.len() implies well_formed(#[trigger] e2[m].1) by {}
                }
            },
            _ => {},
        }
    }
}

/// Storing a valid node by path, with keys added on the way, keeps a valid
/// tree valid.
pub proof fn lemma_put_valid(t: Node, p: Seq<Step>, x: Node)
    requires
        well_formed(t),
        well_formed(x),
    ensures
        well_formed(put(t, p, x)),
    decreases p.len(),
{
    if p.len() > 0 {
        match (t, p[0]) {
            (Node::Null, Step::Key(k)) => {
                lemma_put_valid(Node::Null, p.drop_first(), x);
                let e2 = seq![(k, put(Node::Null, p.drop_first(), x))];
                assert forall|m: int| 0 <= m < e2.len() implies well_formed(#[trigger] e2[m].1) by {}
            },
            (Node::Obj(e), Step::Key(k)) => {
                let j = key_index(e, k);
                lemma_key_index(e, k);
                if j >= 0 {
                    lemma_put_valid(e[j].1, p.drop_first(), x);
                    let e2 = e.update(j, (k, put(e[j].1, p.drop_first(), x)));
                    assert forall|a: int, b: int| 0 <= a < b < e2.len() implies e2[a].0 != e2[b].0 by {}
                    assert forall|m: int| 0 <= m < e2.len() implies well_formed(#[trigger] e2[m].1) by {}
                } else {
                    lemma_put_valid(Node::Null, p.drop_first(), x);
                    let e2 = e.push((k, put(Node::Null, p.drop_first(), x)));
                    assert forall|a: int, b: int| 0 <= a < b < e2.len() implies e2[a].0 != e2[b].0 by {
                        if b == e.len() {
                            assert(e2[a] == e[a]);
                        }
                    }
                    assert forall|m: int| 0 <= m < e2.len() implies well_formed(#[trigger] e2[m].1) by {
                        if m < e.len() {
                            assert(e2[m] == e[m]);
                        }
                    }
                }
            },
            (Node::Arr(a), Step::Pos(i)) => {
                if i < a.len() {
                    lemma_put_valid(a[i as int], p.drop_first(), x);
                    let a2 = a.update(i as int, put(a[i as int], p.drop_first(), x));
                    assert forall|j: int| 0 <= j < a2.len() implies well_formed(#[trigger] a2[j]) by {}
                }
            },
            _ => {},
        }
    }
}

proof fn lemma_set_child_valid(n: Node, s: Step, c: Node)
    requires
        well_formed(n),
        well_formed(c),
    ensures
        well_formed(set_child(n, s, c)),
{
    lemma_update_valid(n, seq![s], c);
    if child(n, s) is Some {
        assert(seq![s].drop_first() =~= Seq::<Step>::empty());
        assert(seq![s][0] == s);
        match (n, s) {
            (Node::Obj(e), Step::Key(k)) => {
                lemma_key_index(e, k);
                assert(update(e[key_index(e, k)].1, Seq::<Step>::empty(), c) == c);
            },
            (Node::Arr(a), Step::Pos(i)) => {
                assert(update(a[i as int], Seq::<Step>::empty(), c) == c);
            },
            _ => {},
        }
        assert(update(n, seq![s], c) == set_child(n, s, c));
    }
}

proof fn lemma_merge_kids_valid<R: NodeRule>(
    rule: R,
    t: Node,
    o: Node,
    p: Seq<Step>,
    d: nat,
    bound: Option<usize>,
    i: nat,
)
    requires
        rule_keeps_valid(rule),
        well_formed(t),
        well_formed(o),
    ensures
        well_formed(merge_kids(rule, t, o, p, d, bound, i)),
    decreases o, kids_len(o) - i,
{
    if i < kids_len(o) {
        let s = kid(o, i as int).0;
        let oc = kid(o, i as int).1;
        lemma_kid_valid(o, i as int);
        match child(t, s) {
            Some(tc) => {
                lemma_child_valid(t, s);
                lemma_merge_walk_valid(rule, tc, oc, p.push(s), d + 1, bound);
                lemma_set_child_valid(t, s, merge_walk(rule, tc, oc, p.push(s), d + 1, bound));
                lemma_merge_kids_valid(
                    rule,
                    set_child(t, s, merge_walk(rule, tc, oc, p.push(s), d + 1, bound)),
                    o,
                    p,
                    d,
                    bound,
                    i + 1,
                );
            },
            None => {
                lemma_merge_kids_valid(rule, t, o, p, d, bound, i + 1);
            },
        }
    }
}

/// Merging a valid tree into a valid tree, under a rule that keeps nodes
/// valid, gives a valid tree.
pub proof fn lemma_merge_walk_valid<R: NodeRule>(
    rule: R,
    t: Node,
    o: Node,
    p: Seq<Step>,
    d: nat,
    bound: Option<usize>,
)
    requires
        rule_keeps_valid(rule),
        well_formed(t),
        well_formed(o),
    ensures
        well_formed(merge_walk(rule, t, o, p, d, bound)),
    decreases o, kids_len(o) + 1,
{
    let (m, go) = rule.spec_apply(p, t, o);
    assert(well_formed(m));
    if go && expands(bound, d) {
        lemma_merge_kids_valid(rule, m, o, p, d, bound, 0);
    }
}

proof fn lemma_kid_valid(n: Node, i: int)
    requires
        well_formed(n),
        0 <= i < kids_len(n),
    ensures
        well_formed(kid(n, i).1),
        decreases_to!(n => kid(n, i).1),
{
    match n {
        Node::Arr(a) => {
            assert(decreases_to!(n => a[i])) by {
                assert(decreases_to!(n => n->Arr_0));
                assert(decreases_to!(n->Arr_0 => n->Arr_0[i]));
            }
        },
        Node::Obj(e) => {
            assert(decreases_to!(n => e[i].1)) by {
                assert(decreases_to!(n => n->Obj_0));
                assert(decreases_to!(n->Obj_0 => n->Obj_0[i]));
                assert(decreases_to!(n->Obj_0[i] => n->Obj_0[i].1));
            }
        },
        _ => {},
    }
}

proof fn lemma_child_valid(n: Node, s: Step)
    requires
        well_formed(n),
        child(n, s) is Some,
    ensures
        well_formed(child(n, s)->0),
{
    match (n, s) {
        (Node::Obj(e), Step::Key(k)) => {
            lemma_key_index(e, k);
        },
        _ => {},
    }
}

/// The merge rule keeps nodes valid.
pub proof fn lemma_merge_rule_valid()
    ensures
        rule_keeps_valid(MergeRule),
{
    assert forall|p: Seq<Step>, t: Node, o: Node| well_formed(t) && well_formed(o) implies well_formed(
        #[trigger] MergeRule.spec_apply(p, t, o).0,
    ) by {
        lemma_rule_result_valid(t, o);
    }
}

/// The union rule keeps nodes valid.
pub proof fn lemma_union_rule_valid()
    ensures
        rule_keeps_valid(UnionRule),
{
    assert forall|p: Seq<Step>, t: Node, o: Node| well_formed(t) && well_formed(o) implies well_formed(
        #[trigger] UnionRule.spec_apply(p, t, o).0,
    ) by {
        lemma_rule_result_valid(t, o);
    }
}

proof fn lemma_rule_result_valid(t: Node, o: Node)
    requires
        well_formed(t),
        well_formed(o),
    ensures
        well_formed(merge_rule(t, o).0),
        well_formed(union_rule(t, o).0),
{
    match (t, o) {
        (Node::Obj(e), Node::Obj(f)) => {
            lemma_absorb(e, f);
            let g = absorb(e, f);
            assert forall|m: int| 0 <= m < g.len() implies well_formed(#[trigger] g[m].1) by {
                if m < e.len() {
                    assert(g[m] == e[m]);
                }
            }
        },
        (Node::Arr(a), Node::Arr(b)) => {
            let c = a + b;
            assert forall|m: int| 0 <= m < c.len() implies well_formed(#[trigger] c[m]) by {
                if m >= a.len() {
                    assert(c[m] == b[m - a.len()]);
                }
            }
        },
        (Node::Arr(a), x) => {
            let c = a.push(x);
            assert forall|m: int| 0 <= m < c.len() implies well_formed(#[trigger] c[m]) by {
                if m < a.len() {
                    assert(c[m] == a[m]);
                }
            }
        },
        _ => {},
    }
}

proof fn lemma_mutate_kids_valid<V: Visitor>(
    v: V,
    n: Node,
    p: Seq<Step>,
    d: nat,
    bound: Option<usize>,
    i: nat,
)
    requires
        visitor_keeps_valid(v),
        well_formed(n),
    ensures
        well_formed(mutate_kids(v, n, p, d, bound, i)),
    decreases usize::MAX - d, 0nat, kids_len(n) - i,
{
    if expands(bound, d) && i < kids_len(n) {
        let (s, c) = kid(n, i as int);
        lemma_kid_valid(n, i as int);
        lemma_mutate_walk_valid(v, c, p.push(s), d + 1, bound);
        let c2 = mutate_walk(v, c, p.push(s), d + 1, bound);
        let n2 = set_kid(n, i as int, c2);
        assert(well_formed(n2)) by {
            match n {
                Node::Arr(a) => {
                    let a2 = a.update(i as int, c2);
                    assert forall|j: int| 0 <= j < a2.len() implies well_formed(#[trigger] a2[j]) by {}
                },
                Node::Obj(e) => {
                    let e2 = e.update(i as int, (e[i as int].0, c2));
                    assert forall|a: int, b: int| 0 <= a < b < e2.len() implies e2[a].0 != e2[b].0 by {}
                    assert forall|m: int| 0 <= m < e2.len() implies well_formed(#[trigger] e2[m].1) by {}
                },
                _ => {},
            }
        }
        lemma_set_kid_keys(n, i as int, c2);
        lemma_mutate_kids_valid(v, n2, p, d, bound, i + 1);
    }
}

/// A mutating walk with a visitor that keeps nodes valid keeps a valid tree
/// valid.
pub proof fn lemma_mutate_walk_valid<V: Visitor>(v: V, n: Node, p: Seq<Step>, d: nat, bound: Option<usize>)
    requires
        visitor_keeps_valid(v),
        well_formed(n),
    ensures
        well_formed(mutate_walk(v, n, p, d, bound)),
    decreases usize::MAX - d, 1nat, 0nat,
{
    let m = visited(v, p, n);
    assert(well_formed(m));
    if expands(bound, d) {
        lemma_mutate_kids_valid(v, m, p, d, bound, 0);
    }
}

/// Insertion sort gives a permutation of its input.
pub proof fn insertion_sort_permutes<A>(cmp: spec_fn(A, A) -> Ordering, s: Seq<A>)
    ensures
        insertion_sort(cmp, s).to_multiset() == s.to_multiset(),
    decreases s.len(),
{
    broadcast use vstd::seq_lib::group_to_multiset_ensures;

    if s.len() > 0 {
        let u = s.drop_last();
        assert(u.push(s.last()) =~= s);
        insertion_sort_permutes(cmp, u);
        lemma_sort_insert_multiset(cmp, insertion_sort(cmp, u), s.last());
    }
}

proof fn lemma_count_unique(e: Seq<(Seq<char>, Node)>, x: (Seq<char>, Node))
    requires
        unique_keys(e),
    ensures
        e.to_multiset().count(x) <= 1,
    decreases e.len(),
{
    broadcast use vstd::seq_lib::group_to_multiset_ensures;

    if e.len() > 0 {
        let u = e.drop_last();
        assert(u.push(e.last()) =~= e);
        assert(unique_keys(u)) by {
            assert forall|a: int, b: int| 0 <= a < b < u.len() implies u[a].0 != u[b].0 by {
                assert(u[a] == e[a] && u[b] == e[b]);
            }
        }
        lemma_count_unique(u, x);
        if e.last() == x && u.to_multiset().count(x) > 0 {
            assert(u.contains(x));
            let j = choose|j: int| 0 <= j < u.len() && u[j] == x;
            assert(e[j] == x && e[e.len() - 1] == x);
        }
    }
}

proof fn lemma_count_twice<A>(r: Seq<A>, a: int, b: int)
    requires
        0 <= a < b < r.len(),
        r[a] == r[b],
    ensures
        r.to_multiset().count(r[a]) >= 2,
    decreases r.len(),
{
    broadcast use vstd::seq_lib::group_to_multiset_ensures;

    let u = r.drop_last();
    assert(u.push(r.last()) =~= r);
    if b == r.len() - 1 {
        assert(u[a] == r[a]);
        assert(u.contains(r[a]));
    } else {
        assert(u[a] == r[a] && u[b] == r[b]);
        lemma_count_twice(u, a, b);
    }
}

/// A permutation of valid entries with unique keys has unique keys and
/// valid values.
proof fn lemma_permuted_entries_valid(r: Seq<(Seq<char>, Node)>, e: Seq<(Seq<char>, Node)>)
    requires
        unique_keys(e),
        forall|j: int| 0 <= j < e.len() ==> well_formed(#[trigger] e[j].1),
        r.to_multiset() == e.to_multiset(),
    ensures
        unique_keys(r),
        forall|j: int| 0 <= j < r.len() ==> well_formed(#[trigger] r[j].1),
{
    broadcast use vstd::seq_lib::group_to_multiset_ensures;

    assert forall|j: int| 0 <= j < r.len() implies well_formed(#[trigger] r[j].1) by {
        assert(r.contains(r[j]));
        assert(r.to_multiset().count(r[j]) > 0);
        assert(e.to_multiset().count(r[j]) > 0);
        assert(e.contains(r[j]));
    }
    assert forall|a: int, b: int| 0 <= a < b < r.len() implies r[a].0 != r[b].0 by {
        if r[a].0 == r[b].0 {
            assert(r.contains(r[a]) && r.contains(r[b]));
            assert(r.to_multiset().count(r[a]) > 0 && r.to_multiset().count(r[b]) > 0);
            assert(e.to_multiset().count(r[a]) > 0 && e.to_multiset().count(r[b]) > 0);
            assert(e.contains(r[a]) && e.contains(r[b]));
            let i = choose|i: int| 0 <= i < e.len() && e[i] == r[a];
            let k = choose|k: int| 0 <= k < e.len() && e[k] == r[b];
            if i == k {
                lemma_count_twice(r, a, b);
                lemma_count_unique(e, r[a]);
            } else if i < k {
                assert(e[i].0 != e[k].0);
            } else {
                assert(e[k].0 != e[i].0);
            }
        }
    }
}

/// Sorting keys keeps a valid tree valid, whatever the order.
pub proof fn lemma_sort_keys_valid<O: KeyOrder>(o: &O)
    ensures
        visitor_keeps_valid(SortKeys { order: o }),
{
    let v = SortKeys { order: o };
    assert forall|p: Seq<Step>, n: Node| well_formed(n) implies well_formed(#[trigger] visited(v, p, n)) by {
        match n {
            Node::Obj(e) => {
                insertion_sort_permutes(entry_order(*o, p), e);
                lemma_permuted_entries_valid(sorted_entries(*o, p, e), e);
            },
            _ => {},
        }
    }
}

/// Sorting values keeps a valid tree valid, whatever the order.
pub proof fn lemma_sort_values_valid<O: ValueOrder>(o: &O)
    ensures
        visitor_keeps_valid(SortValues { order: o }),
{
    broadcast use vstd::seq_lib::group_to_multiset_ensures;

    let v = SortValues { order: o };
    assert forall|p: Seq<Step>, n: Node| well_formed(n) implies well_formed(#[trigger] visited(v, p, n)) by {
        match n {
            Node::Arr(a) => {
                insertion_sort_permutes(item_order(*o), a);
                let r = sorted_items(*o, a);
                assert forall|j: int| 0 <= j < r.len() implies well_formed(#[trigger] r[j]) by {
                    assert(r.contains(r[j]));
                    assert(r.to_multiset().count(r[j]) > 0);
                    assert(a.to_multiset().count(r[j]) > 0);
                    assert(a.contains(r[j]));
                }
            },
            _ => {},
        }
    }
}

proof fn lemma_mutate_kids_budget_valid<V: Visitor>(
    v: V,
    n: Node,
    p: Seq<Step>,
    d: nat,
    bound: Option<usize>,
    i: nat,
    budget: nat,
)
    requires
        visitor_keeps_valid(v),
        well_formed(n),
    ensures
        well_formed(mutate_kids_budget(v, n, p, d, bound, i, budget).0),
    decreases usize::MAX - d, 0nat, kids_len(n) - i,
{
    if expands(bound, d) && i < kids_len(n) {
        let (s, c) = kid(n, i as int);
        lemma_kid_valid(n, i as int);
        lemma_mutate_walk_budget_valid(v, c, p.push(s), d + 1, bound, budget);
        let (c2, b2) = mutate_walk_budget(v, c, p.push(s), d + 1, bound, budget);
        let n2 = set_kid(n, i as int, c2);
        assert(well_formed(n2)) by {
            match n {
                Node::Arr(a) => {
                    let a2 = a.update(i as int, c2);
                    assert forall|j: int| 0 <= j < a2.len() implies well_formed(#[trigger] a2[j]) by {}
                },
                Node::Obj(e) => {
                    let e2 = e.update(i as int, (e[i as int].0, c2));
                    assert forall|a: int, b: int| 0 <= a < b < e2.len() implies e2[a].0 != e2[b].0 by {}
                    assert forall|m: int| 0 <= m < e2.len() implies well_formed(#[trigger] e2[m].1) by {}
                },
                _ => {},
            }
        }
        lemma_set_kid_keys(n, i as int, c2);
        lemma_mutate_kids_budget_valid(v, n2, p, d, bound, i + 1, b2);
    }
}

/// The budgeted mutating walk with a visitor that keeps nodes valid keeps a
/// valid tree valid.
pub proof fn lemma_mutate_walk_budget_valid<V: Visitor>(
    v: V,
    n: Node,
    p: Seq<Step>,
    d: nat,
    bound: Option<usize>,
    budget: nat,
)
    requires
        visitor_keeps_valid(v),
        well_formed(n),
    ensures
        well_formed(mutate_walk_budget(v, n, p, d, bound, budget).0),
    decreases usize::MAX - d, 1nat, 0nat,
{
    if budget > 0 {
        let m = visited(v, p, n);
        assert(well_formed(m));
        if expands(bound, d) {
            lemma_mutate_kids_budget_valid(v, m, p, d, bound, 0, (budget - 1) as nat);
        }
    }
}

} // verus!
