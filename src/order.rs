//! The default total order over trees, and equality of trees.
use crate::index::{bytes_cmp, compare_keys, int_cmp};
use crate::number::{compare_numbers, number_cmp};
use crate::value::{
    entries_view, find_key, items_view, key_index, lemma_entries_view, lemma_items_view, Node, Value,
};
use std::cmp::Ordering;
use vstd::prelude::*;

verus! {

broadcast use vstd::std_specs::vec::group_vec_axioms;

/// Null < boolean < number < string < array < object.
pub open spec fn kind_rank(n: Node) -> int {
    match n {
        Node::Null => 0,
        Node::Bool(_) => 1,
        Node::Num(_) => 2,
        Node::Str(_) => 3,
        Node::Arr(_) => 4,
        Node::Obj(_) => 5,
    }
}

pub open spec fn key_cmp(a: Seq<char>, b: Seq<char>) -> Ordering {
    bytes_cmp(vstd::utf8::encode_utf8(a), vstd::utf8::encode_utf8(b))
}

/// The default order of trees: by kind first; then booleans false first,
/// numbers by value, strings by their bytes, arrays item by item and objects
/// entry by entry (key, then value), a proper prefix first.
pub open spec fn value_cmp(a: Node, b: Node) -> Ordering
    decreases a,
{
    if kind_rank(a) != kind_rank(b) {
        int_cmp(kind_rank(a), kind_rank(b))
    } else {
        match (a, b) {
            (Node::Bool(x), Node::Bool(y)) => int_cmp(
                if x { 1 } else { 0 },
                if y { 1 } else { 0 },
            ),
            (Node::Num(x), Node::Num(y)) => number_cmp(x, y),
            (Node::Str(x), Node::Str(y)) => key_cmp(x, y),
            (Node::Arr(x), Node::Arr(y)) => items_cmp(x, y),
            (Node::Obj(x), Node::Obj(y)) => entries_cmp(x, y),
            _ => Ordering::Equal,
        }
    }
}

pub open spec fn items_cmp(x: Seq<Node>, y: Seq<Node>) -> Ordering
    decreases x,
{
    if x.len() == 0 {
        if y.len() == 0 {
            Ordering::Equal
        } else {
            Ordering::Less
        }
    } else if y.len() == 0 {
        Ordering::Greater
    } else {
        let c = value_cmp(x[0], y[0]);
        if c != Ordering::Equal {
            c
        } else {
            items_cmp(x.subrange(1, x.len() as int), y.subrange(1, y.len() as int))
        }
    }
}

pub open spec fn entries_cmp(x: Seq<(Seq<char>, Node)>, y: Seq<(Seq<char>, Node)>) -> Ordering
    decreases x,
{
    if x.len() == 0 {
        if y.len() == 0 {
            Ordering::Equal
        } else {
            Ordering::Less
        }
    } else if y.len() == 0 {
        Ordering::Greater
    } else {
        let k = key_cmp(x[0].0, y[0].0);
        if k != Ordering::Equal {
            k
        } else {
            let c = value_cmp(x[0].1, y[0].1);
            if c != Ordering::Equal {
                c
            } else {
                entries_cmp(x.subrange(1, x.len() as int), y.subrange(1, y.len() as int))
            }
        }
    }
}

fn rank(v: &Value) -> (r: u8)
    ensures
        r as int == kind_rank(v@),
{
    match v {
        Value::Null => 0,
        Value::Bool(_) => 1,
        Value::Number(_) => 2,
        Value::String(_) => 3,
        Value::Array(_) => 4,
        Value::Object(_) => 5,
    }
}

/// Compares two trees in the default order.
pub fn compare_values(a: &Value, b: &Value) -> (r: Ordering)
    ensures
        r == value_cmp(a@, b@),
    decreases a,
{
    let ra = rank(a);
    let rb = rank(b);
    if ra != rb {
        return if ra < rb {
            Ordering::Less
        } else {
            Ordering::Greater
        };
    }
    match (a, b) {
        (Value::Bool(x), Value::Bool(y)) => {
            if *x == *y {
                Ordering::Equal
            } else if !*x {
                Ordering::Less
            } else {
                Ordering::Greater
            }
        },
        (Value::Number(x), Value::Number(y)) => compare_numbers(*x, *y),
        (Value::String(x), Value::String(y)) => compare_keys(x, y),
        (Value::Array(x), Value::Array(y)) => {
            let ghost xs = items_view(x@);
            let ghost ys = items_view(y@);
            proof {
                lemma_items_view(x@);
                lemma_items_view(y@);
                assert(xs.skip(0) =~= xs);
                assert(ys.skip(0) =~= ys);
            }
            let mut i: usize = 0;
            while i < x.len() && i < y.len()
                invariant
                    *a == Value::Array(*x),
                    *b == Value::Array(*y),
                    i <= x@.len(),
                    i <= y@.len(),
                    xs == items_view(x@),
                    ys == items_view(y@),
                    xs.len() == x@.len(),
                    ys.len() == y@.len(),
                    forall|j: int| 0 <= j < x@.len() ==> #[trigger] xs[j] == x@[j]@,
                    forall|j: int| 0 <= j < y@.len() ==> #[trigger] ys[j] == y@[j]@,
                    items_cmp(xs, ys) == items_cmp(xs.skip(i as int), ys.skip(i as int)),
                decreases x@.len() - i,
            {
                proof {
                    assert(decreases_to!(*a => a->Array_0));
                    assert(decreases_to!(a->Array_0 => a->Array_0@));
                    assert(decreases_to!(a->Array_0@ => a->Array_0@[i as int]));
                }
                let c = compare_values(&x[i], &y[i]);
                proof {
                    assert(xs.skip(i as int)[0] == xs[i as int]);
                    assert(ys.skip(i as int)[0] == ys[i as int]);
                    assert(xs.skip(i as int).subrange(1, xs.skip(i as int).len() as int) =~= xs.skip(
                        i as int + 1,
                    ));
                    assert(ys.skip(i as int).subrange(1, ys.skip(i as int).len() as int) =~= ys.skip(
                        i as int + 1,
                    ));
                }
                match c {
                    Ordering::Equal => {},
                    _ => {
                        return c;
                    },
                }
                i += 1;
            }
            if i < x.len() {
                Ordering::Greater
            } else if i < y.len() {
                Ordering::Less
            } else {
                Ordering::Equal
            }
        },
        (Value::Object(x), Value::Object(y)) => {
            let ghost xs = entries_view(x@);
            let ghost ys = entries_view(y@);
            proof {
                lemma_entries_view(x@);
                lemma_entries_view(y@);
                assert(xs.skip(0) =~= xs);
                assert(ys.skip(0) =~= ys);
            }
            let mut i: usize = 0;
            while i < x.len() && i < y.len()
                invariant
                    *a == Value::Object(*x),
                    *b == Value::Object(*y),
                    i <= x@.len(),
                    i <= y@.len(),
                    xs == entries_view(x@),
                    ys == entries_view(y@),
                    xs.len() == x@.len(),
                    ys.len() == y@.len(),
                    forall|j: int| 0 <= j < x@.len() ==> #[trigger] xs[j] == (x@[j].0@, x@[j].1@),
                    forall|j: int| 0 <= j < y@.len() ==> #[trigger] ys[j] == (y@[j].0@, y@[j].1@),
                    entries_cmp(xs, ys) == entries_cmp(xs.skip(i as int), ys.skip(i as int)),
                decreases x@.len() - i,
            {
                proof {
                    assert(decreases_to!(*a => a->Object_0));
                    assert(decreases_to!(a->Object_0 => a->Object_0@));
                    assert(decreases_to!(a->Object_0@ => a->Object_0@[i as int]));
                    assert(decreases_to!(a->Object_0@[i as int] => a->Object_0@[i as int].1));
                    assert(xs.skip(i as int)[0] == xs[i as int]);
                    assert(ys.skip(i as int)[0] == ys[i as int]);
                    assert(xs.skip(i as int).subrange(1, xs.skip(i as int).len() as int) =~= xs.skip(
                        i as int + 1,
                    ));
                    assert(ys.skip(i as int).subrange(1, ys.skip(i as int).len() as int) =~= ys.skip(
                        i as int + 1,
                    ));
                }
                let k = compare_keys(&x[i].0, &y[i].0);
                match k {
                    Ordering::Equal => {},
                    _ => {
                        return k;
                    },
                }
                let c = compare_values(&x[i].1, &y[i].1);
                match c {
                    Ordering::Equal => {},
                    _ => {
                        return c;
                    },
                }
                i += 1;
            }
            if i < x.len() {
                Ordering::Greater
            } else if i < y.len() {
                Ordering::Less
            } else {
                Ordering::Equal
            }
        },
        _ => Ordering::Equal,
    }
}

/// Whether two trees are equal node for node, keys in the same order.
pub fn equal_values(a: &Value, b: &Value) -> (r: bool)
    ensures
        r == (a@ == b@),
    decreases a,
{
    match (a, b) {
        (Value::Null, Value::Null) => true,
        (Value::Bool(x), Value::Bool(y)) => *x == *y,
        (Value::Number(x), Value::Number(y)) => *x == *y,
        (Value::String(x), Value::String(y)) => *x == *y,
        (Value::Array(x), Value::Array(y)) => {
            proof {
                lemma_items_view(x@);
                lemma_items_view(y@);
            }
            if x.len() != y.len() {
                assert(items_view(x@).len() != items_view(y@).len());
                return false;
            }
            let mut i: usize = 0;
            while i < x.len()
                invariant
                    *a == Value::Array(*x),
                    *b == Value::Array(*y),
                    i <= x@.len(),
                    x@.len() == y@.len(),
                    items_view(x@).len() == x@.len(),
                    items_view(y@).len() == y@.len(),
                    forall|j: int| 0 <= j < x@.len() ==> #[trigger] items_view(x@)[j] == x@[j]@,
                    forall|j: int| 0 <= j < y@.len() ==> #[trigger] items_view(y@)[j] == y@[j]@,
                    forall|j: int| 0 <= j < i ==> x@[j]@ == y@[j]@,
                decreases x@.len() - i,
            {
                proof {
                    assert(decreases_to!(*a => a->Array_0));
                    assert(decreases_to!(a->Array_0 => a->Array_0@));
                    assert(decreases_to!(a->Array_0@ => a->Array_0@[i as int]));
                }
                if !equal_values(&x[i], &y[i]) {
                    assert(items_view(x@)[i as int] != items_view(y@)[i as int]);
                    return false;
                }
                i += 1;
            }
            assert(items_view(x@) =~= items_view(y@));
            true
        },
        (Value::Object(x), Value::Object(y)) => {
            proof {
                lemma_entries_view(x@);
                lemma_entries_view(y@);
            }
            if x.len() != y.len() {
                assert(entries_view(x@).len() != entries_view(y@).len());
                return false;
            }
            let mut i: usize = 0;
            while i < x.len()
                invariant
                    *a == Value::Object(*x),
                    *b == Value::Object(*y),
                    i <= x@.len(),
                    x@.len() == y@.len(),
                    entries_view(x@).len() == x@.len(),
                    entries_view(y@).len() == y@.len(),
                    forall|j: int|
                        0 <= j < x@.len() ==> #[trigger] entries_view(x@)[j] == (x@[j].0@, x@[j].1@),
                    forall|j: int|
                        0 <= j < y@.len() ==> #[trigger] entries_view(y@)[j] == (y@[j].0@, y@[j].1@),
                    forall|j: int| 0 <= j < i ==> x@[j].0@ == y@[j].0@ && x@[j].1@ == y@[j].1@,
                decreases x@.len() - i,
            {
                proof {
                    assert(decreases_to!(*a => a->Object_0));
                    assert(decreases_to!(a->Object_0 => a->Object_0@));
                    assert(decreases_to!(a->Object_0@ => a->Object_0@[i as int]));
                    assert(decreases_to!(a->Object_0@[i as int] => a->Object_0@[i as int].1));
                }
                if x[i].0 != y[i].0 {
                    assert(entries_view(x@)[i as int] != entries_view(y@)[i as int]);
                    return false;
                }
                if !equal_values(&x[i].1, &y[i].1) {
                    assert(entries_view(x@)[i as int] != entries_view(y@)[i as int]);
                    return false;
                }
                i += 1;
            }
            assert(entries_view(x@) =~= entries_view(y@));
            true
        },
        _ => false,
    }
}

/// Equality that also asks for the keys of every object to come in the same
/// order.
pub trait PartialEqOrdered {
    spec fn spec_eq_ordered(&self, other: &Self) -> bool;

    fn eq(&self, other: &Self) -> (r: bool)
        ensures
            r == self.spec_eq_ordered(other),
    ;
}

impl PartialEqOrdered for Value {
    open spec fn spec_eq_ordered(&self, other: &Self) -> bool {
        self@ == other@
    }

    fn eq(&self, other: &Self) -> (r: bool) {
        equal_values(self, other)
    }
}

/// The default total order of trees.
pub trait Ord {
    spec fn spec_cmp(&self, other: &Self) -> Ordering;

    fn cmp(&self, other: &Self) -> (r: Ordering)
        ensures
            r == self.spec_cmp(other),
    ;
}

impl Ord for Value {
    open spec fn spec_cmp(&self, other: &Self) -> Ordering {
        value_cmp(self@, other@)
    }

    fn cmp(&self, other: &Self) -> (r: Ordering) {
        compare_values(self, other)
    }
}

/// Equality of trees that ignores the order of keys: objects hold the same
/// keys with equal values, arrays equal items in the same order.
pub open spec fn deep_eq(x: Node, y: Node) -> bool
    decreases x, 1nat,
{
    if x is Obj && y is Obj {
        entries_deep_eq(x->Obj_0, y->Obj_0, 0) && keys_covered(y->Obj_0, x->Obj_0)
    } else if x is Arr && y is Arr {
        x->Arr_0.len() == y->Arr_0.len() && items_deep_eq(x->Arr_0, y->Arr_0, 0)
    } else {
        x == y
    }
}

/// Each entry of `e` from the `i`-th on has its key in `f`, with a value
/// that `deep_eq` the value there.
pub open spec fn entries_deep_eq(e: Seq<(Seq<char>, Node)>, f: Seq<(Seq<char>, Node)>, i: nat) -> bool
    decreases e, e.len() - i,
{
    if i >= e.len() {
        true
    } else {
        key_index(f, e[i as int].0) >= 0 && deep_eq(e[i as int].1, f[key_index(f, e[i as int].0)].1)
            && entries_deep_eq(e, f, i + 1)
    }
}

/// Each item of `a` from the `i`-th on `deep_eq` the item of `b` there.
pub open spec fn items_deep_eq(a: Seq<Node>, b: Seq<Node>, i: nat) -> bool
    decreases a, a.len() - i,
{
    if i >= a.len() {
        true
    } else {
        deep_eq(a[i as int], b[i as int]) && items_deep_eq(a, b, i + 1)
    }
}

/// Every key of `f` is a key of `e`.
pub open spec fn keys_covered(f: Seq<(Seq<char>, Node)>, e: Seq<(Seq<char>, Node)>) -> bool {
    forall|j: int| 0 <= j < f.len() ==> key_index(e, (#[trigger] f[j]).0) >= 0
}

/// `entries_deep_eq` holds where each entry from the `i`-th on matches.
pub proof fn lemma_entries_deep_eq(e: Seq<(Seq<char>, Node)>, f: Seq<(Seq<char>, Node)>, i: nat)
    ensures
        entries_deep_eq(e, f, i) == forall|k: int|
            i <= k < e.len() ==> key_index(f, (#[trigger] e[k]).0) >= 0 && deep_eq(
                e[k].1,
                f[key_index(f, e[k].0)].1,
            ),
    decreases e.len() - i,
{
    if i < e.len() {
        lemma_entries_deep_eq(e, f, i + 1);
        assert(e[i as int] == e[i as int]);
    }
}

/// `items_deep_eq` holds where each item from the `i`-th on matches.
pub proof fn lemma_items_deep_eq(a: Seq<Node>, b: Seq<Node>, i: nat)
    ensures
        items_deep_eq(a, b, i) == forall|k: int| i <= k < a.len() ==> deep_eq(#[trigger] a[k], b[k]),
    decreases a.len() - i,
{
    if i < a.len() {
        lemma_items_deep_eq(a, b, i + 1);
        assert(a[i as int] == a[i as int]);
    }
}

/// Whether two trees are equal when the order of keys is ignored: see
/// `deep_eq`.
pub fn deep_equal(a: &Value, b: &Value) -> (r: bool)
    ensures
        r == deep_eq(a@, b@),
    decreases a,
{
    match (a, b) {
        (Value::Object(e), Value::Object(f)) => {
            let ghost ev = entries_view(e@);
            let ghost fv = entries_view(f@);
            proof {
                lemma_entries_view(e@);
                lemma_entries_view(f@);
            }
            let mut i: usize = 0;
            while i < e.len()
                invariant
                    *a == Value::Object(*e),
                    *b == Value::Object(*f),
                    ev == entries_view(e@),
                    fv == entries_view(f@),
                    i <= e@.len(),
                    ev.len() == e@.len(),
                    fv.len() == f@.len(),
                    forall|j: int| 0 <= j < e@.len() ==> #[trigger] ev[j] == (e@[j].0@, e@[j].1@),
                    forall|j: int| 0 <= j < f@.len() ==> #[trigger] fv[j] == (f@[j].0@, f@[j].1@),
                    forall|ii: int|
                        0 <= ii < i ==> key_index(fv, (#[trigger] ev[ii]).0) >= 0 && deep_eq(
                            ev[ii].1,
                            fv[key_index(fv, ev[ii].0)].1,
                        ),
                decreases e@.len() - i,
            {
                proof {
                    assert(decreases_to!(*a => a->Object_0));
                    assert(decreases_to!(a->Object_0 => a->Object_0@));
                    assert(decreases_to!(a->Object_0@ => a->Object_0@[i as int]));
                    assert(decreases_to!(a->Object_0@[i as int] => a->Object_0@[i as int].1));
                }
                match find_key(f, &e[i].0) {
                    None => {
                        assert(a@ == Node::Obj(ev) && b@ == Node::Obj(fv));
                        proof {
                            lemma_entries_deep_eq(ev, fv, 0);
                            assert(ev[i as int] == ev[i as int]);
                        }
                        return false;
                    },
                    Some(j) => {
                        if !deep_equal(&e[i].1, &f[j].1) {
                            assert(!deep_eq(ev[i as int].1, fv[key_index(fv, ev[i as int].0)].1));
                            assert(a@ == Node::Obj(ev) && b@ == Node::Obj(fv));
                            proof {
                                lemma_entries_deep_eq(ev, fv, 0);
                            assert(ev[i as int] == ev[i as int]);
                            }
                            return false;
                        }
                    },
                }
                i += 1;
            }
            let mut j: usize = 0;
            while j < f.len()
                invariant
                    *a == Value::Object(*e),
                    *b == Value::Object(*f),
                    ev == entries_view(e@),
                    fv == entries_view(f@),
                    j <= f@.len(),
                    ev.len() == e@.len(),
                    fv.len() == f@.len(),
                    forall|x: int| 0 <= x < e@.len() ==> #[trigger] ev[x] == (e@[x].0@, e@[x].1@),
                    forall|x: int| 0 <= x < f@.len() ==> #[trigger] fv[x] == (f@[x].0@, f@[x].1@),
                    forall|ii: int|
                        0 <= ii < e@.len() ==> key_index(fv, (#[trigger] ev[ii]).0) >= 0 && deep_eq(
                            ev[ii].1,
                            fv[key_index(fv, ev[ii].0)].1,
                        ),
                    forall|jj: int| 0 <= jj < j ==> key_index(ev, (#[trigger] fv[jj]).0) >= 0,
                decreases f@.len() - j,
            {
                match find_key(e, &f[j].0) {
                    None => {
                        assert(a@ == Node::Obj(ev) && b@ == Node::Obj(fv));
                        proof {
                            assert(fv[j as int] == fv[j as int]);
                            assert(!keys_covered(fv, ev));
                        }
                        return false;
                    },
                    Some(_) => {},
                }
                j += 1;
            }
            assert(a@ == Node::Obj(ev) && b@ == Node::Obj(fv));
            proof {
                lemma_entries_deep_eq(ev, fv, 0);
            }
            true
        },
        (Value::Array(x), Value::Array(y)) => {
            proof {
                lemma_items_view(x@);
                lemma_items_view(y@);
            }
            if x.len() != y.len() {
                return false;
            }
            let mut i: usize = 0;
            while i < x.len()
                invariant
                    *a == Value::Array(*x),
                    *b == Value::Array(*y),
                    i <= x@.len(),
                    x@.len() == y@.len(),
                    items_view(x@).len() == x@.len(),
                    items_view(y@).len() == y@.len(),
                    forall|jj: int| 0 <= jj < x@.len() ==> #[trigger] items_view(x@)[jj] == x@[jj]@,
                    forall|jj: int| 0 <= jj < y@.len() ==> #[trigger] items_view(y@)[jj] == y@[jj]@,
                    forall|jj: int| 0 <= jj < i ==> deep_eq(#[trigger] items_view(x@)[jj], items_view(y@)[jj]),
                decreases x@.len() - i,
            {
                proof {
                    assert(decreases_to!(*a => a->Array_0));
                    assert(decreases_to!(a->Array_0 => a->Array_0@));
                    assert(decreases_to!(a->Array_0@ => a->Array_0@[i as int]));
                }
                if !deep_equal(&x[i], &y[i]) {
                    proof {
                        lemma_items_deep_eq(items_view(x@), items_view(y@), 0);
                        assert(!deep_eq(items_view(x@)[i as int], items_view(y@)[i as int]));
                    }
                    return false;
                }
                i += 1;
            }
            proof {
                lemma_items_deep_eq(items_view(x@), items_view(y@), 0);
            }
            true
        },
        _ => equal_values(a, b),
    }
}

} // verus!
