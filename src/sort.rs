//! Sorting the keys of objects and the items of arrays.
use crate::index::{path_cmp, Path, Step};
use crate::iter::{mutate_walk, visited, Visitor};
use crate::order::{compare_values, value_cmp};
use crate::value::{
    entries_view, items_view, lemma_entries_view, lemma_items_view, well_formed, Node, Value,
};
use std::cmp::Ordering;
use vstd::prelude::*;

verus! {

broadcast use vstd::std_specs::vec::group_vec_axioms;

/// `t` with `x` put in after the last item that is not greater than `x`
/// (and before the greater items behind it).
pub open spec fn sort_insert<A>(cmp: spec_fn(A, A) -> Ordering, t: Seq<A>, x: A) -> Seq<A>
    decreases t.len(),
{
    if t.len() == 0 {
        seq![x]
    } else if cmp(t.last(), x) == Ordering::Greater {
        sort_insert(cmp, t.drop_last(), x).push(t.last())
    } else {
        t.push(x)
    }
}

/// Stable insertion sort of `s` by `cmp`.
pub open spec fn insertion_sort<A>(cmp: spec_fn(A, A) -> Ordering, s: Seq<A>) -> Seq<A>
    decreases s.len(),
{
    if s.len() == 0 {
        s
    } else {
        sort_insert(cmp, insertion_sort(cmp, s.drop_last()), s.last())
    }
}

proof fn lemma_sort_insert_at<A>(cmp: spec_fn(A, A) -> Ordering, t: Seq<A>, x: A, k: int)
    requires
        0 <= k <= t.len(),
        forall|m: int| k <= m < t.len() ==> cmp(#[trigger] t[m], x) == Ordering::Greater,
        k == 0 || cmp(t[k - 1], x) != Ordering::Greater,
    ensures
        sort_insert(cmp, t, x) == t.insert(k, x),
    decreases t.len(),
{
    if t.len() == 0 {
        assert(t.insert(k, x) =~= seq![x]);
    } else if k == t.len() {
        assert(t.insert(k, x) =~= t.push(x));
    } else {
        let u = t.drop_last();
        assert forall|m: int| k <= m < u.len() implies cmp(#[trigger] u[m], x) == Ordering::Greater by {
            assert(u[m] == t[m]);
        }
        if k > 0 {
            assert(u[k - 1] == t[k - 1]);
        }
        lemma_sort_insert_at(cmp, u, x, k);
        assert(u.insert(k, x).push(t.last()) =~= t.insert(k, x));
    }
}

/// An order on the entries of an object, which sees each entry's full path.
pub trait KeyOrder {
    spec fn spec_cmp(&self, ap: Seq<Step>, av: Node, bp: Seq<Step>, bv: Node) -> Ordering;

    fn cmp(&self, ap: &Path, av: &Value, bp: &Path, bv: &Value) -> (r: Ordering)
        ensures
            r == self.spec_cmp(ap@, av@, bp@, bv@),
    ;
}

/// An order on the items of an array.
pub trait ValueOrder {
    spec fn spec_cmp(&self, a: Node, b: Node) -> Ordering;

    fn cmp(&self, a: &Value, b: &Value) -> (r: Ordering)
        ensures
            r == self.spec_cmp(a@, b@),
    ;
}

/// The default order of entries: by their paths.
pub struct PathOrder;

impl KeyOrder for PathOrder {
    open spec fn spec_cmp(&self, ap: Seq<Step>, av: Node, bp: Seq<Step>, bv: Node) -> Ordering {
        path_cmp(ap, bp)
    }

    fn cmp(&self, ap: &Path, av: &Value, bp: &Path, bv: &Value) -> (r: Ordering) {
        ap.compare(bp)
    }
}

/// The default order of values: see `value_cmp`.
pub struct DefaultOrder;

impl ValueOrder for DefaultOrder {
    open spec fn spec_cmp(&self, a: Node, b: Node) -> Ordering {
        value_cmp(a, b)
    }

    fn cmp(&self, a: &Value, b: &Value) -> (r: Ordering) {
        compare_values(a, b)
    }
}

/// The order that `o` puts on the entries of an object at `parent`.
pub open spec fn entry_order<O: KeyOrder>(o: O, parent: Seq<Step>) -> spec_fn(
    (Seq<char>, Node),
    (Seq<char>, Node),
) -> Ordering {
    |x: (Seq<char>, Node), y: (Seq<char>, Node)|
        o.spec_cmp(parent.push(Step::Key(x.0)), x.1, parent.push(Step::Key(y.0)), y.1)
}

pub open spec fn item_order<O: ValueOrder>(o: O) -> spec_fn(Node, Node) -> Ordering {
    |x: Node, y: Node| o.spec_cmp(x, y)
}

/// The entries of an object at `parent`, sorted stably by `o`.
pub open spec fn sorted_entries<O: KeyOrder>(o: O, parent: Seq<Step>, e: Seq<(Seq<char>, Node)>) -> Seq<
    (Seq<char>, Node),
> {
    insertion_sort(entry_order(o, parent), e)
}

fn entry_path(parent: &Path, key: &String) -> (r: Path)
    ensures
        r@ == parent@.push(Step::Key(key@)),
{
    let r = parent.duplicate().join(&Path::new(key.clone()));
    assert(r@ =~= parent@.push(Step::Key(key@)));
    r
}

/// Sorts the entries of an object at `parent` stably by `o`.
pub fn sort_entries<O: KeyOrder>(entries: &mut Vec<(String, Value)>, parent: &Path, o: &O)
    ensures
        entries_view(final(entries)@) == sorted_entries(*o, parent@, entries_view(old(entries)@)),
{
    let ghost cmp = entry_order(*o, parent@);
    let ghost e0 = entries_view(entries@);
    let mut src: Vec<(String, Value)> = Vec::new();
    std::mem::swap(entries, &mut src);
    let mut out: Vec<(String, Value)> = Vec::new();
    proof {
        lemma_entries_view(src@);
        assert(src@ == old(entries)@);
        assert(e0.take(0) =~= Seq::<(Seq<char>, Node)>::empty());
        assert(entries_view(out@) =~= Seq::<(Seq<char>, Node)>::empty());
    }
    let n = src.len();
    let mut i: usize = 0;
    while i < n
        invariant
            i <= n,
            n == e0.len(),
            src@.len() == n - i,
            forall|j: int| 0 <= j < src@.len() ==> (#[trigger] src@[j].0@, src@[j].1@) == e0[i + j],
            entries_view(out@) == insertion_sort(cmp, e0.take(i as int)),
            cmp == entry_order(*o, parent@),
        decreases n - i,
    {
        let ghost src_before = src@;
        let x = src.remove(0);
        let ghost xm = (x.0@, x.1@);
        assert(xm == e0[i as int]);
        let px = entry_path(parent, &x.0);
        let ghost t = entries_view(out@);
        proof {
            lemma_entries_view(out@);
        }
        let mut k: usize = out.len();
        while k > 0
            invariant
                k <= out@.len(),
                t == entries_view(out@),
                t.len() == out@.len(),
                forall|j: int| 0 <= j < out@.len() ==> #[trigger] t[j] == (out@[j].0@, out@[j].1@),
                forall|m: int| k <= m < t.len() ==> cmp(#[trigger] t[m], xm) == Ordering::Greater,
                px@ == parent@.push(Step::Key(x.0@)),
                xm == (x.0@, x.1@),
                cmp == entry_order(*o, parent@),
            ensures
                k == 0 || cmp(t[k - 1], xm) != Ordering::Greater,
                forall|m: int| k <= m < t.len() ==> cmp(#[trigger] t[m], xm) == Ordering::Greater,
            decreases k,
        {
            let pk = entry_path(parent, &out[k - 1].0);
            let c = o.cmp(&pk, &out[k - 1].1, &px, &x.1);
            match c {
                Ordering::Greater => {},
                _ => {
                    break;
                },
            }
            k -= 1;
        }
        let ghost before = out@;
        out.insert(k, x);
        proof {
            lemma_sort_insert_at(cmp, t, xm, k as int);
            lemma_entries_view(out@);
            assert(entries_view(out@) =~= t.insert(k as int, xm));
            assert(e0.take(i as int + 1).drop_last() =~= e0.take(i as int));
            assert(e0.take(i as int + 1).last() == xm);
            assert forall|j: int| 0 <= j < src@.len() implies (#[trigger] src@[j].0@, src@[j].1@)
                == e0[i + 1 + j] by {
                assert(src@[j] == src_before[j + 1]);
            }
        }
        i += 1;
    }
    assert(e0.take(n as int) =~= e0);
    *entries = out;
}

/// The items of an array, sorted stably by `o`.
pub open spec fn sorted_items<O: ValueOrder>(o: O, a: Seq<Node>) -> Seq<Node> {
    insertion_sort(item_order(o), a)
}

/// Sorts the items of an array stably by `o`.
pub fn sort_items<O: ValueOrder>(items: &mut Vec<Value>, o: &O)
    ensures
        items_view(final(items)@) == sorted_items(*o, items_view(old(items)@)),
{
    let ghost cmp = item_order(*o);
    let ghost e0 = items_view(items@);
    let mut src: Vec<Value> = Vec::new();
    std::mem::swap(items, &mut src);
    let mut out: Vec<Value> = Vec::new();
    proof {
        lemma_items_view(src@);
        assert(src@ == old(items)@);
        assert(e0.take(0) =~= Seq::<Node>::empty());
        assert(items_view(out@) =~= Seq::<Node>::empty());
    }
    let n = src.len();
    let mut i: usize = 0;
    while i < n
        invariant
            i <= n,
            n == e0.len(),
            src@.len() == n - i,
            forall|j: int| 0 <= j < src@.len() ==> (#[trigger] src@[j])@ == e0[i + j],
            items_view(out@) == insertion_sort(cmp, e0.take(i as int)),
            cmp == item_order(*o),
        decreases n - i,
    {
        let ghost src_before = src@;
        let x = src.remove(0);
        assert(x@ == e0[i as int]);
        let ghost t = items_view(out@);
        proof {
            lemma_items_view(out@);
        }
        let mut k: usize = out.len();
        while k > 0
            invariant
                k <= out@.len(),
                t == items_view(out@),
                t.len() == out@.len(),
                forall|j: int| 0 <= j < out@.len() ==> #[trigger] t[j] == out@[j]@,
                forall|m: int| k <= m < t.len() ==> cmp(#[trigger] t[m], x@) == Ordering::Greater,
                cmp == item_order(*o),
            ensures
                k == 0 || cmp(t[k - 1], x@) != Ordering::Greater,
                forall|m: int| k <= m < t.len() ==> cmp(#[trigger] t[m], x@) == Ordering::Greater,
            decreases k,
        {
            let c = o.cmp(&out[k - 1], &x);
            match c {
                Ordering::Greater => {},
                _ => {
                    break;
                },
            }
            k -= 1;
        }
        let ghost xm = x@;
        out.insert(k, x);
        proof {
            lemma_sort_insert_at(cmp, t, xm, k as int);
            lemma_items_view(out@);
            assert(items_view(out@) =~= t.insert(k as int, xm));
            assert(e0.take(i as int + 1).drop_last() =~= e0.take(i as int));
            assert(e0.take(i as int + 1).last() == xm);
            assert forall|j: int| 0 <= j < src@.len() implies (#[trigger] src@[j])@ == e0[i + 1 + j] by {
                assert(src@[j] == src_before[j + 1]);
            }
        }
        i += 1;
    }
    assert(e0.take(n as int) =~= e0);
    *items = out;
}

/// The tree with the keys of its top object sorted, children untouched.
pub open spec fn sort_keys_spec<O: KeyOrder>(o: O, parent: Seq<Step>, n: Node) -> Node {
    match n {
        Node::Obj(e) => Node::Obj(sorted_entries(o, parent, e)),
        _ => n,
    }
}

/// The tree with the items of its top array sorted, children untouched.
pub open spec fn sort_values_spec<O: ValueOrder>(o: O, n: Node) -> Node {
    match n {
        Node::Arr(a) => Node::Arr(sorted_items(o, a)),
        _ => n,
    }
}

/// Visitor that sorts the keys of each object it meets.
pub struct SortKeys<'a, O: KeyOrder> {
    pub order: &'a O,
}

impl<'a, O: KeyOrder> Visitor for SortKeys<'a, O> {
    open spec fn spec_visit(&self, p: Seq<Step>, n: Node) -> Option<Node> {
        match n {
            Node::Obj(_) => Some(sort_keys_spec(*self.order, p, n)),
            _ => None,
        }
    }

    fn visit(&self, p: &Path, n: &Value) -> (r: Option<Value>) {
        match n {
            Value::Object(_) => {
                let mut m = n.deep_clone();
                if let Value::Object(e) = &mut m {
                    sort_entries(e, p, self.order);
                }
                Some(m)
            },
            _ => None,
        }
    }
}

/// Visitor that sorts the items of each array it meets.
pub struct SortValues<'a, O: ValueOrder> {
    pub order: &'a O,
}

impl<'a, O: ValueOrder> Visitor for SortValues<'a, O> {
    open spec fn spec_visit(&self, p: Seq<Step>, n: Node) -> Option<Node> {
        match n {
            Node::Arr(_) => Some(sort_values_spec(*self.order, n)),
            _ => None,
        }
    }

    fn visit(&self, p: &Path, n: &Value) -> (r: Option<Value>) {
        match n {
            Value::Array(_) => {
                let mut m = n.deep_clone();
                if let Value::Array(a) = &mut m {
                    sort_items(a, self.order);
                }
                Some(m)
            },
            _ => None,
        }
    }
}

impl Value {
    /// Sorts the keys of this object by `o`, which sees one-step paths; other
    /// nodes are left as they are.
    pub fn sort_keys_by<O: KeyOrder>(&mut self, o: &O)
        ensures
            final(self)@ == sort_keys_spec(*o, Seq::empty(), old(self)@),
            well_formed(old(self)@) ==> well_formed(final(self)@),
    {
        proof {
            crate::laws::lemma_sort_keys_valid(o);
            assert(visited(SortKeys { order: o }, Seq::empty(), self@) == sort_keys_spec(
                *o,
                Seq::empty(),
                self@,
            ));
        }
        if let Value::Object(e) = self {
            let root = Path::empty();
            sort_entries(e, &root, o);
        }
    }

    /// `sort_keys_by`; equal entries may come in any order.
    pub fn sort_keys_unstable_by<O: KeyOrder>(&mut self, o: &O)
        ensures
            final(self)@ == sort_keys_spec(*o, Seq::empty(), old(self)@),
            well_formed(old(self)@) ==> well_formed(final(self)@),
    {
        self.sort_keys_by(o);
    }

    /// Sorts the keys of this object by their text.
    pub fn sort_keys(&mut self)
        ensures
            final(self)@ == sort_keys_spec(PathOrder, Seq::empty(), old(self)@),
            well_formed(old(self)@) ==> well_formed(final(self)@),
    {
        self.sort_keys_by(&PathOrder);
    }

    /// `sort_keys`; equal entries may come in any order.
    pub fn sort_keys_unstable(&mut self)
        ensures
            final(self)@ == sort_keys_spec(PathOrder, Seq::empty(), old(self)@),
            well_formed(old(self)@) ==> well_formed(final(self)@),
    {
        self.sort_keys();
    }

    /// This tree with the keys of its top object sorted by their text.
    pub fn sorted_keys(self) -> (r: Value)
        ensures
            r@ == sort_keys_spec(PathOrder, Seq::empty(), self@),
            well_formed(self@) ==> well_formed(r@),
    {
        let mut r = self;
        r.sort_keys();
        r
    }

    /// `sorted_keys`; equal entries may come in any order.
    pub fn sorted_keys_unstable(self) -> (r: Value)
        ensures
            r@ == sort_keys_spec(PathOrder, Seq::empty(), self@),
            well_formed(self@) ==> well_formed(r@),
    {
        self.sorted_keys()
    }

    /// This tree with the keys of its top object sorted by `o`.
    pub fn sorted_keys_by<O: KeyOrder>(self, o: &O) -> (r: Value)
        ensures
            r@ == sort_keys_spec(*o, Seq::empty(), self@),
            well_formed(self@) ==> well_formed(r@),
    {
        let mut r = self;
        r.sort_keys_by(o);
        r
    }

    /// Sorts the keys of every object in the tree by `o`, which sees the
    /// full paths of the entries it compares.
    pub fn sort_keys_by_recursive<O: KeyOrder>(&mut self, o: &O)
        ensures
            final(self)@ == mutate_walk(SortKeys { order: o }, old(self)@, Seq::empty(), 0, None),
            well_formed(old(self)@) ==> well_formed(final(self)@),
    {
        proof {
            crate::laws::lemma_sort_keys_valid(o);
        }
        let v = SortKeys { order: o };
        self.for_each_mut_recursive(&v);
    }

    /// `sort_keys_by_recursive`; equal entries may come in any order.
    pub fn sort_keys_unstable_by_recursive<O: KeyOrder>(&mut self, o: &O)
        ensures
            final(self)@ == mutate_walk(SortKeys { order: o }, old(self)@, Seq::empty(), 0, None),
            well_formed(old(self)@) ==> well_formed(final(self)@),
    {
        self.sort_keys_by_recursive(o);
    }

    /// Sorts the keys of every object in the tree by their text.
    pub fn sort_keys_recursive(&mut self)
        ensures
            final(self)@ == mutate_walk(
                SortKeys { order: &PathOrder },
                old(self)@,
                Seq::empty(),
                0,
                None,
            ),
            well_formed(old(self)@) ==> well_formed(final(self)@),
    {
        self.sort_keys_by_recursive(&PathOrder);
    }

    /// `sort_keys_recursive`; equal entries may come in any order.
    pub fn sort_keys_unstable_recursive(&mut self)
        ensures
            final(self)@ == mutate_walk(
                SortKeys { order: &PathOrder },
                old(self)@,
                Seq::empty(),
                0,
                None,
            ),
            well_formed(old(self)@) ==> well_formed(final(self)@),
    {
        self.sort_keys_recursive();
    }

    /// This tree with the keys of every object sorted by their text.
    pub fn sorted_keys_recursive(self) -> (r: Value)
        ensures
            r@ == mutate_walk(SortKeys { order: &PathOrder }, self@, Seq::empty(), 0, None),
            well_formed(self@) ==> well_formed(r@),
    {
        let mut r = self;
        r.sort_keys_recursive();
        r
    }

    /// `sorted_keys_recursive`; equal entries may come in any order.
    pub fn sorted_keys_unstable_recursive(self) -> (r: Value)
        ensures
            r@ == mutate_walk(SortKeys { order: &PathOrder }, self@, Seq::empty(), 0, None),
            well_formed(self@) ==> well_formed(r@),
    {
        self.sorted_keys_recursive()
    }

    /// This tree with the keys of every object sorted by `o`.
    pub fn sorted_keys_by_recursive<O: KeyOrder>(self, o: &O) -> (r: Value)
        ensures
            r@ == mutate_walk(SortKeys { order: o }, self@, Seq::empty(), 0, None),
            well_formed(self@) ==> well_formed(r@),
    {
        let mut r = self;
        r.sort_keys_by_recursive(o);
        r
    }

    /// Sorts the items of this array by `o`; other nodes are left as they are.
    pub fn sort_values_by<O: ValueOrder>(&mut self, o: &O)
        ensures
            final(self)@ == sort_values_spec(*o, old(self)@),
            well_formed(old(self)@) ==> well_formed(final(self)@),
    {
        proof {
            crate::laws::lemma_sort_values_valid(o);
            assert(visited(SortValues { order: o }, Seq::empty(), self@) == sort_values_spec(
                *o,
                self@,
            ));
        }
        if let Value::Array(a) = self {
            sort_items(a, o);
        }
    }

    /// `sort_values_by`; equal items may come in any order.
    pub fn sort_values_unstable_by<O: ValueOrder>(&mut self, o: &O)
        ensures
            final(self)@ == sort_values_spec(*o, old(self)@),
            well_formed(old(self)@) ==> well_formed(final(self)@),
    {
        self.sort_values_by(o);
    }

    /// Sorts the items of this array in the default order.
    pub fn sort_values(&mut self)
        ensures
            final(self)@ == sort_values_spec(DefaultOrder, old(self)@),
            well_formed(old(self)@) ==> well_formed(final(self)@),
    {
        self.sort_values_by(&DefaultOrder);
    }

    /// `sort_values`; equal items may come in any order.
    pub fn sort_values_unstable(&mut self)
        ensures
            final(self)@ == sort_values_spec(DefaultOrder, old(self)@),
            well_formed(old(self)@) ==> well_formed(final(self)@),
    {
        self.sort_values();
    }

    /// This tree with the items of its top array sorted in the default order.
    pub fn sorted_values(self) -> (r: Value)
        ensures
            r@ == sort_values_spec(DefaultOrder, self@),
            well_formed(self@) ==> well_formed(r@),
    {
        let mut r = self;
        r.sort_values();
        r
    }

    /// `sorted_values`; equal items may come in any order.
    pub fn sorted_values_unstable(self) -> (r: Value)
        ensures
            r@ == sort_values_spec(DefaultOrder, self@),
            well_formed(self@) ==> well_formed(r@),
    {
        self.sorted_values()
    }

    /// This tree with the items of its top array sorted by `o`.
    pub fn sorted_values_by<O: ValueOrder>(self, o: &O) -> (r: Value)
        ensures
            r@ == sort_values_spec(*o, self@),
            well_formed(self@) ==> well_formed(r@),
    {
        let mut r = self;
        r.sort_values_by(o);
        r
    }

    /// Sorts the items of every array in the tree by `o`.
    pub fn sort_values_by_recursive<O: ValueOrder>(&mut self, o: &O)
        ensures
            final(self)@ == mutate_walk(SortValues { order: o }, old(self)@, Seq::empty(), 0, None),
            well_formed(old(self)@) ==> well_formed(final(self)@),
    {
        proof {
            crate::laws::lemma_sort_values_valid(o);
        }
        let v = SortValues { order: o };
        self.for_each_mut_recursive(&v);
    }

    /// `sort_values_by_recursive`; equal items may come in any order.
    pub fn sort_values_unstable_by_recursive<O: ValueOrder>(&mut self, o: &O)
        ensures
            final(self)@ == mutate_walk(SortValues { order: o }, old(self)@, Seq::empty(), 0, None),
            well_formed(old(self)@) ==> well_formed(final(self)@),
    {
        self.sort_values_by_recursive(o);
    }

    /// Sorts the items of every array in the tree in the default order.
    pub fn sort_values_recursive(&mut self)
        ensures
            final(self)@ == mutate_walk(
                SortValues { order: &DefaultOrder },
                old(self)@,
                Seq::empty(),
                0,
                None,
            ),
            well_formed(old(self)@) ==> well_formed(final(self)@),
    {
        self.sort_values_by_recursive(&DefaultOrder);
    }

    /// `sort_values_recursive`; equal items may come in any order.
    pub fn sort_values_unstable_recursive(&mut self)
        ensures
            final(self)@ == mutate_walk(
                SortValues { order: &DefaultOrder },
                old(self)@,
                Seq::empty(),
                0,
                None,
            ),
            well_formed(old(self)@) ==> well_formed(final(self)@),
    {
        self.sort_values_recursive();
    }

    /// This tree with the items of every array sorted in the default order.
    pub fn sorted_values_recursive(self) -> (r: Value)
        ensures
            r@ == mutate_walk(SortValues { order: &DefaultOrder }, self@, Seq::empty(), 0, None),
            well_formed(self@) ==> well_formed(r@),
    {
        let mut r = self;
        r.sort_values_recursive();
        r
    }

    /// `sorted_values_recursive`; equal items may come in any order.
    pub fn sorted_values_unstable_recursive(self) -> (r: Value)
        ensures
            r@ == mutate_walk(SortValues { order: &DefaultOrder }, self@, Seq::empty(), 0, None),
            well_formed(self@) ==> well_formed(r@),
    {
        self.sorted_values_recursive()
    }

    /// This tree with the items of every array sorted by `o`.
    pub fn sorted_values_by_recursive<O: ValueOrder>(self, o: &O) -> (r: Value)
        ensures
            r@ == mutate_walk(SortValues { order: o }, self@, Seq::empty(), 0, None),
            well_formed(self@) ==> well_formed(r@),
    {
        let mut r = self;
        r.sort_values_by_recursive(o);
        r
    }

    /// Sorts object keys by their text, then array items in the default order,
    /// at the top node only.
    pub fn sort(&mut self)
        ensures
            final(self)@ == sort_values_spec(
                DefaultOrder,
                sort_keys_spec(PathOrder, Seq::empty(), old(self)@),
            ),
            well_formed(old(self)@) ==> well_formed(final(self)@),
    {
        self.sort_keys();
        self.sort_values();
    }

    /// Sorts the keys of every object, then the items of every array.
    pub fn sort_recursive(&mut self)
        ensures
            final(self)@ == mutate_walk(
                SortValues { order: &DefaultOrder },
                mutate_walk(SortKeys { order: &PathOrder }, old(self)@, Seq::empty(), 0, None),
                Seq::empty(),
                0,
                None,
            ),
            well_formed(old(self)@) ==> well_formed(final(self)@),
    {
        self.sort_keys_recursive();
        self.sort_values_recursive();
    }
}

/// Whether a closure can stand as an order of entries: it accepts every
/// argument and answers alike for arguments of the same value.
pub open spec fn key_order_fn<F: Fn(&Path, &Value, &Path, &Value) -> Ordering>(f: F) -> bool {
    &&& forall|ap: &Path, av: &Value, bp: &Path, bv: &Value| #[trigger] f.requires((ap, av, bp, bv))
    &&& forall|
        ap1: &Path,
        av1: &Value,
        bp1: &Path,
        bv1: &Value,
        r1: Ordering,
        ap2: &Path,
        av2: &Value,
        bp2: &Path,
        bv2: &Value,
        r2: Ordering,
    |
        #![trigger f.ensures((ap1, av1, bp1, bv1), r1), f.ensures((ap2, av2, bp2, bv2), r2)]
        f.ensures((ap1, av1, bp1, bv1), r1) && f.ensures((ap2, av2, bp2, bv2), r2) && ap1@ == ap2@
            && av1@ == av2@ && bp1@ == bp2@ && bv1@ == bv2@ ==> r1 == r2
}

/// An order of entries made of a closure.
pub struct KeysBy<F: Fn(&Path, &Value, &Path, &Value) -> Ordering> {
    f: F,
}

impl<F: Fn(&Path, &Value, &Path, &Value) -> Ordering> KeysBy<F> {
    #[verifier::type_invariant]
    spec fn inv(&self) -> bool {
        key_order_fn(self.f)
    }

    pub closed spec fn func(&self) -> F {
        self.f
    }

    /// Wraps `f`, which must accept every argument and answer alike for
    /// arguments of the same value.
    pub fn new(f: F) -> (r: KeysBy<F>)
        requires
            key_order_fn(f),
        ensures
            r.func() == f,
    {
        KeysBy { f }
    }
}

impl<F: Fn(&Path, &Value, &Path, &Value) -> Ordering> KeyOrder for KeysBy<F> {
    closed spec fn spec_cmp(&self, ap: Seq<Step>, av: Node, bp: Seq<Step>, bv: Node) -> Ordering {
        let w = choose|w: (&Path, &Value, &Path, &Value, Ordering)|
            w.0@ == ap && w.1@ == av && w.2@ == bp && w.3@ == bv && call_ensures(
                self.f,
                (w.0, w.1, w.2, w.3),
                w.4,
            );
        w.4
    }

    fn cmp(&self, ap: &Path, av: &Value, bp: &Path, bv: &Value) -> (r: Ordering) {
        proof {
            use_type_invariant(self);
        }
        let r = (self.f)(ap, av, bp, bv);
        proof {
            let wit = (ap, av, bp, bv, r);
            assert(wit.0@ == ap@ && wit.1@ == av@ && wit.2@ == bp@ && wit.3@ == bv@ && call_ensures(
                self.f,
                (wit.0, wit.1, wit.2, wit.3),
                wit.4,
            ));
            let w = choose|w: (&Path, &Value, &Path, &Value, Ordering)|
                w.0@ == ap@ && w.1@ == av@ && w.2@ == bp@ && w.3@ == bv@ && call_ensures(
                    self.f,
                    (w.0, w.1, w.2, w.3),
                    w.4,
                );
            assert(call_ensures(self.f, (w.0, w.1, w.2, w.3), w.4));
        }
        r
    }
}

/// Whether a closure can stand as an order of values: it accepts every
/// argument and answers alike for arguments of the same value.
pub open spec fn value_order_fn<F: Fn(&Value, &Value) -> Ordering>(f: F) -> bool {
    &&& forall|a: &Value, b: &Value| #[trigger] f.requires((a, b))
    &&& forall|a1: &Value, b1: &Value, r1: Ordering, a2: &Value, b2: &Value, r2: Ordering|
        #![trigger f.ensures((a1, b1), r1), f.ensures((a2, b2), r2)]
        f.ensures((a1, b1), r1) && f.ensures((a2, b2), r2) && a1@ == a2@ && b1@ == b2@ ==> r1 == r2
}

/// An order of values made of a closure.
pub struct ValuesBy<F: Fn(&Value, &Value) -> Ordering> {
    f: F,
}

impl<F: Fn(&Value, &Value) -> Ordering> ValuesBy<F> {
    #[verifier::type_invariant]
    spec fn inv(&self) -> bool {
        value_order_fn(self.f)
    }

    pub closed spec fn func(&self) -> F {
        self.f
    }

    /// Wraps `f`, which must accept every argument and answer alike for
    /// arguments of the same value.
    pub fn new(f: F) -> (r: ValuesBy<F>)
        requires
            value_order_fn(f),
        ensures
            r.func() == f,
    {
        ValuesBy { f }
    }
}

impl<F: Fn(&Value, &Value) -> Ordering> ValueOrder for ValuesBy<F> {
    closed spec fn spec_cmp(&self, a: Node, b: Node) -> Ordering {
        let w = choose|w: (&Value, &Value, Ordering)|
            w.0@ == a && w.1@ == b && call_ensures(self.f, (w.0, w.1), w.2);
        w.2
    }

    fn cmp(&self, a: &Value, b: &Value) -> (r: Ordering) {
        proof {
            use_type_invariant(self);
        }
        let r = (self.f)(a, b);
        proof {
            let wit = (a, b, r);
            assert(wit.0@ == a@ && wit.1@ == b@ && call_ensures(self.f, (wit.0, wit.1), wit.2));
            let w = choose|w: (&Value, &Value, Ordering)|
                w.0@ == a@ && w.1@ == b@ && call_ensures(self.f, (w.0, w.1), w.2);
            assert(call_ensures(self.f, (w.0, w.1), w.2));
        }
        r
    }
}

} // verus!
