//! Recursive merge and union of two trees under a per-node rule.
use crate::index::{Kind, Path, Step};
use crate::iter::{child_entries, expands, kids_len, Dfs, Entry};
use crate::value::{
    child, entries_view, find_key, items_view, key_index, lemma_entries_update, lemma_entries_view,
    lemma_items_update, lemma_items_view, resolve, update, well_formed, Node, Value,
};
use vstd::prelude::*;

verus! {

broadcast use vstd::std_specs::vec::group_vec_axioms;

/// How a node of the receiving tree takes in the node at the same path of
/// the donor tree; the answer says whether to go on into the children.
pub trait NodeRule {
    spec fn spec_apply(&self, p: Seq<Step>, this: Node, other: Node) -> (Node, bool);

    fn apply(&self, p: &Path, this: &mut Value, other: &Value) -> (r: bool)
        ensures
            (final(this)@, r) == self.spec_apply(p@, old(this)@, other@),
    ;
}

/// A rule that turns valid nodes into a valid node.
pub open spec fn rule_keeps_valid<R: NodeRule>(rule: R) -> bool {
    forall|p: Seq<Step>, t: Node, o: Node|
        well_formed(t) && well_formed(o) ==> well_formed(#[trigger] rule.spec_apply(p, t, o).0)
}

/// `e` with one more key, as null, unless it holds that key already.
pub open spec fn absorb_one(e: Seq<(Seq<char>, Node)>, k: Seq<char>) -> Seq<(Seq<char>, Node)> {
    if key_index(e, k) >= 0 {
        e
    } else {
        e.push((k, Node::Null))
    }
}

/// `e` with the keys of `f` that it lacks added as nulls, in `f`'s order.
pub open spec fn absorb(e: Seq<(Seq<char>, Node)>, f: Seq<(Seq<char>, Node)>) -> Seq<
    (Seq<char>, Node),
>
    decreases f.len(),
{
    if f.len() == 0 {
        e
    } else {
        absorb_one(absorb(e, f.drop_last()), f.last().0)
    }
}

/// Whether a node is a scalar: null, a boolean, a number or a string.
pub open spec fn is_scalar(n: Node) -> bool {
    n is Null || n is Bool || n is Num || n is Str
}

/// The merge rule: an object takes in the donor object's missing keys (as
/// nulls) and is descended into; an array is extended by a donor array or
/// gets a donor scalar appended; a donor null changes nothing; a scalar is
/// replaced by the donor value; anything else is left as it is.
pub open spec fn merge_rule(this: Node, other: Node) -> (Node, bool) {
    match (this, other) {
        (Node::Obj(e), Node::Obj(f)) => (Node::Obj(absorb(e, f)), true),
        (Node::Arr(a), Node::Arr(b)) => (Node::Arr(a + b), false),
        (Node::Arr(a), x) => if is_scalar(x) {
            (Node::Arr(a.push(x)), false)
        } else {
            (this, false)
        },
        (_, Node::Null) => (this, false),
        (t, x) => if is_scalar(t) {
            (x, false)
        } else {
            (this, false)
        },
    }
}

/// The union rule: an object takes in the donor object's missing keys (as
/// nulls) and is descended into; arrays are concatenated; a null is
/// replaced by a non-null donor value; nothing else changes.
pub open spec fn union_rule(this: Node, other: Node) -> (Node, bool) {
    match (this, other) {
        (Node::Obj(e), Node::Obj(f)) => (Node::Obj(absorb(e, f)), true),
        (Node::Arr(a), Node::Arr(b)) => (Node::Arr(a + b), false),
        (_, Node::Null) => (this, false),
        (Node::Null, x) => (x, false),
        _ => (this, false),
    }
}

/// Adds to `this` the keys of `other` that it lacks, as nulls.
pub fn absorb_keys(this: &mut Vec<(String, Value)>, other: &Vec<(String, Value)>)
    ensures
        entries_view(final(this)@) == absorb(entries_view(old(this)@), entries_view(other@)),
{
    let ghost e0 = entries_view(this@);
    let ghost f = entries_view(other@);
    proof {
        lemma_entries_view(other@);
        assert(f.take(0) =~= Seq::<(Seq<char>, Node)>::empty());
    }
    let mut i: usize = 0;
    while i < other.len()
        invariant
            i <= other@.len(),
            f == entries_view(other@),
            f.len() == other@.len(),
            forall|j: int| 0 <= j < f.len() ==> #[trigger] f[j] == (other@[j].0@, other@[j].1@),
            entries_view(this@) == absorb(e0, f.take(i as int)),
        decreases other@.len() - i,
    {
        let k = &other[i].0;
        let ghost before = this@;
        proof {
            assert(f.take(i as int + 1).drop_last() =~= f.take(i as int));
            assert(f.take(i as int + 1).last().0 == k@);
        }
        match find_key(this, k) {
            Some(_) => {},
            None => {
                let k2 = k.clone();
                let ghost pair = (k2, Value::Null);
                this.push((k2, Value::Null));
                proof {
                    crate::value::lemma_entries_push(before, pair.0, pair.1);
                }
            },
        }
        i += 1;
    }
    assert(f.take(i as int) =~= f);
}

/// Appends copies of the items of `other` to `this`.
pub fn extend_items(this: &mut Vec<Value>, other: &Vec<Value>)
    ensures
        items_view(final(this)@) == items_view(old(this)@) + items_view(other@),
{
    let ghost a0 = items_view(this@);
    proof {
        lemma_items_view(other@);
        lemma_items_view(this@);
    }
    let mut i: usize = 0;
    while i < other.len()
        invariant
            i <= other@.len(),
            items_view(other@).len() == other@.len(),
            forall|j: int| 0 <= j < other@.len() ==> #[trigger] items_view(other@)[j] == other@[j]@,
            items_view(this@) == a0 + items_view(other@).take(i as int),
        decreases other@.len() - i,
    {
        let ghost before = this@;
        let c = other[i].deep_clone();
        this.push(c);
        proof {
            lemma_items_view(before);
            lemma_items_view(this@);
            assert(items_view(this@) =~= items_view(before).push(c@));
            assert(items_view(other@).take(i as int + 1) =~= items_view(other@).take(i as int).push(
                other@[i as int]@,
            ));
            assert(items_view(this@) =~= a0 + items_view(other@).take(i as int + 1));
        }
        i += 1;
    }
    assert(items_view(other@).take(i as int) =~= items_view(other@));
}

fn is_scalar_exec(v: &Value) -> (r: bool)
    ensures
        r == is_scalar(v@),
{
    match v {
        Value::Null | Value::Bool(_) | Value::Number(_) | Value::String(_) => true,
        _ => false,
    }
}

/// The default rule of `merge`: see `merge_rule`.
pub struct MergeRule;

impl NodeRule for MergeRule {
    open spec fn spec_apply(&self, p: Seq<Step>, this: Node, other: Node) -> (Node, bool) {
        merge_rule(this, other)
    }

    fn apply(&self, p: &Path, this: &mut Value, other: &Value) -> (r: bool) {
        let scalar_other = is_scalar_exec(other);
        let scalar_this = is_scalar_exec(this);
        match (this, other) {
            (Value::Object(e), Value::Object(f)) => {
                absorb_keys(e, f);
                true
            },
            (Value::Array(a), Value::Array(b)) => {
                extend_items(a, b);
                false
            },
            (Value::Array(a), x) => {
                if scalar_other {
                    let ghost before = a@;
                    let c = x.deep_clone();
                    a.push(c);
                    proof {
                        lemma_items_view(before);
                        lemma_items_view(a@);
                        assert(items_view(a@) =~= items_view(before).push(c@));
                    }
                }
                false
            },
            (_, Value::Null) => false,
            (t, x) => {
                if scalar_this {
                    *t = x.deep_clone();
                }
                false
            },
        }
    }
}

/// The default rule of `union`: see `union_rule`.
pub struct UnionRule;

impl NodeRule for UnionRule {
    open spec fn spec_apply(&self, p: Seq<Step>, this: Node, other: Node) -> (Node, bool) {
        union_rule(this, other)
    }

    fn apply(&self, p: &Path, this: &mut Value, other: &Value) -> (r: bool) {
        match (this, other) {
            (Value::Object(e), Value::Object(f)) => {
                absorb_keys(e, f);
                true
            },
            (Value::Array(a), Value::Array(b)) => {
                extend_items(a, b);
                false
            },
            (_, Value::Null) => false,
            (t, x) => {
                if let Value::Null = t {
                    *t = x.deep_clone();
                }
                false
            },
        }
    }
}

/// `n` with the child that `s` names replaced by `c`; `n` itself where `s`
/// names no child.
pub open spec fn set_child(n: Node, s: Step, c: Node) -> Node {
    match (n, s) {
        (Node::Arr(a), Step::Pos(i)) => if i < a.len() {
            Node::Arr(a.update(i as int, c))
        } else {
            n
        },
        (Node::Obj(e), Step::Key(k)) => {
            let j = key_index(e, k);
            if j >= 0 {
                Node::Obj(e.update(j, (e[j].0, c)))
            } else {
                n
            }
        },
        _ => n,
    }
}

/// What merging `other` into `this` at path `p` and depth `d` makes of
/// `this`: the rule is applied, and if it says so and the depth bound lets
/// the donor expand, each child of `other` that `this` also has is merged in
/// turn. Donor children that `this` lacks change nothing.
pub open spec fn merge_walk<R: NodeRule>(
    rule: R,
    this: Node,
    other: Node,
    p: Seq<Step>,
    d: nat,
    bound: Option<usize>,
) -> Node
    decreases other, kids_len(other) + 1,
{
    let (m, go) = rule.spec_apply(p, this, other);
    if go && expands(bound, d) {
        merge_kids(rule, m, other, p, d, bound, 0)
    } else {
        m
    }
}

/// `this` with the children of `other` from the `i`-th on merged in.
pub open spec fn merge_kids<R: NodeRule>(
    rule: R,
    this: Node,
    other: Node,
    p: Seq<Step>,
    d: nat,
    bound: Option<usize>,
    i: nat,
) -> Node
    decreases other, kids_len(other) - i,
{
    match other {
        Node::Arr(b) => if i < b.len() {
            let s = Step::Pos(i);
            let next = match child(this, s) {
                Some(tc) => set_child(this, s, merge_walk(rule, tc, b[i as int], p.push(s), d + 1, bound)),
                None => this,
            };
            merge_kids(rule, next, other, p, d, bound, i + 1)
        } else {
            this
        },
        Node::Obj(f) => if i < f.len() {
            let s = Step::Key(f[i as int].0);
            let next = match child(this, s) {
                Some(tc) => set_child(
                    this,
                    s,
                    merge_walk(rule, tc, f[i as int].1, p.push(s), d + 1, bound),
                ),
                None => this,
            };
            merge_kids(rule, next, other, p, d, bound, i + 1)
        } else {
            this
        },
        _ => this,
    }
}

fn merge_into<R: NodeRule>(
    this: &mut Value,
    other: &Value,
    path: Path,
    d: usize,
    depth: Option<usize>,
    rule: &R,
)
    ensures
        final(this)@ == merge_walk(*rule, old(this)@, other@, path@, d as nat, depth),
    decreases other,
{
    let go = rule.apply(&path, this, other);
    let expand = d < usize::MAX && match depth {
        Some(b) => d < b,
        None => true,
    };
    if !go || !expand {
        return;
    }
    let ghost m = this@;
    match other {
        Value::Array(b) => {
            proof {
                lemma_items_view(b@);
            }
            let mut i: usize = 0;
            while i < b.len()
                invariant
                    *other == Value::Array(*b),
                    i <= b@.len(),
                    d < usize::MAX,
                    items_view(b@).len() == b@.len(),
                    forall|j: int| 0 <= j < b@.len() ==> #[trigger] items_view(b@)[j] == b@[j]@,
                    merge_kids(*rule, m, other@, path@, d as nat, depth, 0) == merge_kids(
                        *rule,
                        this@,
                        other@,
                        path@,
                        d as nat,
                        depth,
                        i as nat,
                    ),
                decreases b@.len() - i,
            {
                let mut q = path.duplicate();
                q.push(Kind::ArrayIndex(i));
                proof {
                    assert(decreases_to!(*other => other->Array_0));
                    assert(decreases_to!(other->Array_0 => other->Array_0@));
                    assert(decreases_to!(other->Array_0@ => other->Array_0@[i as int]));
                }
                match this {
                    Value::Array(a) => {
                        proof {
                            lemma_items_view(a@);
                        }
                        if i < a.len() {
                            let ghost before = a@;
                            merge_into(&mut a[i], &b[i], q, d + 1, depth, rule);
                            proof {
                                assert(a@ == before.update(i as int, a@[i as int]));
                                lemma_items_update(before, i as int, a@[i as int]);
                            }
                        }
                    },
                    _ => {},
                }
                i += 1;
            }
        },
        Value::Object(f) => {
            proof {
                lemma_entries_view(f@);
            }
            let mut i: usize = 0;
            while i < f.len()
                invariant
                    *other == Value::Object(*f),
                    i <= f@.len(),
                    d < usize::MAX,
                    entries_view(f@).len() == f@.len(),
                    forall|j: int|
                        0 <= j < f@.len() ==> #[trigger] entries_view(f@)[j] == (f@[j].0@, f@[j].1@),
                    merge_kids(*rule, m, other@, path@, d as nat, depth, 0) == merge_kids(
                        *rule,
                        this@,
                        other@,
                        path@,
                        d as nat,
                        depth,
                        i as nat,
                    ),
                decreases f@.len() - i,
            {
                let key = &f[i].0;
                let mut q = path.duplicate();
                q.push(Kind::ObjectKey(key.clone()));
                proof {
                    assert(decreases_to!(*other => other->Object_0));
                    assert(decreases_to!(other->Object_0 => other->Object_0@));
                    assert(decreases_to!(other->Object_0@ => other->Object_0@[i as int]));
                    assert(decreases_to!(other->Object_0@[i as int] => other->Object_0@[i as int].1));
                }
                match this {
                    Value::Object(e) => {
                        proof {
                            lemma_entries_view(e@);
                        }
                        match find_key(e, key) {
                            Some(j) => {
                                let ghost before = e@;
                                merge_into(&mut e[j].1, &f[i].1, q, d + 1, depth, rule);
                                proof {
                                    assert(e@ =~= before.update(j as int, (before[j as int].0, e@[j as int].1)));
                                    lemma_entries_update(before, j as int, e@[j as int].1);
                                }
                            },
                            None => {},
                        }
                    },
                    _ => {},
                }
                i += 1;
            }
        },
        _ => {},
    }
}

impl Value {
    /// Merges `other` into this tree under `rule`, down to the given depth
    /// of the donor (`None`: all the way).
    pub fn merge_by_depth<R: NodeRule>(&mut self, other: &Value, depth: Option<usize>, rule: &R)
        ensures
            final(self)@ == merge_walk(*rule, old(self)@, other@, Seq::empty(), 0, depth),
            rule_keeps_valid(*rule) && well_formed(old(self)@) && well_formed(other@)
                ==> well_formed(final(self)@),
    {
        proof {
            if rule_keeps_valid(*rule) && well_formed(self@) && well_formed(other@) {
                crate::laws::lemma_merge_walk_valid(*rule, self@, other@, Seq::empty(), 0, depth);
            }
        }
        merge_into(self, other, Path::empty(), 0, depth, rule);
    }

    /// Merges `other` into this tree under `rule`, one level deep.
    pub fn merge_by<R: NodeRule>(&mut self, other: &Value, rule: &R)
        ensures
            final(self)@ == merge_walk(*rule, old(self)@, other@, Seq::empty(), 0, Some(1usize)),
            rule_keeps_valid(*rule) && well_formed(old(self)@) && well_formed(other@)
                ==> well_formed(final(self)@),
    {
        self.merge_by_depth(other, Some(1), rule);
    }

    /// Merges `other` into this tree under `rule`, all the way down.
    pub fn merge_by_recursive<R: NodeRule>(&mut self, other: &Value, rule: &R)
        ensures
            final(self)@ == merge_walk(*rule, old(self)@, other@, Seq::empty(), 0, None),
            rule_keeps_valid(*rule) && well_formed(old(self)@) && well_formed(other@)
                ==> well_formed(final(self)@),
    {
        self.merge_by_depth(other, None, rule);
    }

    /// Merges `other` into this tree with the merge rule, one level deep.
    pub fn merge(&mut self, other: &Value)
        ensures
            final(self)@ == merge_walk(MergeRule, old(self)@, other@, Seq::empty(), 0, Some(1usize)),
            well_formed(old(self)@) && well_formed(other@) ==> well_formed(final(self)@),
    {
        proof {
            crate::laws::lemma_merge_rule_valid();
        }
        self.merge_by(other, &MergeRule);
    }

    /// Merges `other` into this tree with the merge rule, all the way down.
    pub fn merge_recursive(&mut self, other: &Value)
        ensures
            final(self)@ == merge_walk(MergeRule, old(self)@, other@, Seq::empty(), 0, None),
            well_formed(old(self)@) && well_formed(other@) ==> well_formed(final(self)@),
    {
        proof {
            crate::laws::lemma_merge_rule_valid();
        }
        self.merge_by_recursive(other, &MergeRule);
    }

    /// This tree with `other` merged in, all the way down.
    pub fn merged_recursive(self, other: &Value) -> (r: Value)
        ensures
            r@ == merge_walk(MergeRule, self@, other@, Seq::empty(), 0, None),
            well_formed(self@) && well_formed(other@) ==> well_formed(r@),
    {
        proof {
            crate::laws::lemma_merge_rule_valid();
        }
        let mut r = self;
        r.merge_recursive(other);
        r
    }

    /// This tree with `other` merged in, one level deep.
    pub fn merged(self, other: &Value) -> (r: Value)
        ensures
            r@ == merge_walk(MergeRule, self@, other@, Seq::empty(), 0, Some(1usize)),
            well_formed(self@) && well_formed(other@) ==> well_formed(r@),
    {
        proof {
            crate::laws::lemma_merge_rule_valid();
        }
        let mut r = self;
        r.merge(other);
        r
    }

    /// This tree with `other` merged in under `rule`, one level deep.
    pub fn merged_by<R: NodeRule>(self, other: &Value, rule: &R) -> (r: Value)
        ensures
            r@ == merge_walk(*rule, self@, other@, Seq::empty(), 0, Some(1usize)),
            rule_keeps_valid(*rule) && well_formed(self@) && well_formed(other@) ==> well_formed(r@),
    {
        let mut r = self;
        r.merge_by(other, rule);
        r
    }

    /// This tree with `other` merged in under `rule`, all the way down.
    pub fn merged_by_recursive<R: NodeRule>(self, other: &Value, rule: &R) -> (r: Value)
        ensures
            r@ == merge_walk(*rule, self@, other@, Seq::empty(), 0, None),
            rule_keeps_valid(*rule) && well_formed(self@) && well_formed(other@) ==> well_formed(r@),
    {
        let mut r = self;
        r.merge_by_recursive(other, rule);
        r
    }

    /// Union of `other` into this tree, one level deep.
    pub fn union(&mut self, other: &Value)
        ensures
            final(self)@ == merge_walk(UnionRule, old(self)@, other@, Seq::empty(), 0, Some(1usize)),
            well_formed(old(self)@) && well_formed(other@) ==> well_formed(final(self)@),
    {
        proof {
            crate::laws::lemma_union_rule_valid();
        }
        self.merge_by(other, &UnionRule);
    }

    /// Union of `other` into this tree, all the way down.
    pub fn union_recursive(&mut self, other: &Value)
        ensures
            final(self)@ == merge_walk(UnionRule, old(self)@, other@, Seq::empty(), 0, None),
            well_formed(old(self)@) && well_formed(other@) ==> well_formed(final(self)@),
    {
        proof {
            crate::laws::lemma_union_rule_valid();
        }
        self.merge_by_recursive(other, &UnionRule);
    }

    /// This tree united with `other`, one level deep.
    pub fn into_union(self, other: &Value) -> (r: Value)
        ensures
            r@ == merge_walk(UnionRule, self@, other@, Seq::empty(), 0, Some(1usize)),
            well_formed(self@) && well_formed(other@) ==> well_formed(r@),
    {
        proof {
            crate::laws::lemma_union_rule_valid();
        }
        let mut r = self;
        r.union(other);
        r
    }

    /// This tree united with `other`, all the way down.
    pub fn into_union_recursive(self, other: &Value) -> (r: Value)
        ensures
            r@ == merge_walk(UnionRule, self@, other@, Seq::empty(), 0, None),
            well_formed(self@) && well_formed(other@) ==> well_formed(r@),
    {
        proof {
            crate::laws::lemma_union_rule_valid();
        }
        let mut r = self;
        r.union_recursive(other);
        r
    }

    /// An empty object with each of `values` merged in under `rule`, in order.
    pub fn union_all_by<R: NodeRule>(values: &Vec<Value>, rule: &R) -> (r: Value)
        ensures
            r@ == fold_merge(*rule, Node::Obj(Seq::empty()), items_view(values@)),
            rule_keeps_valid(*rule) && (forall|i: int| 0 <= i < values@.len() ==> well_formed(
                #[trigger] values@[i]@,
            )) ==> well_formed(r@),
    {
        let mut result = Value::Object(Vec::new());
        proof {
            assert(well_formed(Node::Obj(Seq::empty())));
            lemma_items_view(values@);
            assert(entries_view(Seq::<(String, Value)>::empty()) =~= Seq::empty());
            assert(items_view(values@).take(0) =~= Seq::<Node>::empty());
        }
        let mut i: usize = 0;
        while i < values.len()
            invariant
                i <= values@.len(),
                items_view(values@).len() == values@.len(),
                forall|j: int| 0 <= j < values@.len() ==> #[trigger] items_view(values@)[j] == values@[j]@,
                result@ == fold_merge(*rule, Node::Obj(Seq::empty()), items_view(values@).take(i as int)),
                rule_keeps_valid(*rule) && (forall|k: int| 0 <= k < values@.len() ==> well_formed(
                    #[trigger] values@[k]@,
                )) ==> well_formed(result@),
            decreases values@.len() - i,
        {
            result.merge_by_recursive(&values[i], rule);
            proof {
                assert(items_view(values@).take(i as int + 1).drop_last() =~= items_view(values@).take(i as int));
            }
            i += 1;
        }
        assert(items_view(values@).take(i as int) =~= items_view(values@));
        result
    }

    /// An empty object with each of `values` united in, in order.
    pub fn union_all(values: &Vec<Value>) -> (r: Value)
        ensures
            r@ == fold_merge(UnionRule, Node::Obj(Seq::empty()), items_view(values@)),
            (forall|i: int| 0 <= i < values@.len() ==> well_formed(#[trigger] values@[i]@))
                ==> well_formed(r@),
    {
        proof {
            crate::laws::lemma_union_rule_valid();
        }
        Value::union_all_by(values, &UnionRule)
    }
}

/// `start` with each of `vs` merged in all the way down, in order.
pub open spec fn fold_merge<R: NodeRule>(rule: R, start: Node, vs: Seq<Node>) -> Node
    decreases vs.len(),
{
    if vs.len() == 0 {
        start
    } else {
        merge_walk(rule, fold_merge(rule, start, vs.drop_last()), vs.last(), Seq::empty(), 0, None)
    }
}

/// What one merge step driven by the traverser does: it takes the top
/// entry and counts the visit; with nothing pending, or once the count
/// exceeds the limit, it returns `None` and leaves the receiver as it was.
/// Else, where the entry's path names a node in both trees, the rule takes
/// in the donor node there and says whether to go on; where it does not, the
/// walk goes on. Going on queues the donor node's children, as far as the
/// depth bound allows. The path is returned.
pub open spec fn merge_step_spec<R: NodeRule>(
    rule: R,
    old_queue: Seq<Entry>,
    depth: Option<usize>,
    limit: Option<usize>,
    old_visited: nat,
    receiver: Node,
    donor: Node,
    new_queue: Seq<Entry>,
    new_visited: nat,
    new_receiver: Node,
    r: Option<Seq<Step>>,
) -> bool {
    if old_queue.len() == 0 {
        &&& r is None
        &&& new_queue == old_queue
        &&& new_visited == old_visited
        &&& new_receiver == receiver
    } else {
        let (d, p) = old_queue.last();
        let rest = old_queue.drop_last();
        let v = if old_visited < usize::MAX { old_visited + 1 } else { old_visited };
        &&& new_visited == v
        &&& if limit is Some && v > limit->0 {
            &&& r is None
            &&& new_queue == rest
            &&& new_receiver == receiver
        } else {
            let (applied, go) = match (resolve(receiver, p), resolve(donor, p)) {
                (Some(t), Some(o)) => {
                    let (m, g) = rule.spec_apply(p, t, o);
                    (update(receiver, p, m), g)
                },
                _ => (receiver, true),
            };
            &&& r == Some(p)
            &&& new_receiver == applied
            &&& new_queue == if go && expands(depth, d) {
                rest + child_entries(resolve(donor, p), d, p)
            } else {
                rest
            }
        }
    }
}

impl Dfs {
    /// One merge step driven by the traverser over the donor tree: the top
    /// entry's path is looked up in `receiver`; where it names a node there,
    /// `rule` takes in the donor node and says whether to go on; where it
    /// names none, the walk goes on. Going on queues the donor node's
    /// children, as far as the depth bound allows.
    pub fn process_next<R: NodeRule>(&mut self, receiver: &mut Value, donor: &Value, rule: &R) -> (r: Option<Path>)
        ensures
            final(self).depth == old(self).depth,
            final(self).limit == old(self).limit,
            merge_step_spec(
                *rule,
                old(self).queue_model(),
                old(self).depth,
                old(self).limit,
                old(self).num_visited as nat,
                old(receiver)@,
                donor@,
                final(self).queue_model(),
                final(self).num_visited as nat,
                final(receiver)@,
                match r {
                    Some(p) => Some(p@),
                    None => None,
                },
            ),
            rule_keeps_valid(*rule) && well_formed(old(receiver)@) && well_formed(donor@)
                ==> well_formed(final(receiver)@),
    {
        match self.take() {
            None => None,
            Some((d, p)) => {
                let node = donor.get_index(&p);
                let mut go = true;
                match node {
                    Some(o) => match receiver.get_index(&p) {
                        Some(t) => {
                            let mut t2 = t.deep_clone();
                            go = rule.apply(&p, &mut t2, o);
                            proof {
                                if rule_keeps_valid(*rule) && well_formed(receiver@) && well_formed(donor@) {
                                    crate::laws::lemma_resolve_well_formed(receiver@, p@);
                                    crate::laws::lemma_resolve_well_formed(donor@, p@);
                                    assert(well_formed(rule.spec_apply(p@, t@, o@).0));
                                }
                            }
                            receiver.replace_at(&p, t2);
                        },
                        None => {},
                    },
                    None => {},
                }
                if go {
                    self.expand(node, d, &p);
                }
                Some(p)
            },
        }
    }
}

/// The model of what a rule closure hands back, applied to `this`.
pub open spec fn rule_result(this: Node, o: (Option<Value>, bool)) -> (Node, bool) {
    (
        match o.0 {
            Some(x) => x@,
            None => this,
        },
        o.1,
    )
}

/// Whether a closure can stand as a node rule: it accepts every argument,
/// and it answers alike for arguments of the same value. It hands back the
/// node to put in place of the receiving one (or none, to keep it) and
/// whether to go on into the children.
pub open spec fn rule_fn<F: Fn(&Path, &Value, &Value) -> (Option<Value>, bool)>(f: F) -> bool {
    &&& forall|p: &Path, t: &Value, o: &Value| #[trigger] f.requires((p, t, o))
    &&& forall|
        pa: &Path,
        t1: &Value,
        x1: &Value,
        r1: (Option<Value>, bool),
        pb: &Path,
        t2: &Value,
        x2: &Value,
        r2: (Option<Value>, bool),
    |
        #![trigger f.ensures((pa, t1, x1), r1), f.ensures((pb, t2, x2), r2)]
        f.ensures((pa, t1, x1), r1) && f.ensures((pb, t2, x2), r2) && pa@ == pb@ && t1@ == t2@
            && x1@ == x2@ ==> rule_result(t1@, r1) == rule_result(t2@, r2)
}

/// A node rule made of a closure.
pub struct RuleWith<F: Fn(&Path, &Value, &Value) -> (Option<Value>, bool)> {
    f: F,
}

impl<F: Fn(&Path, &Value, &Value) -> (Option<Value>, bool)> RuleWith<F> {
    #[verifier::type_invariant]
    spec fn inv(&self) -> bool {
        rule_fn(self.f)
    }

    pub closed spec fn func(&self) -> F {
        self.f
    }

    /// Wraps `f`, which must accept every argument and answer alike for
    /// arguments of the same value.
    pub fn new(f: F) -> (r: RuleWith<F>)
        requires
            rule_fn(f),
        ensures
            r.func() == f,
    {
        RuleWith { f }
    }
}

impl<F: Fn(&Path, &Value, &Value) -> (Option<Value>, bool)> NodeRule for RuleWith<F> {
    closed spec fn spec_apply(&self, p: Seq<Step>, this: Node, other: Node) -> (Node, bool) {
        let w = choose|w: (&Path, &Value, &Value, (Option<Value>, bool))|
            w.0@ == p && w.1@ == this && w.2@ == other && call_ensures(self.f, (w.0, w.1, w.2), w.3);
        rule_result(this, w.3)
    }

    fn apply(&self, p: &Path, this: &mut Value, other: &Value) -> (r: bool) {
        proof {
            use_type_invariant(self);
        }
        let res = (self.f)(p, this, other);
        proof {
            let wit = (p, &*old(this), other, res);
            assert(wit.0@ == p@ && wit.1@ == old(this)@ && wit.2@ == other@ && call_ensures(
                self.f,
                (wit.0, wit.1, wit.2),
                wit.3,
            ));
            let w = choose|w: (&Path, &Value, &Value, (Option<Value>, bool))|
                w.0@ == p@ && w.1@ == old(this)@ && w.2@ == other@ && call_ensures(
                    self.f,
                    (w.0, w.1, w.2),
                    w.3,
                );
            assert(call_ensures(self.f, (w.0, w.1, w.2), w.3));
        }
        let (o, go) = res;
        match o {
            Some(x) => {
                *this = x;
            },
            None => {},
        }
        go
    }
}

} // verus!
