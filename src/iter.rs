//! Depth-first traversal that re-resolves a path at every step.
use crate::index::{Kind, Path, Step};
use crate::value::{
    child, items_view, entries_view, lemma_entries_view, lemma_items_view, opt_node, resolve,
    update, well_formed, Node, Value,
};
use vstd::prelude::*;

verus! {

broadcast use vstd::std_specs::vec::group_vec_axioms;

/// A pending entry as a mathematical value: the depth and the path.
pub type Entry = (nat, Seq<Step>);

pub open spec fn entry_view(e: (usize, Path)) -> Entry {
    (e.0 as nat, e.1@)
}

pub open spec fn queue_view(q: Seq<(usize, Path)>) -> Seq<Entry> {
    q.map_values(|e: (usize, Path)| entry_view(e))
}

/// Whether an entry at depth `d` has its children queued, under the bound.
pub open spec fn expands(bound: Option<usize>, d: nat) -> bool {
    d < usize::MAX && match bound {
        Some(b) => d < b,
        None => true,
    }
}

/// The steps to the children of a node, in the node's own order.
pub open spec fn child_steps(n: Node) -> Seq<Step> {
    match n {
        Node::Arr(a) => Seq::new(a.len(), |i: int| Step::Pos(i as nat)),
        Node::Obj(e) => Seq::new(e.len(), |i: int| Step::Key(e[i].0)),
        _ => Seq::empty(),
    }
}

/// The entries queued for the children of the node at `p`: last child
/// first, so that the first child is taken next.
pub open spec fn child_entries(n: Option<Node>, d: nat, p: Seq<Step>) -> Seq<Entry> {
    match n {
        Some(m) => {
            let s = child_steps(m);
            Seq::new(s.len(), |i: int| ((d + 1) as nat, p.push(s[s.len() - 1 - i])))
        },
        None => Seq::empty(),
    }
}

/// Depth-first traverser: a stack of pending (depth, path) entries, an
/// optional depth bound, an optional bound on the number of visits, and the
/// number of visits so far.
pub struct Dfs {
    pub queue: Vec<(usize, Path)>,
    pub depth: Option<usize>,
    pub limit: Option<usize>,
    pub num_visited: usize,
}

/// What one step does to the pending entries and the visit count, and what it
/// returns: it takes the top entry, counts the visit, stops if the count now
/// exceeds the limit, and else queues the children of the node that the
/// entry's path names in `tree` (if the depth bound allows) and returns the path.
pub open spec fn step_spec(
    old_queue: Seq<Entry>,
    depth: Option<usize>,
    limit: Option<usize>,
    old_visited: nat,
    tree: Node,
    new_queue: Seq<Entry>,
    new_visited: nat,
    r: Option<Seq<Step>>,
) -> bool {
    if old_queue.len() == 0 {
        &&& r is None
        &&& new_queue == old_queue
        &&& new_visited == old_visited
    } else {
        let (d, p) = old_queue.last();
        let rest = old_queue.drop_last();
        let v = if old_visited < usize::MAX { old_visited + 1 } else { old_visited };
        &&& new_visited == v
        &&& if limit is Some && v > limit->0 {
            r is None && new_queue == rest
        } else {
            &&& r == Some(p)
            &&& new_queue == if expands(depth, d) {
                rest + child_entries(resolve(tree, p), d, p)
            } else {
                rest
            }
        }
    }
}

impl Dfs {
    pub open spec fn queue_model(&self) -> Seq<Entry> {
        queue_view(self.queue@)
    }

    /// A traverser at the root with no bounds.
    pub fn new() -> (r: Dfs)
        ensures
            r.queue_model() == seq![(0nat, Seq::<Step>::empty())],
            r.depth is None,
            r.limit is None,
            r.num_visited == 0,
    {
        Dfs::with_depth(None)
    }

    /// A traverser at the root with the given depth bound.
    pub fn with_depth(depth: Option<usize>) -> (r: Dfs)
        ensures
            r.queue_model() == seq![(0nat, Seq::<Step>::empty())],
            r.depth == depth,
            r.limit is None,
            r.num_visited == 0,
    {
        let mut queue: Vec<(usize, Path)> = Vec::new();
        queue.push((0, Path::empty()));
        let r = Dfs { queue, depth, limit: None, num_visited: 0 };
        assert(r.queue_model() =~= seq![(0nat, Seq::<Step>::empty())]);
        r
    }

    /// Sets the bound on the number of visits.
    pub fn set_limit(&mut self, limit: Option<usize>)
        ensures
            final(self).limit == limit,
            final(self).depth == old(self).depth,
            final(self).queue == old(self).queue,
            final(self).num_visited == old(self).num_visited,
    {
        self.limit = limit;
    }

    /// Sets the depth bound.
    pub fn set_depth(&mut self, depth: Option<usize>)
        ensures
            final(self).depth == depth,
            final(self).limit == old(self).limit,
            final(self).queue == old(self).queue,
            final(self).num_visited == old(self).num_visited,
    {
        self.depth = depth;
    }

    /// Back to the root with no visits counted; the bounds are kept.
    pub fn reset(&mut self)
        ensures
            final(self).queue_model() == seq![(0nat, Seq::<Step>::empty())],
            final(self).depth == old(self).depth,
            final(self).limit == old(self).limit,
            final(self).num_visited == 0,
    {
        self.queue = Vec::new();
        self.queue.push((0, Path::empty()));
        self.num_visited = 0;
        assert(self.queue_model() =~= seq![(0nat, Seq::<Step>::empty())]);
    }

    /// Queues the children of `node`, reached by `p` at depth `d`.
    fn push_children(&mut self, node: Option<&Value>, d: usize, p: &Path)
        requires
            d < usize::MAX,
        ensures
            final(self).queue_model() == old(self).queue_model() + child_entries(opt_node(node), d as nat, p@),
            final(self).depth == old(self).depth,
            final(self).limit == old(self).limit,
            final(self).num_visited == old(self).num_visited,
    {
        let ghost start = self.queue_model();
        match node {
            Some(Value::Array(a)) => {
                let ghost s = child_steps(Node::Arr(items_view(a@)));
                proof {
                    lemma_items_view(a@);
                }
                let mut j: usize = a.len();
                while j > 0
                    invariant
                        j <= a@.len(),
                        s.len() == a@.len(),
                        s == child_steps(Node::Arr(items_view(a@))),
                        d < usize::MAX,
                        self.depth == old(self).depth,
                        self.limit == old(self).limit,
                        self.num_visited == old(self).num_visited,
                        self.queue_model() == start + Seq::new(
                            (a@.len() - j) as nat,
                            |i: int| ((d + 1) as nat, p@.push(s[s.len() - 1 - i])),
                        ),
                    decreases j,
                {
                    j -= 1;
                    let mut q = p.duplicate();
                    q.push(Kind::ArrayIndex(j));
                    let ghost before = self.queue_model();
                    self.queue.push((d + 1, q));
                    proof {
                        assert(self.queue_model() =~= before.push(((d + 1) as nat, q@)));
                        assert(self.queue_model() =~= start + Seq::new(
                            (a@.len() - j) as nat,
                            |i: int| ((d + 1) as nat, p@.push(s[s.len() - 1 - i])),
                        ));
                    }
                }
                assert(child_entries(opt_node(node), d as nat, p@) =~= Seq::new(
                    a@.len() as nat,
                    |i: int| ((d + 1) as nat, p@.push(s[s.len() - 1 - i])),
                ));
            },
            Some(Value::Object(o)) => {
                let ghost s = child_steps(Node::Obj(entries_view(o@)));
                proof {
                    lemma_entries_view(o@);
                }
                let mut j: usize = o.len();
                while j > 0
                    invariant
                        j <= o@.len(),
                        s.len() == o@.len(),
                        s == child_steps(Node::Obj(entries_view(o@))),
                        forall|i: int| 0 <= i < o@.len() ==> #[trigger] s[i] == Step::Key(o@[i].0@),
                        d < usize::MAX,
                        self.depth == old(self).depth,
                        self.limit == old(self).limit,
                        self.num_visited == old(self).num_visited,
                        self.queue_model() == start + Seq::new(
                            (o@.len() - j) as nat,
                            |i: int| ((d + 1) as nat, p@.push(s[s.len() - 1 - i])),
                        ),
                    decreases j,
                {
                    j -= 1;
                    let mut q = p.duplicate();
                    q.push(Kind::ObjectKey(o[j].0.clone()));
                    let ghost before = self.queue_model();
                    self.queue.push((d + 1, q));
                    proof {
                        assert(self.queue_model() =~= before.push(((d + 1) as nat, q@)));
                        assert(self.queue_model() =~= start + Seq::new(
                            (o@.len() - j) as nat,
                            |i: int| ((d + 1) as nat, p@.push(s[s.len() - 1 - i])),
                        ));
                    }
                }
                assert(child_entries(opt_node(node), d as nat, p@) =~= Seq::new(
                    o@.len() as nat,
                    |i: int| ((d + 1) as nat, p@.push(s[s.len() - 1 - i])),
                ));
            },
            _ => {
                assert(child_entries(opt_node(node), d as nat, p@) =~= Seq::empty());
                assert(self.queue_model() =~= start + Seq::empty());
            },
        }
    }

    /// Takes the top entry and counts the visit; `None` when nothing is
    /// pending or the count now exceeds the limit.
    pub fn take(&mut self) -> (r: Option<(usize, Path)>)
        ensures
            final(self).depth == old(self).depth,
            final(self).limit == old(self).limit,
            old(self).queue@.len() == 0 ==> r is None && final(self).queue_model()
                == old(self).queue_model() && final(self).num_visited == old(self).num_visited,
            old(self).queue@.len() > 0 ==> {
                let v = if old(self).num_visited < usize::MAX {
                    old(self).num_visited + 1
                } else {
                    old(self).num_visited as int
                };
                &&& final(self).num_visited == v
                &&& final(self).queue_model() == old(self).queue_model().drop_last()
                &&& if old(self).limit is Some && v > old(self).limit->0 {
                    r is None
                } else {
                    r is Some && entry_view(r->0) == old(self).queue_model().last()
                }
            },
    {
        match self.queue.pop() {
            None => {
                proof {
                    assert(self.queue_model() =~= old(self).queue_model());
                }
                None
            },
            Some(e) => {
                proof {
                    assert(self.queue_model() =~= old(self).queue_model().drop_last());
                }
                if self.num_visited < usize::MAX {
                    self.num_visited = self.num_visited + 1;
                }
                match self.limit {
                    Some(l) => if self.num_visited > l {
                        return None;
                    },
                    None => {},
                }
                Some(e)
            },
        }
    }

    fn expands_exec(&self, d: usize) -> (r: bool)
        ensures
            r == expands(self.depth, d as nat),
    {
        d < usize::MAX && match self.depth {
            Some(b) => d < b,
            None => true,
        }
    }

    /// One step that lets `visitor` replace the node at the taken path before
    /// its children are queued; the children are those of the node as the
    /// visitor left it.
    pub fn mutate_then_next<V: Visitor>(&mut self, tree: &mut Value, visitor: &V) -> (r: Option<Path>)
        ensures
            final(self).depth == old(self).depth,
            final(self).limit == old(self).limit,
            step_spec(
                old(self).queue_model(),
                old(self).depth,
                old(self).limit,
                old(self).num_visited as nat,
                final(tree)@,
                final(self).queue_model(),
                final(self).num_visited as nat,
                match r {
                    Some(p) => Some(p@),
                    None => None,
                },
            ),
            final(tree)@ == match r {
                Some(p) => match resolve(old(tree)@, p@) {
                    Some(n) => match visitor.spec_visit(p@, n) {
                        Some(x) => update(old(tree)@, p@, x),
                        None => old(tree)@,
                    },
                    None => old(tree)@,
                },
                None => old(tree)@,
            },
            visitor_keeps_valid(*visitor) && well_formed(old(tree)@) ==> well_formed(final(tree)@),
    {
        match self.take() {
            None => None,
            Some((d, p)) => {
                let replacement = match tree.get_index(&p) {
                    Some(n) => visitor.visit(&p, n),
                    None => None,
                };
                match replacement {
                    Some(x) => {
                        proof {
                            if visitor_keeps_valid(*visitor) && well_formed(tree@) {
                                crate::laws::lemma_resolve_well_formed(tree@, p@);
                                let n = resolve(tree@, p@)->0;
                                assert(well_formed(visited(*visitor, p@, n)));
                            }
                        }
                        tree.replace_at(&p, x);
                    },
                    None => {},
                }
                if self.expands_exec(d) {
                    let node = tree.get_index(&p);
                    self.push_children(node, d, &p);
                }
                Some(p)
            },
        }
    }

    /// Queues the children of `node`, taken from `p` at depth `d`, if the
    /// depth bound lets an entry at depth `d` expand.
    pub fn expand(&mut self, node: Option<&Value>, d: usize, p: &Path)
        ensures
            final(self).queue_model() == if expands(old(self).depth, d as nat) {
                old(self).queue_model() + child_entries(opt_node(node), d as nat, p@)
            } else {
                old(self).queue_model()
            },
            final(self).depth == old(self).depth,
            final(self).limit == old(self).limit,
            final(self).num_visited == old(self).num_visited,
    {
        if self.expands_exec(d) {
            self.push_children(node, d, p);
        }
    }

    /// One step over `tree`: see `step_spec`.
    pub fn next(&mut self, tree: &Value) -> (r: Option<Path>)
        ensures
            final(self).depth == old(self).depth,
            final(self).limit == old(self).limit,
            step_spec(
                old(self).queue_model(),
                old(self).depth,
                old(self).limit,
                old(self).num_visited as nat,
                tree@,
                final(self).queue_model(),
                final(self).num_visited as nat,
                match r {
                    Some(p) => Some(p@),
                    None => None,
                },
            ),
    {
        match self.take() {
            None => None,
            Some((d, p)) => {
                if self.expands_exec(d) {
                    let node = tree.get_index(&p);
                    self.push_children(node, d, &p);
                }
                Some(p)
            },
        }
    }
}

/// The number of children of a node.
pub open spec fn kids_len(n: Node) -> nat {
    match n {
        Node::Arr(a) => a.len(),
        Node::Obj(e) => e.len(),
        _ => 0,
    }
}

/// The nodes of `n` in depth-first order with their paths, each path
/// prefixed by `p`, where `n` stands at depth `d`: the node itself, then, if
/// the bound lets it expand, the walks of its children in order.
pub open spec fn walk(n: Node, p: Seq<Step>, d: nat, bound: Option<usize>) -> Seq<(Seq<Step>, Node)>
    decreases n, kids_len(n) + 1,
{
    seq![(p, n)] + if expands(bound, d) {
        walk_kids(n, p, d, bound, 0)
    } else {
        Seq::empty()
    }
}

/// The walks of the children of `n` from the `i`-th on, one after the other.
pub open spec fn walk_kids(n: Node, p: Seq<Step>, d: nat, bound: Option<usize>, i: nat) -> Seq<
    (Seq<Step>, Node),
>
    decreases n, kids_len(n) - i,
{
    match n {
        Node::Arr(a) => if i < a.len() {
            walk(a[i as int], p.push(Step::Pos(i)), d + 1, bound) + walk_kids(n, p, d, bound, i + 1)
        } else {
            Seq::empty()
        },
        Node::Obj(e) => if i < e.len() {
            walk(e[i as int].1, p.push(Step::Key(e[i as int].0)), d + 1, bound) + walk_kids(
                n,
                p,
                d,
                bound,
                i + 1,
            )
        } else {
            Seq::empty()
        },
        _ => Seq::empty(),
    }
}

/// The first `limit` items of `s`, or all of them without a limit.
pub open spec fn truncate<A>(s: Seq<A>, limit: Option<usize>) -> Seq<A> {
    match limit {
        Some(l) => if l < s.len() {
            s.take(l as int)
        } else {
            s
        },
        None => s,
    }
}

/// The concatenated walks of the first `i` children of `n`.
pub open spec fn walk_kids_upto(n: Node, p: Seq<Step>, d: nat, bound: Option<usize>, i: nat) -> Seq<
    (Seq<Step>, Node),
>
    decreases i,
{
    if i == 0 {
        Seq::empty()
    } else {
        walk_kids_upto(n, p, d, bound, (i - 1) as nat) + match n {
            Node::Arr(a) => walk(a[i - 1], p.push(Step::Pos((i - 1) as nat)), d + 1, bound),
            Node::Obj(e) => walk(e[i - 1].1, p.push(Step::Key(e[i - 1].0)), d + 1, bound),
            _ => Seq::empty(),
        }
    }
}

pub proof fn lemma_walk_kids_split(n: Node, p: Seq<Step>, d: nat, bound: Option<usize>, i: nat)
    requires
        i <= kids_len(n),
    ensures
        walk_kids(n, p, d, bound, 0) == walk_kids_upto(n, p, d, bound, i) + walk_kids(
            n,
            p,
            d,
            bound,
            i,
        ),
    decreases i,
{
    if i == 0 {
        assert(walk_kids(n, p, d, bound, 0) =~= Seq::empty() + walk_kids(n, p, d, bound, 0));
    } else {
        let j = (i - 1) as nat;
        lemma_walk_kids_split(n, p, d, bound, j);
        let w = match n {
            Node::Arr(a) => walk(a[j as int], p.push(Step::Pos(j)), d + 1, bound),
            Node::Obj(e) => walk(e[j as int].1, p.push(Step::Key(e[j as int].0)), d + 1, bound),
            _ => Seq::empty(),
        };
        assert(walk_kids(n, p, d, bound, j) == w + walk_kids(n, p, d, bound, i));
        assert(walk_kids_upto(n, p, d, bound, i) == walk_kids_upto(n, p, d, bound, j) + w);
        assert(walk_kids(n, p, d, bound, 0) =~= walk_kids_upto(n, p, d, bound, i) + walk_kids(
            n,
            p,
            d,
            bound,
            i,
        ));
    }
}

pub open spec fn rest_limit(limit: Option<usize>, used: nat) -> Option<usize> {
    match limit {
        Some(l) => Some((l - used) as usize),
        None => None,
    }
}

proof fn lemma_truncate_concat<A>(a: Seq<A>, b: Seq<A>, limit: Option<usize>)
    ensures
        truncate(a, limit) + truncate(b, rest_limit(limit, truncate(a, limit).len())) == truncate(
            a + b,
            limit,
        ),
{
    match limit {
        Some(l) => {
            if l < a.len() {
                assert((a + b).take(l as int) =~= a.take(l as int));
                assert(truncate(b, Some(0usize)) =~= Seq::<A>::empty());
                assert(truncate(a, limit) + Seq::<A>::empty() =~= truncate(a, limit));
            } else {
                let r = (l - a.len()) as usize;
                if r < b.len() {
                    assert((a + b).take(l as int) =~= a + b.take(r as int));
                }
            }
        },
        None => {},
    }
}

/// The model of a list of visited pairs.
pub open spec fn pairs_view(s: Seq<(Path, &Value)>) -> Seq<(Seq<Step>, Node)> {
    s.map_values(|e: (Path, &Value)| (e.0@, e.1@))
}

proof fn lemma_pairs_push(s: Seq<(Path, &Value)>, e: (Path, &Value))
    ensures
        pairs_view(s.push(e)) == pairs_view(s).push((e.0@, e.1@)),
{
    assert(pairs_view(s.push(e)) =~= pairs_view(s).push((e.0@, e.1@)));
}

/// Appends to `out` the walk of `node` (at `path`, depth `d`), cut so that
/// `out` holds at most `limit` pairs.
fn walk_into<'a>(
    node: &'a Value,
    path: Path,
    d: usize,
    depth: Option<usize>,
    limit: Option<usize>,
    out: &mut Vec<(Path, &'a Value)>,
)
    requires
        limit is Some ==> old(out)@.len() <= limit->0,
    ensures
        pairs_view(final(out)@) == pairs_view(old(out)@) + truncate(
            walk(node@, path@, d as nat, depth),
            rest_limit(limit, old(out)@.len()),
        ),
        limit is Some ==> final(out)@.len() <= limit->0,
    decreases node,
{
    let ghost w = walk(node@, path@, d as nat, depth);
    let ghost r = rest_limit(limit, old(out)@.len());
    let ghost out0 = pairs_view(old(out)@);
    if let Some(l) = limit {
        if out.len() >= l {
            assert(truncate(w, r) =~= Seq::empty());
            assert(pairs_view(out@) =~= out0 + Seq::empty());
            return;
        }
    }
    let ghost top = seq![(path@, node@)];
    let ghost kids = if expands(depth, d as nat) {
        walk_kids(node@, path@, d as nat, depth, 0)
    } else {
        Seq::empty()
    };
    assert(w == top + kids);
    let expand = d < usize::MAX && match depth {
        Some(b) => d < b,
        None => true,
    };
    let pb = path.duplicate();
    proof {
        lemma_pairs_push(out@, (pb, node));
        lemma_truncate_concat(top, kids, r);
        assert(truncate(top, r) == top);
    }
    out.push((pb, node));
    if !expand {
        assert(kids =~= Seq::empty());
        assert(truncate(kids, rest_limit(r, 1)) =~= Seq::empty());
        assert(top + Seq::empty() =~= top);
        return;
    }
    match node {
        Value::Array(a) => {
            proof {
                lemma_items_view(a@);
            }
            let mut i: usize = 0;
            while i < a.len()
                invariant
                    *node == Value::Array(*a),
                    i <= a@.len(),
                    expands(depth, d as nat),
                    d < usize::MAX,
                    items_view(a@).len() == a@.len(),
                    forall|j: int| 0 <= j < a@.len() ==> #[trigger] items_view(a@)[j] == a@[j]@,
                    limit is Some ==> out@.len() <= limit->0,
                    limit is Some ==> out0.len() <= limit->0,
                    out0.len() == old(out)@.len(),
                    r == rest_limit(limit, old(out)@.len()),
                    pairs_view(out@) == out0 + truncate(
                        top + walk_kids_upto(node@, path@, d as nat, depth, i as nat),
                        r,
                    ),
                decreases a@.len() - i,
            {
                let mut q = path.duplicate();
                q.push(Kind::ArrayIndex(i));
                let ghost before = pairs_view(out@);
                let ghost acc = top + walk_kids_upto(node@, path@, d as nat, depth, i as nat);
                proof {
                    assert(decreases_to!(*node => node->Array_0));
                    assert(decreases_to!(node->Array_0 => node->Array_0@));
                    assert(decreases_to!(node->Array_0@ => node->Array_0@[i as int]));
                }
                walk_into(&a[i], q, d + 1, depth, limit, out);
                proof {
                    let wi = walk(a@[i as int]@, path@.push(Step::Pos(i as nat)), (d + 1) as nat, depth);
                    assert(walk_kids_upto(node@, path@, d as nat, depth, (i + 1) as nat)
                        == walk_kids_upto(node@, path@, d as nat, depth, i as nat) + wi);
                    lemma_truncate_concat(acc, wi, r);
                    assert(truncate(acc, r).len() == before.len() - out0.len());
                    assert(out0.len() == old(out)@.len());
                    assert(limit is Some ==> truncate(acc, r).len() <= r->0);
                    assert(rest_limit(r, truncate(acc, r).len()) == rest_limit(limit, before.len()));
                    assert(pairs_view(out@) =~= out0 + truncate(acc + wi, r));
                    assert(acc + wi =~= top + walk_kids_upto(node@, path@, d as nat, depth, (i + 1) as nat));
                }
                i += 1;
            }
            proof {
                lemma_walk_kids_split(node@, path@, d as nat, depth, a@.len() as nat);
                assert(walk_kids(node@, path@, d as nat, depth, a@.len() as nat) =~= Seq::empty());
                assert(walk_kids_upto(node@, path@, d as nat, depth, a@.len() as nat) + Seq::empty()
                    =~= kids);
            }
        },
        Value::Object(o) => {
            proof {
                lemma_entries_view(o@);
            }
            let mut i: usize = 0;
            while i < o.len()
                invariant
                    *node == Value::Object(*o),
                    i <= o@.len(),
                    expands(depth, d as nat),
                    d < usize::MAX,
                    entries_view(o@).len() == o@.len(),
                    forall|j: int|
                        0 <= j < o@.len() ==> #[trigger] entries_view(o@)[j] == (o@[j].0@, o@[j].1@),
                    limit is Some ==> out@.len() <= limit->0,
                    limit is Some ==> out0.len() <= limit->0,
                    out0.len() == old(out)@.len(),
                    r == rest_limit(limit, old(out)@.len()),
                    pairs_view(out@) == out0 + truncate(
                        top + walk_kids_upto(node@, path@, d as nat, depth, i as nat),
                        r,
                    ),
                decreases o@.len() - i,
            {
                let mut q = path.duplicate();
                q.push(Kind::ObjectKey(o[i].0.clone()));
                let ghost before = pairs_view(out@);
                let ghost acc = top + walk_kids_upto(node@, path@, d as nat, depth, i as nat);
                proof {
                    assert(decreases_to!(*node => node->Object_0));
                    assert(decreases_to!(node->Object_0 => node->Object_0@));
                    assert(decreases_to!(node->Object_0@ => node->Object_0@[i as int]));
                    assert(decreases_to!(node->Object_0@[i as int] => node->Object_0@[i as int].1));
                }
                walk_into(&o[i].1, q, d + 1, depth, limit, out);
                proof {
                    let wi = walk(
                        o@[i as int].1@,
                        path@.push(Step::Key(o@[i as int].0@)),
                        (d + 1) as nat,
                        depth,
                    );
                    assert(walk_kids_upto(node@, path@, d as nat, depth, (i + 1) as nat)
                        == walk_kids_upto(node@, path@, d as nat, depth, i as nat) + wi);
                    lemma_truncate_concat(acc, wi, r);
                    assert(truncate(acc, r).len() == before.len() - out0.len());
                    assert(out0.len() == old(out)@.len());
                    assert(limit is Some ==> truncate(acc, r).len() <= r->0);
                    assert(rest_limit(r, truncate(acc, r).len()) == rest_limit(limit, before.len()));
                    assert(pairs_view(out@) =~= out0 + truncate(acc + wi, r));
                    assert(acc + wi =~= top + walk_kids_upto(node@, path@, d as nat, depth, (i + 1) as nat));
                }
                i += 1;
            }
            proof {
                lemma_walk_kids_split(node@, path@, d as nat, depth, o@.len() as nat);
                assert(walk_kids(node@, path@, d as nat, depth, o@.len() as nat) =~= Seq::empty());
                assert(walk_kids_upto(node@, path@, d as nat, depth, o@.len() as nat) + Seq::empty()
                    =~= kids);
            }
        },
        _ => {
            assert(kids =~= Seq::empty());
            assert(truncate(kids, rest_limit(r, 1)) =~= Seq::empty());
            assert(top + Seq::empty() =~= top);
        },
    }
}

/// A read-only walk over a tree, with a depth bound and a bound on the number
/// of nodes visited.
pub struct Iter<'a> {
    pub value: &'a Value,
    pub depth: Option<usize>,
    pub limit: Option<usize>,
}

impl<'a> Iter<'a> {
    /// A walk over the whole tree.
    pub fn new(value: &'a Value) -> (r: Iter<'a>)
        ensures
            r.value == value,
            r.depth is None,
            r.limit is None,
    {
        Iter { value, depth: None, limit: None }
    }

    /// The same walk with the given depth bound.
    pub fn depth(self, depth: Option<usize>) -> (r: Iter<'a>)
        ensures
            r.value == self.value,
            r.depth == depth,
            r.limit == self.limit,
    {
        Iter { value: self.value, depth, limit: self.limit }
    }

    /// The same walk with the given bound on the number of visits.
    pub fn limit(self, limit: Option<usize>) -> (r: Iter<'a>)
        ensures
            r.value == self.value,
            r.depth == self.depth,
            r.limit == limit,
    {
        Iter { value: self.value, depth: self.depth, limit }
    }

    /// The same walk, taken one node at a time.
    pub fn into_iter(self) -> (r: KeyValueIter<'a>)
        ensures
            r.inner == self.value,
            r.traverser.queue_model() == seq![(0nat, Seq::<Step>::empty())],
            r.traverser.depth == self.depth,
            r.traverser.limit == self.limit,
            r.traverser.num_visited == 0,
    {
        let mut t = Dfs::with_depth(self.depth);
        t.set_limit(self.limit);
        KeyValueIter::new(self.value, t)
    }

    /// The visited nodes with their paths, in depth-first order: the root,
    /// then each child's walk in turn, children of a node at the depth bound
    /// left out, and no more than `limit` pairs in all.
    pub fn collect(&self) -> (r: Vec<(Path, &'a Value)>)
        ensures
            pairs_view(r@) == truncate(walk(self.value@, Seq::empty(), 0, self.depth), self.limit),
    {
        let mut out: Vec<(Path, &'a Value)> = Vec::new();
        walk_into(self.value, Path::empty(), 0, self.depth, self.limit, &mut out);
        assert(pairs_view(out@) =~= truncate(
            walk(self.value@, Seq::empty(), 0, self.depth),
            self.limit,
        ));
        out
    }
}

impl Value {
    /// The root and its children, with their paths.
    pub fn iter(&self) -> (r: Vec<(Path, &Value)>)
        ensures
            pairs_view(r@) == walk(self@, Seq::empty(), 0, Some(1usize)),
    {
        Iter::new(self).depth(Some(1)).collect()
    }

    /// Every node of the tree with its path, in depth-first order.
    pub fn iter_recursive(&self) -> (r: Vec<(Path, &Value)>)
        ensures
            pairs_view(r@) == walk(self@, Seq::empty(), 0, None),
    {
        Iter::new(self).collect()
    }
}

/// A rule applied to each visited node: it may hand back a node to put in
/// its place.
pub trait Visitor {
    spec fn spec_visit(&self, p: Seq<Step>, n: Node) -> Option<Node>;

    fn visit(&self, p: &Path, n: &Value) -> (r: Option<Value>)
        ensures
            opt_value(r) == self.spec_visit(p@, n@),
    ;
}

/// A visitor that turns valid nodes into valid nodes.
pub open spec fn visitor_keeps_valid<V: Visitor>(v: V) -> bool {
    forall|p: Seq<Step>, n: Node| well_formed(n) ==> well_formed(#[trigger] visited(v, p, n))
}

/// The model of an optional owned node.
pub open spec fn opt_value(r: Option<Value>) -> Option<Node> {
    match r {
        Some(v) => Some(v@),
        None => None,
    }
}

/// The node after the visitor has replaced it (or left it).
pub open spec fn visited<V: Visitor>(v: V, p: Seq<Step>, n: Node) -> Node {
    match v.spec_visit(p, n) {
        Some(m) => m,
        None => n,
    }
}

/// `n` with its `i`-th child replaced by `c`.
pub open spec fn set_kid(n: Node, i: int, c: Node) -> Node {
    match n {
        Node::Arr(a) => Node::Arr(a.update(i, c)),
        Node::Obj(e) => Node::Obj(e.update(i, (e[i].0, c))),
        _ => n,
    }
}

/// The `i`-th child of `n` and its step.
pub open spec fn kid(n: Node, i: int) -> (Step, Node) {
    match n {
        Node::Arr(a) => (Step::Pos(i as nat), a[i]),
        Node::Obj(e) => (Step::Key(e[i].0), e[i].1),
        _ => (Step::Pos(0), Node::Null),
    }
}

/// What a mutating walk makes of `n` at `p` and depth `d`: the visitor goes
/// first, then, if the bound lets the node expand, each child of the node
/// that the visitor left is walked in turn.
pub open spec fn mutate_walk<V: Visitor>(v: V, n: Node, p: Seq<Step>, d: nat, bound: Option<usize>) -> Node
    decreases usize::MAX - d, 1nat, 0nat,
{
    let m = visited(v, p, n);
    if expands(bound, d) {
        mutate_kids(v, m, p, d, bound, 0)
    } else {
        m
    }
}

/// `n` with the mutating walks of its children from the `i`-th on applied.
pub open spec fn mutate_kids<V: Visitor>(
    v: V,
    n: Node,
    p: Seq<Step>,
    d: nat,
    bound: Option<usize>,
    i: nat,
) -> Node
    decreases usize::MAX - d, 0nat, kids_len(n) - i,
{
    if expands(bound, d) && i < kids_len(n) {
        let (s, c) = kid(n, i as int);
        let c2 = mutate_walk(v, c, p.push(s), d + 1, bound);
        mutate_kids(v, set_kid(n, i as int, c2), p, d, bound, i + 1)
    } else {
        n
    }
}

fn mutate_into<V: Visitor>(node: &mut Value, path: Path, d: usize, depth: Option<usize>, v: &V)
    ensures
        final(node)@ == mutate_walk(*v, old(node)@, path@, d as nat, depth),
    decreases usize::MAX - d, 1nat,
{
    match v.visit(&path, node) {
        Some(x) => {
            *node = x;
        },
        None => {},
    }
    let ghost m = node@;
    let expand = d < usize::MAX && match depth {
        Some(b) => d < b,
        None => true,
    };
    if !expand {
        return;
    }
    match node {
        Value::Array(a) => {
            proof {
                lemma_items_view(a@);
            }
            let mut i: usize = 0;
            while i < a.len()
                invariant
                    i <= a@.len(),
                    d < usize::MAX,
                    expands(depth, d as nat),
                    kids_len(m) == a@.len(),
                    mutate_kids(*v, m, path@, d as nat, depth, 0) == mutate_kids(
                        *v,
                        Node::Arr(items_view(a@)),
                        path@,
                        d as nat,
                        depth,
                        i as nat,
                    ),
                decreases a@.len() - i,
            {
                let mut q = path.duplicate();
                q.push(Kind::ArrayIndex(i));
                let ghost before = a@;
                proof {
                    lemma_items_view(before);
                }
                mutate_into(&mut a[i], q, d + 1, depth, v);
                proof {
                    assert(a@ == before.update(i as int, a@[i as int]));
                    crate::value::lemma_items_update(before, i as int, a@[i as int]);
                    lemma_items_view(a@);
                }
                i += 1;
            }
            proof {
                lemma_items_view(a@);
            }
        },
        Value::Object(o) => {
            proof {
                lemma_entries_view(o@);
            }
            let mut i: usize = 0;
            while i < o.len()
                invariant
                    i <= o@.len(),
                    d < usize::MAX,
                    expands(depth, d as nat),
                    kids_len(m) == o@.len(),
                    mutate_kids(*v, m, path@, d as nat, depth, 0) == mutate_kids(
                        *v,
                        Node::Obj(entries_view(o@)),
                        path@,
                        d as nat,
                        depth,
                        i as nat,
                    ),
                decreases o@.len() - i,
            {
                let mut q = path.duplicate();
                q.push(Kind::ObjectKey(o[i].0.clone()));
                let ghost before = o@;
                proof {
                    lemma_entries_view(before);
                }
                mutate_into(&mut o[i].1, q, d + 1, depth, v);
                proof {
                    assert(o@ =~= before.update(i as int, (before[i as int].0, o@[i as int].1)));
                    crate::value::lemma_entries_update(before, i as int, o@[i as int].1);
                    lemma_entries_view(o@);
                }
                i += 1;
            }
            proof {
                lemma_entries_view(o@);
            }
        },
        _ => {},
    }
}

/// A mutating walk that may visit at most `budget` nodes: what it makes of
/// `n` (at `p`, depth `d`), and how much of the budget is left. With no
/// budget left a node is not visited; else the visitor goes first, using up
/// one visit, and then the children of the node it left are walked in turn.
pub open spec fn mutate_walk_budget<V: Visitor>(
    v: V,
    n: Node,
    p: Seq<Step>,
    d: nat,
    bound: Option<usize>,
    budget: nat,
) -> (Node, nat)
    decreases usize::MAX - d, 1nat, 0nat,
{
    if budget == 0 {
        (n, 0)
    } else {
        let m = visited(v, p, n);
        if expands(bound, d) {
            mutate_kids_budget(v, m, p, d, bound, 0, (budget - 1) as nat)
        } else {
            (m, (budget - 1) as nat)
        }
    }
}

/// `n` with the budgeted walks of its children from the `i`-th on applied,
/// one after the other, and the budget left.
pub open spec fn mutate_kids_budget<V: Visitor>(
    v: V,
    n: Node,
    p: Seq<Step>,
    d: nat,
    bound: Option<usize>,
    i: nat,
    budget: nat,
) -> (Node, nat)
    decreases usize::MAX - d, 0nat, kids_len(n) - i,
{
    if expands(bound, d) && i < kids_len(n) {
        let (s, c) = kid(n, i as int);
        let (c2, b2) = mutate_walk_budget(v, c, p.push(s), d + 1, bound, budget);
        mutate_kids_budget(v, set_kid(n, i as int, c2), p, d, bound, i + 1, b2)
    } else {
        (n, budget)
    }
}

fn mutate_into_budget<V: Visitor>(
    node: &mut Value,
    path: Path,
    d: usize,
    depth: Option<usize>,
    budget: usize,
    v: &V,
) -> (left: usize)
    ensures
        (final(node)@, left as nat) == mutate_walk_budget(*v, old(node)@, path@, d as nat, depth, budget as nat),
    decreases usize::MAX - d, 1nat,
{
    if budget == 0 {
        return 0;
    }
    match v.visit(&path, node) {
        Some(x) => {
            *node = x;
        },
        None => {},
    }
    let ghost m = node@;
    let mut left: usize = budget - 1;
    let expand = d < usize::MAX && match depth {
        Some(b) => d < b,
        None => true,
    };
    if !expand {
        return left;
    }
    match node {
        Value::Array(a) => {
            proof {
                lemma_items_view(a@);
            }
            let mut i: usize = 0;
            while i < a.len()
                invariant
                    i <= a@.len(),
                    d < usize::MAX,
                    expands(depth, d as nat),
                    kids_len(m) == a@.len(),
                    mutate_kids_budget(*v, m, path@, d as nat, depth, 0, (budget - 1) as nat)
                        == mutate_kids_budget(
                        *v,
                        Node::Arr(items_view(a@)),
                        path@,
                        d as nat,
                        depth,
                        i as nat,
                        left as nat,
                    ),
                decreases a@.len() - i,
            {
                let mut q = path.duplicate();
                q.push(Kind::ArrayIndex(i));
                let ghost before = a@;
                proof {
                    lemma_items_view(before);
                }
                left = mutate_into_budget(&mut a[i], q, d + 1, depth, left, v);
                proof {
                    assert(a@ == before.update(i as int, a@[i as int]));
                    crate::value::lemma_items_update(before, i as int, a@[i as int]);
                    lemma_items_view(a@);
                }
                i += 1;
            }
            proof {
                lemma_items_view(a@);
            }
        },
        Value::Object(o) => {
            proof {
                lemma_entries_view(o@);
            }
            let mut i: usize = 0;
            while i < o.len()
                invariant
                    i <= o@.len(),
                    d < usize::MAX,
                    expands(depth, d as nat),
                    kids_len(m) == o@.len(),
                    mutate_kids_budget(*v, m, path@, d as nat, depth, 0, (budget - 1) as nat)
                        == mutate_kids_budget(
                        *v,
                        Node::Obj(entries_view(o@)),
                        path@,
                        d as nat,
                        depth,
                        i as nat,
                        left as nat,
                    ),
                decreases o@.len() - i,
            {
                let mut q = path.duplicate();
                q.push(Kind::ObjectKey(o[i].0.clone()));
                let ghost before = o@;
                proof {
                    lemma_entries_view(before);
                }
                left = mutate_into_budget(&mut o[i].1, q, d + 1, depth, left, v);
                proof {
                    assert(o@ =~= before.update(i as int, (before[i as int].0, o@[i as int].1)));
                    crate::value::lemma_entries_update(before, i as int, o@[i as int].1);
                    lemma_entries_view(o@);
                }
                i += 1;
            }
            proof {
                lemma_entries_view(o@);
            }
        },
        _ => {},
    }
    left
}

impl Value {
    /// Walks the tree depth-first, letting `visitor` replace each node before
    /// its children are looked at; nodes at the depth bound are visited but
    /// not expanded.
    pub fn for_each_mut<V: Visitor>(&mut self, depth: Option<usize>, visitor: &V)
        ensures
            final(self)@ == mutate_walk(*visitor, old(self)@, Seq::empty(), 0, depth),
            visitor_keeps_valid(*visitor) && well_formed(old(self)@) ==> well_formed(final(self)@),
    {
        proof {
            if visitor_keeps_valid(*visitor) && well_formed(self@) {
                crate::laws::lemma_mutate_walk_valid(*visitor, self@, Seq::empty(), 0, depth);
            }
        }
        let p = Path::empty();
        mutate_into(self, p, 0, depth, visitor);
    }

    /// `for_each_mut` that visits at most `limit` nodes (the root included)
    /// and leaves the rest as they are; `None` sets no bound.
    pub fn for_each_mut_limited<V: Visitor>(&mut self, depth: Option<usize>, limit: Option<usize>, visitor: &V)
        ensures
            final(self)@ == match limit {
                Some(l) => mutate_walk_budget(*visitor, old(self)@, Seq::empty(), 0, depth, l as nat).0,
                None => mutate_walk(*visitor, old(self)@, Seq::empty(), 0, depth),
            },
            visitor_keeps_valid(*visitor) && well_formed(old(self)@) ==> well_formed(final(self)@),
    {
        proof {
            if visitor_keeps_valid(*visitor) && well_formed(self@) {
                if let Some(l) = limit {
                    crate::laws::lemma_mutate_walk_budget_valid(
                        *visitor,
                        self@,
                        Seq::empty(),
                        0,
                        depth,
                        l as nat,
                    );
                }
            }
        }
        match limit {
            Some(l) => {
                mutate_into_budget(self, Path::empty(), 0, depth, l, visitor);
            },
            None => {
                self.for_each_mut(depth, visitor);
            },
        }
    }

    /// `for_each_mut` with no depth bound.
    pub fn for_each_mut_recursive<V: Visitor>(&mut self, visitor: &V)
        ensures
            final(self)@ == mutate_walk(*visitor, old(self)@, Seq::empty(), 0, None),
            visitor_keeps_valid(*visitor) && well_formed(old(self)@) ==> well_formed(final(self)@),
    {
        self.for_each_mut(None, visitor);
    }
}

/// A traverser whose pending work can be split, to hand half of it to
/// another worker.
pub trait ParallelTraverser: Sized {
    spec fn spec_pending(&self) -> Seq<Entry>;

    fn split(&mut self) -> (r: Option<Self>)
        ensures
            r is Some <==> old(self).spec_pending().len() >= 2,
            match r {
                Some(other) => {
                    &&& old(self).spec_pending() == final(self).spec_pending() + other.spec_pending()
                    &&& final(self).spec_pending().len() == old(self).spec_pending().len() / 2
                },
                None => final(self).spec_pending() == old(self).spec_pending(),
            },
    ;
}

impl ParallelTraverser for Dfs {
    open spec fn spec_pending(&self) -> Seq<Entry> {
        self.queue_model()
    }

    /// With two or more entries pending, the upper half of the stack goes to
    /// a new traverser with the same bounds and visit count.
    fn split(&mut self) -> (r: Option<Dfs>) {
        let len = self.queue.len();
        if len < 2 {
            assert(self.queue_model().len() == len);
            return None;
        }
        let half = len / 2;
        let mut upper: Vec<(usize, Path)> = Vec::new();
        let mut lower: Vec<(usize, Path)> = Vec::new();
        let ghost q = self.queue@;
        let mut i: usize = 0;
        while i < len
            invariant
                q == self.queue@,
                len == q.len(),
                half <= len,
                i <= len,
                i <= half ==> queue_view(lower@) == queue_view(q).take(i as int) && upper@.len() == 0,
                i > half ==> queue_view(lower@) == queue_view(q).take(half as int) && queue_view(upper@)
                    == queue_view(q).subrange(half as int, i as int),
            decreases len - i,
        {
            let e = (self.queue[i].0, self.queue[i].1.duplicate());
            if i < half {
                lower.push(e);
                assert(queue_view(lower@) =~= queue_view(q).take(i as int + 1));
            } else {
                upper.push(e);
                assert(queue_view(upper@) =~= queue_view(q).subrange(half as int, i as int + 1));
            }
            i += 1;
        }
        let ghost old_model = self.queue_model();
        self.queue = lower;
        let other = Dfs {
            queue: upper,
            depth: self.depth,
            limit: self.limit,
            num_visited: self.num_visited,
        };
        assert(old_model =~= self.queue_model() + other.queue_model());
        Some(other)
    }
}

/// Whether a closure can stand as a visitor: it accepts every argument, and
/// it hands back the same node (or none) for arguments of the same value.
pub open spec fn visitor_fn<F: Fn(&Path, &Value) -> Option<Value>>(f: F) -> bool {
    &&& forall|p: &Path, n: &Value| #[trigger] f.requires((p, n))
    &&& forall|pa: &Path, n1: &Value, o1: Option<Value>, pb: &Path, n2: &Value, o2: Option<Value>|
        #![trigger f.ensures((pa, n1), o1), f.ensures((pb, n2), o2)]
        f.ensures((pa, n1), o1) && f.ensures((pb, n2), o2) && pa@ == pb@ && n1@ == n2@
            ==> opt_value(o1) == opt_value(o2)
}

/// A visitor made of a closure.
pub struct VisitWith<F: Fn(&Path, &Value) -> Option<Value>> {
    f: F,
}

impl<F: Fn(&Path, &Value) -> Option<Value>> VisitWith<F> {
    #[verifier::type_invariant]
    spec fn inv(&self) -> bool {
        visitor_fn(self.f)
    }

    pub closed spec fn func(&self) -> F {
        self.f
    }

    /// Wraps `f`, which must accept every argument and answer alike for
    /// arguments of the same value.
    pub fn new(f: F) -> (r: VisitWith<F>)
        requires
            visitor_fn(f),
        ensures
            r.func() == f,
    {
        VisitWith { f }
    }
}

impl<F: Fn(&Path, &Value) -> Option<Value>> Visitor for VisitWith<F> {
    closed spec fn spec_visit(&self, p: Seq<Step>, n: Node) -> Option<Node> {
        let w = choose|w: (&Path, &Value, Option<Value>)|
            w.0@ == p && w.1@ == n && call_ensures(self.f, (w.0, w.1), w.2);
        opt_value(w.2)
    }

    fn visit(&self, p: &Path, n: &Value) -> (r: Option<Value>) {
        proof {
            use_type_invariant(self);
        }
        let r = (self.f)(p, n);
        proof {
            let wit = (p, n, r);
            assert(wit.0@ == p@ && wit.1@ == n@ && call_ensures(self.f, (wit.0, wit.1), wit.2));
            assert(exists|w: (&Path, &Value, Option<Value>)|
                w.0@ == p@ && w.1@ == n@ && call_ensures(self.f, (w.0, w.1), w.2));
            let w = choose|w: (&Path, &Value, Option<Value>)|
                w.0@ == p@ && w.1@ == n@ && call_ensures(self.f, (w.0, w.1), w.2);
            assert(call_ensures(self.f, (p, n), r));
            assert(call_ensures(self.f, (w.0, w.1), w.2));
        }
        r
    }
}

/// A traversal strategy: something that can be configured with bounds and
/// stepped over a tree, one visited path at a time.
pub trait Traverser: Sized {
    /// The pending (depth, path) entries, the top last.
    spec fn spec_queue(&self) -> Seq<Entry>;

    spec fn spec_depth(&self) -> Option<usize>;

    spec fn spec_limit(&self) -> Option<usize>;

    spec fn spec_visited(&self) -> nat;

    /// A traverser at the root with no bounds.
    fn new() -> (r: Self)
        ensures
            r.spec_queue() == seq![(0nat, Seq::<Step>::empty())],
            r.spec_depth() is None,
            r.spec_limit() is None,
            r.spec_visited() == 0,
    ;

    /// Sets the bound on the number of visits.
    fn set_limit(&mut self, limit: Option<usize>)
        ensures
            final(self).spec_limit() == limit,
            final(self).spec_depth() == old(self).spec_depth(),
            final(self).spec_queue() == old(self).spec_queue(),
            final(self).spec_visited() == old(self).spec_visited(),
    ;

    /// Sets the depth bound.
    fn set_depth(&mut self, depth: Option<usize>)
        ensures
            final(self).spec_depth() == depth,
            final(self).spec_limit() == old(self).spec_limit(),
            final(self).spec_queue() == old(self).spec_queue(),
            final(self).spec_visited() == old(self).spec_visited(),
    ;

    /// One step over `tree`: see `step_spec`.
    fn next(&mut self, tree: &Value) -> (r: Option<Path>)
        ensures
            final(self).spec_depth() == old(self).spec_depth(),
            final(self).spec_limit() == old(self).spec_limit(),
            step_spec(
                old(self).spec_queue(),
                old(self).spec_depth(),
                old(self).spec_limit(),
                old(self).spec_visited(),
                tree@,
                final(self).spec_queue(),
                final(self).spec_visited(),
                match r {
                    Some(p) => Some(p@),
                    None => None,
                },
            ),
    ;

    /// Back to the root with no visits counted; the bounds are kept.
    fn reset(&mut self)
        ensures
            final(self).spec_queue() == seq![(0nat, Seq::<Step>::empty())],
            final(self).spec_visited() == 0,
            final(self).spec_depth() == old(self).spec_depth(),
            final(self).spec_limit() == old(self).spec_limit(),
    ;
}

impl Traverser for Dfs {
    open spec fn spec_queue(&self) -> Seq<Entry> {
        self.queue_model()
    }

    open spec fn spec_depth(&self) -> Option<usize> {
        self.depth
    }

    open spec fn spec_limit(&self) -> Option<usize> {
        self.limit
    }

    open spec fn spec_visited(&self) -> nat {
        self.num_visited as nat
    }

    fn new() -> (r: Self) {
        Dfs::new()
    }

    fn set_limit(&mut self, limit: Option<usize>) {
        Dfs::set_limit(self, limit);
    }

    fn set_depth(&mut self, depth: Option<usize>) {
        Dfs::set_depth(self, depth);
    }

    fn next(&mut self, tree: &Value) -> (r: Option<Path>) {
        Dfs::next(self, tree)
    }

    fn reset(&mut self) {
        Dfs::reset(self);
    }
}

/// `v` counted up `k` times, stopping at the largest `usize`.
pub open spec fn counted(v: nat, k: nat) -> nat {
    if v + k < usize::MAX {
        v + k
    } else {
        usize::MAX as nat
    }
}

/// The top `k` entries of `q` name no node in `t`, and counting one visit
/// for each stays within the bound `limit`.
pub open spec fn skips(t: Node, q: Seq<Entry>, limit: Option<usize>, visited: nat, k: nat) -> bool {
    &&& k <= q.len()
    &&& forall|j: int| q.len() - k <= j < q.len() ==> resolve(t, (#[trigger] q[j]).1) is None
    &&& (k > 0 && limit is Some ==> counted(visited, k) <= limit->0)
}

/// A lazy walk: each call of `next` steps the traverser over the tree and
/// hands out the visited node with its path.
pub struct KeyValueIter<'a> {
    pub inner: &'a Value,
    pub traverser: Dfs,
}

impl<'a> KeyValueIter<'a> {
    /// A lazy walk of `inner` driven by `traverser`.
    pub fn new(inner: &'a Value, traverser: Dfs) -> (r: KeyValueIter<'a>)
        ensures
            r.inner == inner,
            r.traverser == traverser,
    {
        KeyValueIter { inner, traverser }
    }

    /// The next visited node with its path. Steps of the traverser whose
    /// path names no node are passed over: each drops its entry and counts a
    /// visit. Then one more step is taken, which either returns a path that
    /// names a node, handed out with that node, or returns `None` because
    /// nothing is pending or the visit bound is reached.
    pub fn next(&mut self) -> (r: Option<(Path, &'a Value)>)
        ensures
            final(self).inner == old(self).inner,
            final(self).traverser.depth == old(self).traverser.depth,
            final(self).traverser.limit == old(self).traverser.limit,
            match r {
                Some((p, v)) => resolve(old(self).inner@, p@) == Some(v@),
                None => true,
            },
            exists|k: nat|
                skips(
                    old(self).inner@,
                    old(self).traverser.queue_model(),
                    old(self).traverser.limit,
                    old(self).traverser.num_visited as nat,
                    k,
                ) && step_spec(
                    old(self).traverser.queue_model().take(
                        old(self).traverser.queue_model().len() - k,
                    ),
                    old(self).traverser.depth,
                    old(self).traverser.limit,
                    counted(old(self).traverser.num_visited as nat, k),
                    old(self).inner@,
                    final(self).traverser.queue_model(),
                    final(self).traverser.num_visited as nat,
                    match r {
                        Some((p, _)) => Some(p@),
                        None => None,
                    },
                ),
    {
        let ghost q0 = self.traverser.queue_model();
        let ghost v0 = self.traverser.num_visited as nat;
        let ghost mut k: nat = 0;
        assert(q0.take(q0.len() - 0) =~= q0);
        loop
            invariant
                self.inner == old(self).inner,
                self.traverser.depth == old(self).traverser.depth,
                self.traverser.limit == old(self).traverser.limit,
                q0 == old(self).traverser.queue_model(),
                v0 == old(self).traverser.num_visited as nat,
                skips(self.inner@, q0, self.traverser.limit, v0, k),
                self.traverser.queue_model() == q0.take(q0.len() - k),
                self.traverser.num_visited as nat == counted(v0, k),
            decreases self.traverser.queue@.len(),
        {
            let ghost before = self.traverser;
            match self.traverser.next(self.inner) {
                None => {
                    return None;
                },
                Some(p) => {
                    match self.inner.get_index(&p) {
                        Some(v) => {
                            return Some((p, v));
                        },
                        None => {
                            proof {
                                let q = before.queue_model();
                                assert(q.len() > 0);
                                assert(child_entries(resolve(self.inner@, q.last().1), q.last().0, q.last().1)
                                    =~= Seq::empty());
                                assert(self.traverser.queue_model().len() == self.traverser.queue@.len());
                                assert(before.queue_model().len() == before.queue@.len());
                                assert(q.last() == q0[q0.len() - k - 1]);
                                assert(q.drop_last() =~= q0.take(q0.len() - (k + 1)));
                                k = k + 1;
                            }
                        },
                    }
                },
            }
        }
    }
}

} // verus!
