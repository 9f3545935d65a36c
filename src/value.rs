//! The tree: a JSON-like value, and its mathematical model.
use crate::index::{Kind, Path, Step};
use vstd::prelude::*;

verus! {

broadcast use vstd::std_specs::vec::group_vec_axioms;

/// A JSON number as the parser gave it: a non-negative integer, a negative
/// integer, or a finite double held as its IEEE-754 bit pattern.
#[derive(Debug, Clone, Copy, PartialEq, Eq, Structural)]
pub enum Number {
    PosInt(u64),
    NegInt(i64),
    Float(u64),
}

/// A JSON-like tree. Objects keep their keys in insertion order.
#[derive(Debug, PartialEq)]
pub enum Value {
    Null,
    Bool(bool),
    Number(Number),
    String(String),
    Array(Vec<Value>),
    Object(Vec<(String, Value)>),
}

/// The mathematical model of a tree.
pub enum Node {
    Null,
    Bool(bool),
    Num(Number),
    Str(Seq<char>),
    Arr(Seq<Node>),
    Obj(Seq<(Seq<char>, Node)>),
}

impl View for Value {
    type V = Node;

    open spec fn view(&self) -> Node
        decreases self,
    {
        match self {
            Value::Null => Node::Null,
            Value::Bool(b) => Node::Bool(*b),
            Value::Number(n) => Node::Num(*n),
            Value::String(s) => Node::Str(s@),
            Value::Array(a) => Node::Arr(items_view(a@)),
            Value::Object(o) => Node::Obj(entries_view(o@)),
        }
    }
}

/// The models of the items of an array.
pub open spec fn items_view(s: Seq<Value>) -> Seq<Node>
    decreases s,
{
    if s.len() == 0 {
        Seq::empty()
    } else {
        items_view(s.subrange(0, s.len() - 1)).push(s[s.len() - 1].view())
    }
}

/// The models of the entries of an object.
pub open spec fn entries_view(s: Seq<(String, Value)>) -> Seq<(Seq<char>, Node)>
    decreases s,
{
    if s.len() == 0 {
        Seq::empty()
    } else {
        entries_view(s.subrange(0, s.len() - 1)).push(
            (s[s.len() - 1].0@, s[s.len() - 1].1.view()),
        )
    }
}


/// Position of the first entry with key `k`, or -1.
pub open spec fn key_index(e: Seq<(Seq<char>, Node)>, k: Seq<char>) -> int
    decreases e.len(),
{
    if e.len() == 0 {
        -1
    } else if e[0].0 == k {
        0
    } else {
        let r = key_index(e.drop_first(), k);
        if r < 0 {
            -1
        } else {
            r + 1
        }
    }
}

/// The child of `n` that one step names, if there is one.
pub open spec fn child(n: Node, s: Step) -> Option<Node> {
    match (n, s) {
        (Node::Arr(a), Step::Pos(i)) => if i < a.len() {
            Some(a[i as int])
        } else {
            None
        },
        (Node::Obj(e), Step::Key(k)) => {
            let j = key_index(e, k);
            if j >= 0 {
                Some(e[j].1)
            } else {
                None
            }
        },
        _ => None,
    }
}

/// The node that a path names, if it names one.
pub open spec fn resolve(n: Node, p: Seq<Step>) -> Option<Node>
    decreases p.len(),
{
    if p.len() == 0 {
        Some(n)
    } else {
        match child(n, p[0]) {
            Some(c) => resolve(c, p.drop_first()),
            None => None,
        }
    }
}

/// `n` with the node at `p` replaced by `new`; `n` itself where `p` names no node.
pub open spec fn update(n: Node, p: Seq<Step>, new: Node) -> Node
    decreases p.len(),
{
    if p.len() == 0 {
        new
    } else {
        match (n, p[0]) {
            (Node::Arr(a), Step::Pos(i)) => if i < a.len() {
                Node::Arr(a.update(i as int, update(a[i as int], p.drop_first(), new)))
            } else {
                n
            },
            (Node::Obj(e), Step::Key(k)) => {
                let j = key_index(e, k);
                if j >= 0 {
                    Node::Obj(e.update(j, (e[j].0, update(e[j].1, p.drop_first(), new))))
                } else {
                    n
                }
            },
            _ => n,
        }
    }
}

/// No two entries of an object share a key.
pub open spec fn unique_keys(e: Seq<(Seq<char>, Node)>) -> bool {
    forall|i: int, j: int| 0 <= i < j < e.len() ==> e[i].0 != e[j].0
}

/// The validity of a tree: every object has unique keys, all the way down.
/// Every function of this library that builds a tree from valid trees
/// gives a valid tree.
pub open spec fn well_formed(n: Node) -> bool
    decreases n,
{
    match n {
        Node::Arr(a) => forall|i: int| 0 <= i < a.len() ==> well_formed(#[trigger] a[i]),
        Node::Obj(e) => unique_keys(e) && forall|i: int|
            0 <= i < e.len() ==> well_formed(#[trigger] e[i].1),
        _ => true,
    }
}

pub proof fn lemma_items_view(s: Seq<Value>)
    ensures
        items_view(s).len() == s.len(),
        forall|i: int| 0 <= i < s.len() ==> #[trigger] items_view(s)[i] == s[i]@,
    decreases s.len(),
{
    if s.len() > 0 {
        let t = s.subrange(0, s.len() - 1);
        lemma_items_view(t);
        assert(items_view(s) == items_view(t).push(s[s.len() - 1]@));
        assert forall|i: int| 0 <= i < s.len() implies #[trigger] items_view(s)[i] == s[i]@ by {
            if i < s.len() - 1 {
                assert(t[i] == s[i]);
            }
        }
    }
}

pub proof fn lemma_entries_view(s: Seq<(String, Value)>)
    ensures
        entries_view(s).len() == s.len(),
        forall|i: int|
            0 <= i < s.len() ==> #[trigger] entries_view(s)[i] == (s[i].0@, s[i].1@),
    decreases s.len(),
{
    if s.len() > 0 {
        let t = s.subrange(0, s.len() - 1);
        lemma_entries_view(t);
        assert(entries_view(s) == entries_view(t).push((s[s.len() - 1].0@, s[s.len() - 1].1@)));
        assert forall|i: int| 0 <= i < s.len() implies #[trigger] entries_view(s)[i] == (
            s[i].0@,
            s[i].1@,
        ) by {
            if i < s.len() - 1 {
                assert(t[i] == s[i]);
            }
        }
    }
}

pub proof fn lemma_key_index(e: Seq<(Seq<char>, Node)>, k: Seq<char>)
    ensures
        -1 <= key_index(e, k) < e.len(),
        key_index(e, k) >= 0 ==> e[key_index(e, k)].0 == k,
        forall|j: int| 0 <= j < e.len() && (key_index(e, k) < 0 || j < key_index(e, k)) ==> e[j].0 != k,
    decreases e.len(),
{
    if e.len() > 0 {
        lemma_key_index(e.drop_first(), k);
        assert forall|j: int| 0 <= j < e.len() && (key_index(e, k) < 0 || j < key_index(e, k)) implies e[j].0 != k by {
            if j > 0 {
                assert(e[j] == e.drop_first()[j - 1]);
            }
        }
    }
}

/// `key_index` is the first position that holds the key.
pub proof fn lemma_key_index_first(e: Seq<(Seq<char>, Node)>, k: Seq<char>, j: int)
    requires
        0 <= j < e.len(),
        e[j].0 == k,
        forall|i: int| 0 <= i < j ==> e[i].0 != k,
    ensures
        key_index(e, k) == j,
{
    lemma_key_index(e, k);
}

impl Clone for Value {
    fn clone(&self) -> Self {
        self.deep_clone()
    }
}

impl Value {
    /// An exact copy of the whole tree.
    pub fn deep_clone(&self) -> (r: Value)
        ensures
            r@ == self@,
        decreases self,
    {
        match self {
            Value::Null => Value::Null,
            Value::Bool(b) => Value::Bool(*b),
            Value::Number(n) => Value::Number(*n),
            Value::String(s) => Value::String(s.clone()),
            Value::Array(a) => {
                let mut out: Vec<Value> = Vec::new();
                let mut i: usize = 0;
                while i < a.len()
                    invariant
                        *self == Value::Array(*a),
                        i <= a@.len(),
                        out@.len() == i,
                        forall|j: int| 0 <= j < i ==> #[trigger] out@[j]@ == a@[j]@,
                    decreases a@.len() - i,
                {
                    proof {
                        assert(self->Array_0 == *a);
                        assert(decreases_to!(*self => self->Array_0));
                        assert(decreases_to!(self->Array_0 => self->Array_0@));
                        assert(decreases_to!(self->Array_0@ => self->Array_0@[i as int]));
                    }
                    out.push(a[i].deep_clone());
                    i += 1;
                }
                proof {
                    lemma_items_view(a@);
                    lemma_items_view(out@);
                    assert(items_view(out@) =~= items_view(a@));
                }
                Value::Array(out)
            },
            Value::Object(o) => {
                let mut out: Vec<(String, Value)> = Vec::new();
                let mut i: usize = 0;
                while i < o.len()
                    invariant
                        *self == Value::Object(*o),
                        i <= o@.len(),
                        out@.len() == i,
                        forall|j: int|
                            0 <= j < i ==> #[trigger] out@[j].0@ == o@[j].0@ && out@[j].1@
                                == o@[j].1@,
                    decreases o@.len() - i,
                {
                    let k = o[i].0.clone();
                    proof {
                        assert(self->Object_0 == *o);
                        assert(decreases_to!(*self => self->Object_0));
                        assert(decreases_to!(self->Object_0 => self->Object_0@));
                        assert(decreases_to!(self->Object_0@ => self->Object_0@[i as int]));
                        assert(decreases_to!(self->Object_0@[i as int] => self->Object_0@[i as int].1));
                    }
                    let v = o[i].1.deep_clone();
                    out.push((k, v));
                    i += 1;
                }
                proof {
                    lemma_entries_view(o@);
                    lemma_entries_view(out@);
                    assert(entries_view(out@) =~= entries_view(o@));
                }
                Value::Object(out)
            },
        }
    }
}

/// Position of the first entry with key `k` in an object's entries.
pub fn find_key(entries: &Vec<(String, Value)>, k: &String) -> (r: Option<usize>)
    ensures
        ({
            let j = key_index(entries_view(entries@), k@);
            match r {
                Some(i) => j == i && i < entries@.len(),
                None => j == -1,
            }
        }),
{
    let ghost e = entries_view(entries@);
    proof {
        lemma_entries_view(entries@);
        lemma_key_index(e, k@);
    }
    let mut i: usize = 0;
    while i < entries.len()
        invariant
            i <= entries@.len(),
            e == entries_view(entries@),
            e.len() == entries@.len(),
            forall|j: int| 0 <= j < e.len() ==> #[trigger] e[j] == (entries@[j].0@, entries@[j].1@),
            forall|j: int| 0 <= j < i ==> e[j].0 != k@,
        decreases entries@.len() - i,
    {
        if entries[i].0 == *k {
            proof {
                lemma_key_index_first(e, k@, i as int);
            }
            return Some(i);
        }
        i += 1;
    }
    None
}


/// The model of a looked-up node.
pub open spec fn opt_node(r: Option<&Value>) -> Option<Node> {
    match r {
        Some(v) => Some(v@),
        None => None,
    }
}

/// Whether `put` can reach the end of `p` from `n`: keys step into objects
/// (a null becomes an empty object), positions into arrays within their length.
pub open spec fn creatable(n: Node, p: Seq<Step>) -> bool
    decreases p.len(),
{
    if p.len() == 0 {
        true
    } else {
        match (n, p[0]) {
            (Node::Null, Step::Key(_)) => creatable(Node::Null, p.drop_first()),
            (Node::Obj(e), Step::Key(k)) => {
                let j = key_index(e, k);
                if j >= 0 {
                    creatable(e[j].1, p.drop_first())
                } else {
                    creatable(Node::Null, p.drop_first())
                }
            },
            (Node::Arr(a), Step::Pos(i)) => i < a.len() && creatable(a[i as int], p.drop_first()),
            _ => false,
        }
    }
}

/// `n` with `new` stored at `p`, where missing keys are added (as null
/// before they are filled) and a null on the way becomes an object.
pub open spec fn put(n: Node, p: Seq<Step>, new: Node) -> Node
    decreases p.len(),
{
    if p.len() == 0 {
        new
    } else {
        match (n, p[0]) {
            (Node::Null, Step::Key(k)) => Node::Obj(seq![(k, put(Node::Null, p.drop_first(), new))]),
            (Node::Obj(e), Step::Key(k)) => {
                let j = key_index(e, k);
                if j >= 0 {
                    Node::Obj(e.update(j, (k, put(e[j].1, p.drop_first(), new))))
                } else {
                    Node::Obj(e.push((k, put(Node::Null, p.drop_first(), new))))
                }
            },
            (Node::Arr(a), Step::Pos(i)) => if i < a.len() {
                Node::Arr(a.update(i as int, put(a[i as int], p.drop_first(), new)))
            } else {
                n
            },
            _ => n,
        }
    }
}

proof fn lemma_skip_step(p: Seq<Step>, i: int)
    requires
        0 <= i < p.len(),
    ensures
        p.skip(i).len() > 0,
        p.skip(i)[0] == p[i],
        p.skip(i).drop_first() == p.skip(i + 1),
{
    assert(p.skip(i).drop_first() =~= p.skip(i + 1));
}

pub proof fn lemma_items_update(s: Seq<Value>, j: int, x: Value)
    requires
        0 <= j < s.len(),
    ensures
        items_view(s.update(j, x)) == items_view(s).update(j, x@),
{
    lemma_items_view(s);
    lemma_items_view(s.update(j, x));
    assert(items_view(s.update(j, x)) =~= items_view(s).update(j, x@));
}

pub proof fn lemma_entries_update(s: Seq<(String, Value)>, j: int, x: Value)
    requires
        0 <= j < s.len(),
    ensures
        entries_view(s.update(j, (s[j].0, x))) == entries_view(s).update(j, (s[j].0@, x@)),
{
    lemma_entries_view(s);
    lemma_entries_view(s.update(j, (s[j].0, x)));
    assert(entries_view(s.update(j, (s[j].0, x))) =~= entries_view(s).update(j, (s[j].0@, x@)));
}

pub proof fn lemma_entries_push(s: Seq<(String, Value)>, k: String, x: Value)
    ensures
        entries_view(s.push((k, x))) == entries_view(s).push((k@, x@)),
{
    lemma_entries_view(s);
    lemma_entries_view(s.push((k, x)));
    assert(entries_view(s.push((k, x))) =~= entries_view(s).push((k@, x@)));
}

impl Value {
    /// The child that one step names, if there is one.
    pub fn get_child(&self, k: &Kind) -> (r: Option<&Value>)
        ensures
            opt_node(r) == child(self@, k@),
    {
        match (self, k) {
            (Value::Array(a), Kind::ArrayIndex(i)) => {
                proof {
                    lemma_items_view(a@);
                }
                if *i < a.len() {
                    Some(&a[*i])
                } else {
                    None
                }
            },
            (Value::Object(o), Kind::ObjectKey(key)) => {
                proof {
                    lemma_entries_view(o@);
                }
                match find_key(o, key) {
                    Some(j) => Some(&o[j].1),
                    None => None,
                }
            },
            _ => None,
        }
    }

    fn get_from(&self, path: &Path, i: usize) -> (r: Option<&Value>)
        requires
            i <= path@.len(),
        ensures
            opt_node(r) == resolve(self@, path@.skip(i as int)),
        decreases path@.len() - i,
    {
        if i == path.len() {
            assert(path@.skip(i as int).len() == 0);
            return Some(self);
        }
        proof {
            lemma_skip_step(path@, i as int);
        }
        match self.get_child(path.get(i)) {
            Some(c) => c.get_from(path, i + 1),
            None => None,
        }
    }

    /// The node that `path` names, if it names one; a missing key, a position
    /// out of range or a step of the wrong kind gives `None`.
    pub fn get_index(&self, path: &Path) -> (r: Option<&Value>)
        ensures
            opt_node(r) == resolve(self@, path@),
    {
        assert(path@.skip(0) =~= path@);
        self.get_from(path, 0)
    }

    /// The node that `path` names, or null where it names none.
    pub fn at(&self, path: &Path) -> (r: Value)
        ensures
            r@ == match resolve(self@, path@) {
                Some(n) => n,
                None => Node::Null,
            },
            well_formed(self@) ==> well_formed(r@),
    {
        proof {
            if well_formed(self@) && resolve(self@, path@) is Some {
                crate::laws::lemma_resolve_well_formed(self@, path@);
            }
        }
        match self.get_index(path) {
            Some(v) => v.deep_clone(),
            None => Value::Null,
        }
    }

    fn replace_from(&mut self, path: &Path, i: usize, new: Value) -> (ok: bool)
        requires
            i <= path@.len(),
        ensures
            ok == resolve(old(self)@, path@.skip(i as int)) is Some,
            final(self)@ == update(old(self)@, path@.skip(i as int), new@),
        decreases path@.len() - i,
    {
        if i == path.len() {
            assert(path@.skip(i as int).len() == 0);
            *self = new;
            return true;
        }
        proof {
            lemma_skip_step(path@, i as int);
        }
        match self {
            Value::Array(a) => match path.get(i) {
                Kind::ArrayIndex(j) => {
                    proof {
                        lemma_items_view(a@);
                    }
                    if *j < a.len() {
                        let ghost before = a@;
                        let ok = a[*j].replace_from(path, i + 1, new);
                        proof {
                            assert(a@ == before.update(*j as int, a@[*j as int]));
                            lemma_items_update(before, *j as int, a@[*j as int]);
                        }
                        ok
                    } else {
                        false
                    }
                },
                Kind::ObjectKey(_) => false,
            },
            Value::Object(o) => match path.get(i) {
                Kind::ObjectKey(key) => {
                    proof {
                        lemma_entries_view(o@);
                    }
                    match find_key(o, key) {
                        Some(j) => {
                            let ghost before = o@;
                            let ok = o[j].1.replace_from(path, i + 1, new);
                            proof {
                                assert(o@ =~= before.update(j as int, (before[j as int].0, o@[j as int].1)));
                                lemma_entries_update(before, j as int, o@[j as int].1);
                            }
                            ok
                        },
                        None => false,
                    }
                },
                Kind::ArrayIndex(_) => false,
            },
            _ => false,
        }
    }

    /// Replaces the node at `path` with `new`; returns whether `path` named a
    /// node. Where it named none the tree is left as it was.
    pub fn replace_at(&mut self, path: &Path, new: Value) -> (ok: bool)
        ensures
            ok == resolve(old(self)@, path@) is Some,
            final(self)@ == update(old(self)@, path@, new@),
            well_formed(old(self)@) && well_formed(new@) ==> well_formed(final(self)@),
    {
        assert(path@.skip(0) =~= path@);
        proof {
            if well_formed(self@) && well_formed(new@) {
                crate::laws::lemma_update_valid(self@, path@, new@);
            }
        }
        self.replace_from(path, 0, new)
    }

    fn put_from(&mut self, path: &Path, i: usize, new: Value)
        requires
            i <= path@.len(),
            creatable(old(self)@, path@.skip(i as int)),
        ensures
            final(self)@ == put(old(self)@, path@.skip(i as int), new@),
        decreases path@.len() - i,
    {
        if i == path.len() {
            assert(path@.skip(i as int).len() == 0);
            *self = new;
            return;
        }
        proof {
            lemma_skip_step(path@, i as int);
        }
        if let Value::Null = self {
            if let Kind::ObjectKey(key) = path.get(i) {
                let mut inner = Value::Null;
                inner.put_from(path, i + 1, new);
                let mut entries: Vec<(String, Value)> = Vec::new();
                let k2 = key.clone();
                let ghost pair = (k2, inner);
                entries.push((k2, inner));
                proof {
                    lemma_entries_push(Seq::empty(), pair.0, pair.1);
                    assert(Seq::<(String, Value)>::empty().push(pair) =~= entries@);
                }
                *self = Value::Object(entries);
                proof {
                    assert(entries_view(Seq::<(String, Value)>::empty()) =~= Seq::empty());
                    assert(path@[i as int] == Step::Key(key@));
                    assert(entries_view(entries@) =~= seq![(key@, inner@)]);
                }
                return;
            }
        }
        match self {
            Value::Array(a) => match path.get(i) {
                Kind::ArrayIndex(j) => {
                    proof {
                        lemma_items_view(a@);
                    }
                    let ghost before = a@;
                    a[*j].put_from(path, i + 1, new);
                    proof {
                        assert(a@ == before.update(*j as int, a@[*j as int]));
                        lemma_items_update(before, *j as int, a@[*j as int]);
                    }
                },
                Kind::ObjectKey(_) => {},
            },
            Value::Object(o) => match path.get(i) {
                Kind::ObjectKey(key) => {
                    proof {
                        lemma_entries_view(o@);
                    }
                    match find_key(o, key) {
                        Some(j) => {
                            let ghost before = o@;
                            o[j].1.put_from(path, i + 1, new);
                            proof {
                                lemma_key_index(entries_view(before), key@);
                                assert(path@[i as int] == Step::Key(key@));
                                assert(o@ =~= before.update(j as int, (before[j as int].0, o@[j as int].1)));
                                lemma_entries_update(before, j as int, o@[j as int].1);
                            }
                        },
                        None => {
                            let mut inner = Value::Null;
                            inner.put_from(path, i + 1, new);
                            let ghost before = o@;
                            let k2 = key.clone();
                            let ghost pair = (k2, inner);
                            o.push((k2, inner));
                            proof {
                                lemma_entries_push(before, pair.0, pair.1);
                                assert(path@[i as int] == Step::Key(key@));
                            }
                        },
                    }
                },
                Kind::ArrayIndex(_) => {},
            },
            _ => {},
        }
    }

    /// Stores `new` at `path`, adding missing keys on the way; a null on the
    /// way becomes an object. The path must not step by key into a node that
    /// is neither null nor an object, nor by position into anything but an
    /// array within its length.
    pub fn set_by_path(&mut self, path: &Path, new: Value)
        requires
            creatable(old(self)@, path@),
        ensures
            final(self)@ == put(old(self)@, path@, new@),
            well_formed(old(self)@) && well_formed(new@) ==> well_formed(final(self)@),
    {
        assert(path@.skip(0) =~= path@);
        proof {
            if well_formed(self@) && well_formed(new@) {
                crate::laws::lemma_put_valid(self@, path@, new@);
            }
        }
        self.put_from(path, 0, new);
    }
}

impl Value {
    /// Whether the tree is valid: every object has unique keys, all the way
    /// down.
    pub fn is_well_formed(&self) -> (r: bool)
        ensures
            r == well_formed(self@),
        decreases self,
    {
        match self {
            Value::Array(a) => {
                proof {
                    lemma_items_view(a@);
                }
                let mut i: usize = 0;
                while i < a.len()
                    invariant
                        *self == Value::Array(*a),
                        i <= a@.len(),
                        items_view(a@).len() == a@.len(),
                        forall|j: int| 0 <= j < a@.len() ==> #[trigger] items_view(a@)[j] == a@[j]@,
                        forall|j: int| 0 <= j < i ==> well_formed(#[trigger] items_view(a@)[j]),
                    decreases a@.len() - i,
                {
                    proof {
                        assert(decreases_to!(*self => self->Array_0));
                        assert(decreases_to!(self->Array_0 => self->Array_0@));
                        assert(decreases_to!(self->Array_0@ => self->Array_0@[i as int]));
                    }
                    if !a[i].is_well_formed() {
                        assert(!well_formed(items_view(a@)[i as int]));
                        proof {
                            let n = self@;
                            assert(n == Node::Arr(items_view(a@)));
                            assert(decreases_to!(n => n->Arr_0[i as int])) by {
                                assert(decreases_to!(n => n->Arr_0));
                            }
                        }
                        return false;
                    }
                    i += 1;
                }
                true
            },
            Value::Object(o) => {
                let ghost e = entries_view(o@);
                proof {
                    lemma_entries_view(o@);
                }
                let mut i: usize = 0;
                while i < o.len()
                    invariant
                        *self == Value::Object(*o),
                        e == entries_view(o@),
                        i <= o@.len(),
                        e.len() == o@.len(),
                        forall|j: int| 0 <= j < o@.len() ==> #[trigger] e[j] == (o@[j].0@, o@[j].1@),
                        forall|j: int| 0 <= j < i ==> key_index(e, (#[trigger] e[j]).0) == j,
                        forall|j: int| 0 <= j < i ==> well_formed(#[trigger] e[j].1),
                    decreases o@.len() - i,
                {
                    proof {
                        assert(decreases_to!(*self => self->Object_0));
                        assert(decreases_to!(self->Object_0 => self->Object_0@));
                        assert(decreases_to!(self->Object_0@ => self->Object_0@[i as int]));
                        assert(decreases_to!(self->Object_0@[i as int] => self->Object_0@[i as int].1));
                    }
                    match find_key(o, &o[i].0) {
                        Some(j) => {
                            if j != i {
                                proof {
                                    lemma_key_index(e, e[i as int].0);
                                    assert(e[j as int].0 == e[i as int].0);
                                    assert(!unique_keys(e)) by {
                                        if j < i {
                                            assert(e[j as int].0 == e[i as int].0);
                                        }
                                    }
                                }
                                return false;
                            }
                        },
                        None => {
                            proof {
                                lemma_key_index(e, e[i as int].0);
                            }
                            return false;
                        },
                    }
                    if !o[i].1.is_well_formed() {
                        assert(!well_formed(e[i as int].1));
                        return false;
                    }
                    i += 1;
                }
                assert(unique_keys(e)) by {
                    assert forall|a: int, b: int| 0 <= a < b < e.len() implies e[a].0 != e[b].0 by {
                        if e[a].0 == e[b].0 {
                            assert(key_index(e, e[a].0) == a);
                            assert(key_index(e, e[b].0) == b);
                        }
                    }
                }
                true
            },
            _ => true,
        }
    }
}

} // verus!
