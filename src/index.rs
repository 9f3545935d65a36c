//! Typed indices and paths into a tree.
use std::cmp::Ordering;
use vstd::prelude::*;

verus! {

/// What one step of a path is, as a mathematical value.
pub enum Step {
    Key(Seq<char>),
    Pos(nat),
}

/// One step of a path: a key of an object or a position in an array.
#[derive(Debug, Clone, PartialEq, Eq, PartialOrd, Ord, Hash)]
pub enum Kind {
    ObjectKey(String),
    ArrayIndex(usize),
}

impl View for Kind {
    type V = Step;

    open spec fn view(&self) -> Step {
        match self {
            Kind::ObjectKey(s) => Step::Key(s@),
            Kind::ArrayIndex(i) => Step::Pos(*i as nat),
        }
    }
}

/// Lexicographic order of two byte strings, a proper prefix first.
pub open spec fn bytes_cmp(a: Seq<u8>, b: Seq<u8>) -> Ordering
    decreases a.len(),
{
    if a.len() == 0 {
        if b.len() == 0 {
            Ordering::Equal
        } else {
            Ordering::Less
        }
    } else if b.len() == 0 {
        Ordering::Greater
    } else if a[0] < b[0] {
        Ordering::Less
    } else if a[0] > b[0] {
        Ordering::Greater
    } else {
        bytes_cmp(a.drop_first(), b.drop_first())
    }
}

pub open spec fn int_cmp(a: int, b: int) -> Ordering {
    if a < b {
        Ordering::Less
    } else if a == b {
        Ordering::Equal
    } else {
        Ordering::Greater
    }
}

/// Keys order by their UTF-8 bytes, positions by value, and every key comes
/// before every position.
pub open spec fn step_cmp(a: Step, b: Step) -> Ordering {
    match (a, b) {
        (Step::Key(x), Step::Key(y)) => bytes_cmp(
            vstd::utf8::encode_utf8(x),
            vstd::utf8::encode_utf8(y),
        ),
        (Step::Key(_), Step::Pos(_)) => Ordering::Less,
        (Step::Pos(_), Step::Key(_)) => Ordering::Greater,
        (Step::Pos(i), Step::Pos(j)) => int_cmp(i as int, j as int),
    }
}

/// Paths order step by step; a proper prefix comes first.
pub open spec fn path_cmp(a: Seq<Step>, b: Seq<Step>) -> Ordering
    decreases a.len(),
{
    if a.len() == 0 {
        if b.len() == 0 {
            Ordering::Equal
        } else {
            Ordering::Less
        }
    } else if b.len() == 0 {
        Ordering::Greater
    } else if step_cmp(a[0], b[0]) != Ordering::Equal {
        step_cmp(a[0], b[0])
    } else {
        path_cmp(a.drop_first(), b.drop_first())
    }
}

proof fn lemma_bytes_cmp_skip(a: Seq<u8>, b: Seq<u8>, i: int)
    requires
        0 <= i < a.len(),
        i < b.len(),
        a[i] == b[i],
    ensures
        bytes_cmp(a.skip(i), b.skip(i)) == bytes_cmp(a.skip(i + 1), b.skip(i + 1)),
{
    assert(a.skip(i).drop_first() =~= a.skip(i + 1));
    assert(b.skip(i).drop_first() =~= b.skip(i + 1));
}

/// Compares two byte strings lexicographically.
pub fn compare_bytes(a: &[u8], b: &[u8]) -> (r: Ordering)
    ensures
        r == bytes_cmp(a@, b@),
{
    let mut i: usize = 0;
    assert(a@.skip(0) =~= a@);
    assert(b@.skip(0) =~= b@);
    while i < a.len() && i < b.len()
        invariant
            i <= a@.len(),
            i <= b@.len(),
            bytes_cmp(a@, b@) == bytes_cmp(a@.skip(i as int), b@.skip(i as int)),
        decreases a@.len() - i,
    {
        if a[i] < b[i] {
            return Ordering::Less;
        } else if a[i] > b[i] {
            return Ordering::Greater;
        }
        proof {
            lemma_bytes_cmp_skip(a@, b@, i as int);
        }
        i += 1;
    }
    if i < a.len() {
        Ordering::Greater
    } else if i < b.len() {
        Ordering::Less
    } else {
        Ordering::Equal
    }
}

/// Compares two strings by their UTF-8 bytes, as `str`'s own order does.
pub fn compare_keys(a: &String, b: &String) -> (r: Ordering)
    ensures
        r == bytes_cmp(vstd::utf8::encode_utf8(a@), vstd::utf8::encode_utf8(b@)),
{
    compare_bytes(a.as_str().as_bytes(), b.as_str().as_bytes())
}


/// The decimal digits of a natural number.
pub open spec fn decimal(n: nat) -> Seq<char>
    decreases n,
{
    if n < 10 {
        seq![digit_char(n)]
    } else {
        decimal(n / 10) + seq![digit_char(n % 10)]
    }
}

pub open spec fn digit_char(d: nat) -> char {
    if d == 0 { '0' }
    else if d == 1 { '1' }
    else if d == 2 { '2' }
    else if d == 3 { '3' }
    else if d == 4 { '4' }
    else if d == 5 { '5' }
    else if d == 6 { '6' }
    else if d == 7 { '7' }
    else if d == 8 { '8' }
    else { '9' }
}

/// The text of one step: a key as itself, a position in decimal.
pub open spec fn step_text(s: Step) -> Seq<char> {
    match s {
        Step::Key(k) => k,
        Step::Pos(i) => decimal(i),
    }
}

fn digit_str(d: usize) -> (r: &'static str)
    requires
        d < 10,
    ensures
        r@ == seq![digit_char(d as nat)],
{
    proof {
        reveal_strlit("0");
        reveal_strlit("1");
        reveal_strlit("2");
        reveal_strlit("3");
        reveal_strlit("4");
        reveal_strlit("5");
        reveal_strlit("6");
        reveal_strlit("7");
        reveal_strlit("8");
        reveal_strlit("9");
    }
    if d == 0 { "0" }
    else if d == 1 { "1" }
    else if d == 2 { "2" }
    else if d == 3 { "3" }
    else if d == 4 { "4" }
    else if d == 5 { "5" }
    else if d == 6 { "6" }
    else if d == 7 { "7" }
    else if d == 8 { "8" }
    else { "9" }
}

/// Appends the decimal digits of `n` to `out`.
pub fn push_decimal(out: &mut String, n: usize)
    ensures
        final(out)@ == old(out)@ + decimal(n as nat),
    decreases n,
{
    if n < 10 {
        out.append(digit_str(n));
    } else {
        push_decimal(out, n / 10);
        out.append(digit_str(n % 10));
        proof {
            assert(final(out)@ =~= old(out)@ + decimal(n as nat));
        }
    }
}

impl Kind {
    /// An index that names a key of an object.
    pub fn key(k: &str) -> (r: Kind)
        ensures
            r@ == Step::Key(k@),
    {
        Kind::ObjectKey(k.to_owned())
    }

    /// An index that names a position in an array.
    pub fn position(i: usize) -> (r: Kind)
        ensures
            r@ == Step::Pos(i as nat),
    {
        Kind::ArrayIndex(i)
    }

    /// An exact copy.
    pub fn duplicate(&self) -> (r: Kind)
        ensures
            r@ == self@,
    {
        match self {
            Kind::ObjectKey(s) => Kind::ObjectKey(s.clone()),
            Kind::ArrayIndex(i) => Kind::ArrayIndex(*i),
        }
    }

    /// Two indices are equal when they are of one kind and hold the same key
    /// or position.
    pub fn same(&self, other: &Kind) -> (r: bool)
        ensures
            r == (self@ == other@),
    {
        match (self, other) {
            (Kind::ObjectKey(a), Kind::ObjectKey(b)) => *a == *b,
            (Kind::ArrayIndex(a), Kind::ArrayIndex(b)) => *a == *b,
            _ => false,
        }
    }

    /// Total order: keys by their bytes, positions by value, keys first.
    pub fn compare(&self, other: &Kind) -> (r: Ordering)
        ensures
            r == step_cmp(self@, other@),
    {
        match (self, other) {
            (Kind::ObjectKey(a), Kind::ObjectKey(b)) => compare_keys(a, b),
            (Kind::ObjectKey(_), Kind::ArrayIndex(_)) => Ordering::Less,
            (Kind::ArrayIndex(_), Kind::ObjectKey(_)) => Ordering::Greater,
            (Kind::ArrayIndex(a), Kind::ArrayIndex(b)) => {
                if *a < *b {
                    Ordering::Less
                } else if *a == *b {
                    Ordering::Equal
                } else {
                    Ordering::Greater
                }
            },
        }
    }

    pub fn try_as_object_key(&self) -> (r: Option<&String>)
        ensures
            match self@ {
                Step::Key(k) => r is Some && r->0@ == k,
                Step::Pos(_) => r is None,
            },
    {
        match self {
            Kind::ObjectKey(k) => Some(k),
            Kind::ArrayIndex(_) => None,
        }
    }

    pub fn try_as_array_index(&self) -> (r: Option<usize>)
        ensures
            match self@ {
                Step::Pos(i) => r == Some(i as usize),
                Step::Key(_) => r is None,
            },
    {
        match self {
            Kind::ObjectKey(_) => None,
            Kind::ArrayIndex(i) => Some(*i),
        }
    }

    pub fn is_object_key(&self) -> (r: bool)
        ensures
            r == (self@ is Key),
    {
        match self {
            Kind::ObjectKey(_) => true,
            Kind::ArrayIndex(_) => false,
        }
    }

    pub fn is_array_index(&self) -> (r: bool)
        ensures
            r == (self@ is Pos),
    {
        match self {
            Kind::ObjectKey(_) => false,
            Kind::ArrayIndex(_) => true,
        }
    }

    /// The text of the index: a key as itself, a position in decimal.
    pub fn to_string(&self) -> (r: String)
        ensures
            r@ == step_text(self@),
    {
        match self {
            Kind::ObjectKey(k) => k.clone(),
            Kind::ArrayIndex(i) => {
                let mut out = String::new();
                push_decimal(&mut out, *i);
                out
            },
        }
    }
}

/// A value that can stand as one step of a path.
pub trait JsonIndex {
    spec fn spec_kind(&self) -> Step;

    fn kind(&self) -> (r: Kind)
        ensures
            r@ == self.spec_kind(),
    ;
}

impl JsonIndex for Kind {
    open spec fn spec_kind(&self) -> Step {
        self@
    }

    fn kind(&self) -> (r: Kind) {
        self.duplicate()
    }
}

impl JsonIndex for String {
    open spec fn spec_kind(&self) -> Step {
        Step::Key(self@)
    }

    fn kind(&self) -> (r: Kind) {
        Kind::ObjectKey(self.clone())
    }
}

impl<'a> JsonIndex for &'a str {
    open spec fn spec_kind(&self) -> Step {
        Step::Key((*self)@)
    }

    fn kind(&self) -> (r: Kind) {
        Kind::key(*self)
    }
}

impl JsonIndex for usize {
    open spec fn spec_kind(&self) -> Step {
        Step::Pos(*self as nat)
    }

    fn kind(&self) -> (r: Kind) {
        Kind::ArrayIndex(*self)
    }
}


/// The text of a path: `/` for the root, else each step after a `/`.
pub open spec fn path_text(p: Seq<Step>) -> Seq<char> {
    if p.len() == 0 {
        seq!['/']
    } else {
        steps_text(p)
    }
}

pub open spec fn steps_text(p: Seq<Step>) -> Seq<char>
    decreases p.len(),
{
    if p.len() == 0 {
        Seq::empty()
    } else {
        steps_text(p.drop_last()) + seq!['/'] + step_text(p.last())
    }
}

/// A location in a tree: the steps from the root, in order.
#[derive(Debug, Clone, PartialEq, Eq, PartialOrd, Ord, Hash, Default)]
pub struct Path {
    pub indices: Vec<Kind>,
}

impl View for Path {
    type V = Seq<Step>;

    open spec fn view(&self) -> Seq<Step> {
        self.indices@.map_values(|k: Kind| k@)
    }
}

impl Path {
    /// The path of the root.
    pub fn empty() -> (r: Path)
        ensures
            r@ == Seq::<Step>::empty(),
    {
        let r = Path { indices: Vec::new() };
        assert(r@ =~= Seq::<Step>::empty());
        r
    }

    /// A path of one step.
    pub fn new<I: JsonIndex>(index: I) -> (r: Path)
        ensures
            r@ == seq![index.spec_kind()],
    {
        let mut r = Path::empty();
        r.add(index);
        assert(r@ =~= seq![index.spec_kind()]);
        r
    }

    /// A path made of the given steps.
    pub fn from_indices(indices: Vec<Kind>) -> (r: Path)
        ensures
            r@ == indices@.map_values(|k: Kind| k@),
    {
        Path { indices }
    }

    /// The steps of the path.
    pub fn iter(&self) -> (r: &Vec<Kind>)
        ensures
            r@.map_values(|k: Kind| k@) == self@,
    {
        &self.indices
    }

    /// Appends one step.
    pub fn add<I: JsonIndex>(&mut self, index: I)
        ensures
            final(self)@ == old(self)@.push(index.spec_kind()),
    {
        let k = index.kind();
        self.indices.push(k);
        assert(final(self)@ =~= old(self)@.push(index.spec_kind()));
    }

    /// Appends one step given as a `Kind`.
    pub fn push(&mut self, index: Kind)
        ensures
            final(self)@ == old(self)@.push(index@),
    {
        self.indices.push(index);
        assert(final(self)@ =~= old(self)@.push(index@));
    }

    /// This path followed by the steps of `other`.
    pub fn join(self, other: &Path) -> (r: Path)
        ensures
            r@ == self@ + other@,
    {
        let mut r = self;
        let mut i: usize = 0;
        while i < other.indices.len()
            invariant
                i <= other@.len(),
                r@ == self@ + other@.take(i as int),
            decreases other@.len() - i,
        {
            r.push(other.indices[i].duplicate());
            assert(other@.take(i as int + 1) =~= other@.take(i as int).push(other@[i as int]));
            i += 1;
        }
        assert(other@.take(i as int) =~= other@);
        r
    }

    /// The number of steps.
    pub fn depth(&self) -> (r: usize)
        ensures
            r == self@.len(),
    {
        self.indices.len()
    }

    /// The number of steps.
    pub fn len(&self) -> (r: usize)
        ensures
            r == self@.len(),
    {
        self.indices.len()
    }

    /// The step at `i`.
    pub fn get(&self, i: usize) -> (r: &Kind)
        requires
            i < self@.len(),
        ensures
            r@ == self@[i as int],
    {
        &self.indices[i]
    }

    /// The first `n` steps.
    pub fn prefix(&self, n: usize) -> (r: Path)
        requires
            n <= self@.len(),
        ensures
            r@ == self@.take(n as int),
    {
        let mut r = Path::empty();
        let mut i: usize = 0;
        while i < n
            invariant
                i <= n,
                n <= self@.len(),
                r@ == self@.take(i as int),
            decreases n - i,
        {
            r.push(self.indices[i].duplicate());
            assert(self@.take(i as int + 1) =~= self@.take(i as int).push(self@[i as int]));
            i += 1;
        }
        r
    }

    /// An exact copy.
    pub fn duplicate(&self) -> (r: Path)
        ensures
            r@ == self@,
    {
        let r = self.prefix(self.indices.len());
        assert(self@.take(self@.len() as int) =~= self@);
        r
    }

    /// Whether the last step is a key; false for the root.
    pub fn is_object_key(&self) -> (r: bool)
        ensures
            r == (self@.len() > 0 && self@.last() is Key),
    {
        if self.indices.len() == 0 {
            false
        } else {
            self.indices[self.indices.len() - 1].is_object_key()
        }
    }

    /// Whether the last step is a position; false for the root.
    pub fn is_array_key(&self) -> (r: bool)
        ensures
            r == (self@.len() > 0 && self@.last() is Pos),
    {
        if self.indices.len() == 0 {
            false
        } else {
            self.indices[self.indices.len() - 1].is_array_index()
        }
    }

    /// Two paths are equal when they have the same steps in the same order.
    pub fn same(&self, other: &Path) -> (r: bool)
        ensures
            r == (self@ == other@),
    {
        if self.indices.len() != other.indices.len() {
            assert(self@.len() != other@.len());
            return false;
        }
        let mut i: usize = 0;
        while i < self.indices.len()
            invariant
                i <= self@.len(),
                self@.len() == other@.len(),
                self@.take(i as int) == other@.take(i as int),
            decreases self@.len() - i,
        {
            if !self.indices[i].same(&other.indices[i]) {
                assert(self@[i as int] != other@[i as int]);
                return false;
            }
            assert(self@.take(i as int + 1) =~= self@.take(i as int).push(self@[i as int]));
            assert(other@.take(i as int + 1) =~= other@.take(i as int).push(other@[i as int]));
            i += 1;
        }
        assert(self@.take(i as int) =~= self@);
        assert(other@.take(i as int) =~= other@);
        true
    }

    /// Orders paths step by step; a proper prefix comes first.
    pub fn compare(&self, other: &Path) -> (r: Ordering)
        ensures
            r == path_cmp(self@, other@),
    {
        let mut i: usize = 0;
        assert(self@.skip(0) =~= self@);
        assert(other@.skip(0) =~= other@);
        while i < self.indices.len() && i < other.indices.len()
            invariant
                i <= self@.len(),
                i <= other@.len(),
                path_cmp(self@, other@) == path_cmp(self@.skip(i as int), other@.skip(i as int)),
            decreases self@.len() - i,
        {
            let c = self.indices[i].compare(&other.indices[i]);
            match c {
                Ordering::Equal => {},
                _ => {
                    return c;
                },
            }
            assert(self@.skip(i as int).drop_first() =~= self@.skip(i as int + 1));
            assert(other@.skip(i as int).drop_first() =~= other@.skip(i as int + 1));
            i += 1;
        }
        if i < self.indices.len() {
            Ordering::Greater
        } else if i < other.indices.len() {
            Ordering::Less
        } else {
            Ordering::Equal
        }
    }

    /// The text of the path: `/` for the root, else each step after a `/`.
    pub fn to_string(&self) -> (r: String)
        ensures
            r@ == path_text(self@),
    {
        proof {
            reveal_strlit("/");
        }
        if self.indices.len() == 0 {
            return String::from_str("/");
        }
        let mut out = String::new();
        let mut i: usize = 0;
        while i < self.indices.len()
            invariant
                i <= self@.len(),
                out@ == steps_text(self@.take(i as int)),
            decreases self@.len() - i,
        {
            let ghost before = out@;
            proof {
                reveal_strlit("/");
            }
            out.append("/");
            let t = self.indices[i].to_string();
            out.append(t.as_str());
            proof {
                let next = self@.take(i as int + 1);
                assert(next.drop_last() =~= self@.take(i as int));
                assert(next.last() == self@[i as int]);
                assert(self@[i as int] == self.indices@[i as int]@);
                assert(out@ =~= before + seq!['/'] + step_text(self@[i as int]));
            }
            i += 1;
        }
        assert(self@.take(i as int) =~= self@);
        out
    }
}

} // verus!
