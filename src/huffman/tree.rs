//! Huffman tree nodes, code tables, and the tree that ties them together:
//! encoding, decoding, persistence, and the laws they obey.
use vstd::prelude::*;
use crate::huffman::builder::{create_huffman, greedy, table_forest};
use crate::huffman::frequency::{
    create_frequency_table, distinct_keys, in_first_occurrence_order, is_frequency_table, key_set,
    sum, counts, views,
};
use crate::huffman::shape::{
    Shape, decode_path, is_prefix, lemma_decode_prefix, lemma_prefix_slice, lemma_records_unique,
    distinct_leaves, leaves, record_views, records, unweighted, walk, Weighted,
};
use crate::huffman::symbol::Symbol;

verus! {

/// The failures of building, encoding, decoding and restoring a tree.
#[derive(Debug, Clone, Copy, PartialEq, Eq, Structural)]
pub enum HuffmanError {
    /// No symbols were given, so no tree can be built.
    EmptyInputError,
    /// The symbol never appeared in the data the tree was built from.
    UnknownSymbolError,
    /// The path asked for a child of a leaf.
    DeadEndError,
    /// The path ended on a branch.
    IncompletePathError,
    /// The records do not describe exactly one tree.
    MalformedTreeError,
}

/// A node of a Huffman tree: a leaf holds a symbol, a branch holds two
/// children and the sum of their frequencies.
#[derive(Debug)]
pub struct Node<V> {
    pub freq: usize,
    pub value: Option<V>,
    pub left: Option<Box<Node<V>>>,
    pub right: Option<Box<Node<V>>>,
}

impl<V: Symbol> Node<V> {
    /// Exactly a leaf (a symbol, no children) or a branch (no symbol, two
    /// well-formed children whose frequencies add up to its own).
    pub open spec fn wf(&self) -> bool
        decreases self,
    {
        match self.value {
            Some(_) => self.left.is_none() && self.right.is_none(),
            None => match self.left {
                Some(l) => match self.right {
                    Some(r) => l.wf() && r.wf() && self.freq == l.freq + r.freq,
                    None => false,
                },
                None => false,
            },
        }
    }

    /// The shape of a well-formed node.
    pub open spec fn shape(&self) -> Shape<V::V>
        decreases self,
    {
        match self.value {
            Some(v) => Shape::Leaf(v@),
            None => match self.left {
                Some(l) => match self.right {
                    Some(r) => Shape::Fork(Box::new(l.shape()), Box::new(r.shape())),
                    None => Shape::Leaf(arbitrary()),
                },
                None => Shape::Leaf(arbitrary()),
            },
        }
    }

    /// The shape of a well-formed node with the frequency of each node.
    pub open spec fn weighted(&self) -> Weighted<V::V>
        decreases self,
    {
        match self.value {
            Some(v) => Weighted::Leaf(self.freq as int, v@),
            None => match self.left {
                Some(l) => match self.right {
                    Some(r) => Weighted::Fork(
                        self.freq as int,
                        Box::new(l.weighted()),
                        Box::new(r.weighted()),
                    ),
                    None => Weighted::Leaf(self.freq as int, arbitrary()),
                },
                None => Weighted::Leaf(self.freq as int, arbitrary()),
            },
        }
    }

    /// The weighted shape forgets to the shape.
    pub proof fn lemma_unweighted(&self)
        ensures
            unweighted(self.weighted()) == self.shape(),
        decreases self,
    {
        match self.value {
            Some(_) => {},
            None => match self.left {
                Some(l) => match self.right {
                    Some(r) => {
                        l.lemma_unweighted();
                        r.lemma_unweighted();
                    },
                    None => {},
                },
                None => {},
            },
        }
    }

    /// A node with no children.
    pub fn new(freq: usize, value: Option<V>) -> (r: Self)
        ensures
            r.freq == freq,
            r.value == value,
            r.left.is_none(),
            r.right.is_none(),
    {
        Node { freq, value, left: None, right: None }
    }

    /// A boxed node with no children.
    pub fn new_branch(freq: usize, value: Option<V>) -> (r: Box<Self>)
        ensures
            r.freq == freq,
            r.value == value,
            r.left.is_none(),
            r.right.is_none(),
    {
        Box::new(Self::new(freq, value))
    }

    /// The branch over `left` and `right`, whose frequency is the sum of
    /// theirs.
    pub fn merge(left: Box<Self>, right: Box<Self>) -> (r: Box<Self>)
        requires
            left.wf(),
            right.wf(),
            left.freq + right.freq <= usize::MAX,
        ensures
            *r == (Node {
                freq: (left.freq + right.freq) as usize,
                value: None,
                left: Some(left),
                right: Some(right),
            }),
            r.wf(),
            r.freq == left.freq + right.freq,
            r.value.is_none(),
            r.shape() == Shape::Fork(Box::new(left.shape()), Box::new(right.shape())),
    {
        let freq = left.freq + right.freq;
        Box::new(Self::new(freq, None).with_right(right).with_left(left))
    }

    /// The node with `left` as its left child.
    pub fn with_left(self, left: Box<Self>) -> (r: Self)
        ensures
            r == (Node { left: Some(left), ..self }),
    {
        let mut s = self;
        s.left = Some(left);
        s
    }

    /// The node with `right` as its right child.
    pub fn with_right(self, right: Box<Self>) -> (r: Self)
        ensures
            r == (Node { right: Some(right), ..self }),
    {
        let mut s = self;
        s.right = Some(right);
        s
    }
}

/// A copy of `path`.
pub fn copy_path(path: &Vec<bool>) -> (r: Vec<bool>)
    ensures
        r@ == path@,
{
    let mut r: Vec<bool> = Vec::new();
    let mut k: usize = 0;
    while k < path.len()
        invariant
            k <= path.len(),
            r@ == path@.subrange(0, k as int),
        decreases path.len() - k,
    {
        r.push(path[k]);
        k = k + 1;
    }
    assert(path@.subrange(0, path@.len() as int) == path@);
    r
}

/// The path `path` followed by the step `b`.
fn extend_path(path: &Vec<bool>, b: bool) -> (r: Vec<bool>)
    ensures
        r@ == path@.push(b),
{
    let mut r = copy_path(path);
    r.push(b);
    r
}

/// The position of the entry of `x` in a table, if there is one.
fn find_entry<V: Symbol, T>(table: &Vec<(V, T)>, x: &V) -> (r: Option<usize>)
    ensures
        r matches Some(k) ==> k < table@.len() && table@[k as int].0@ == x@,
        r.is_none() <==> !key_set(table@).contains(x@),
{
    let mut k: usize = 0;
    while k < table.len()
        invariant
            k <= table.len(),
            forall|t: int| 0 <= t < k ==> table@[t].0@ != x@,
        decreases table.len() - k,
    {
        if table[k].0.same(x) {
            return Some(k);
        }
        k = k + 1;
    }
    assert(!key_set(table@).contains(x@)) by {
        if key_set(table@).contains(x@) {
            let t = choose|t: int| 0 <= t < table@.len() && table@[t].0@ == x@;
            assert(table@[t].0@ != x@);
        }
    }
    None
}

/// The entries of `after` past the first `n` are codes that extend `path`
/// into a walk from `sh` to their own symbol.
pub open spec fn codes_below<V: View>(
    after: Seq<(V, Vec<bool>)>,
    n: int,
    sh: Shape<V::V>,
    path: Seq<bool>,
) -> bool {
    forall|k: int|
        n <= k < after.len() ==> {
            &&& path.len() <= after[k].1@.len()
            &&& after[k].1@.subrange(0, path.len() as int) == path
            &&& walk(sh, after[k].1@.skip(path.len() as int)) == Ok::<V::V, HuffmanError>(after[k].0@)
        }
}

/// Adds to `table` the code of each leaf below `node` whose symbol has none
/// yet: `path` leads to `node`, `false` steps left and `true` right.
fn generate_codes<V: Symbol>(node: &Node<V>, table: &mut Vec<(V, Vec<bool>)>, path: &Vec<bool>)
    requires
        node.wf(),
        distinct_keys(old(table)@),
    ensures
        distinct_keys(final(table)@),
        old(table)@.len() <= final(table)@.len(),
        forall|k: int| 0 <= k < old(table)@.len() ==> final(table)@[k] == old(table)@[k],
        key_set(final(table)@) == key_set(old(table)@).union(leaves(node.shape())),
        codes_below(final(table)@, old(table)@.len() as int, node.shape(), path@),
    decreases node,
{
    let ghost t0 = table@;
    match &node.value {
        Some(v) => {
            match find_entry(table, v) {
                Some(_) => {
                    assert(key_set(t0) =~= key_set(t0).union(leaves(node.shape())));
                },
                None => {
                    let code = copy_path(path);
                    table.push((v.duplicate(), code));
                    proof {
                        assert(path@.subrange(0, path@.len() as int) == path@);
                        let e = table@[t0.len() as int];
                        assert(e.1@.skip(path@.len() as int).len() == 0);
                        assert forall|a: V::V| key_set(table@).contains(a) <==> key_set(t0).union(
                            leaves(node.shape()),
                        ).contains(a) by {
                            if key_set(table@).contains(a) {
                                let t = choose|t: int| 0 <= t < table@.len() && table@[t].0@ == a;
                                if t < t0.len() {
                                    assert(t0[t] == table@[t]);
                                }
                            }
                            if key_set(t0).contains(a) {
                                let t = choose|t: int| 0 <= t < t0.len() && t0[t].0@ == a;
                                assert(t0[t] == table@[t]);
                            }
                            if a == v@ {
                                assert(table@[t0.len() as int].0@ == a);
                            }
                        }
                        assert(key_set(table@) =~= key_set(t0).union(leaves(node.shape())));
                    }
                },
            }
        },
        None => {
            match (&node.left, &node.right) {
                (Some(l), Some(r)) => {
                    let lp = extend_path(path, false);
                    let rp = extend_path(path, true);
                    generate_codes(l, table, &lp);
                    let ghost t1 = table@;
                    generate_codes(r, table, &rp);
                    proof {
                        let sh = node.shape();
                        let n = path@.len() as int;
                        assert forall|k: int| t0.len() <= k < table@.len() implies {
                            &&& path@.len() <= table@[k].1@.len()
                            &&& table@[k].1@.subrange(0, n) == path@
                            &&& walk(sh, table@[k].1@.skip(n)) == Ok::<V::V, HuffmanError>(table@[k].0@)
                        } by {
                            let c = table@[k].1@;
                            let p = if k < t1.len() { lp@ } else { rp@ };
                            if k < t1.len() {
                                assert(table@[k] == t1[k]);
                            }
                            assert(c.subrange(0, n + 1) == p);
                            assert(c.subrange(0, n) == p.subrange(0, n));
                            assert(p.subrange(0, n) == path@);
                            assert(c.skip(n).drop_first() == c.skip(n + 1));
                            assert(c.skip(n)[0] == p[n]);
                        }
                    }
                },
                _ => {},
            }
        },
    }
}

/// The code table of a tree: one entry for each leaf symbol, with the path
/// that decodes to it.
fn codes_of_root<V: Symbol>(root: &Node<V>) -> (r: Vec<(V, Vec<bool>)>)
    requires
        root.wf(),
    ensures
        table_ok(r@, root.shape()),
{
    let mut table: Vec<(V, Vec<bool>)> = Vec::new();
    let start: Vec<bool> = if root.value.is_some() {
        vec![false]
    } else {
        Vec::new()
    };
    let ghost t0 = table@;
    assert(key_set(t0) =~= Set::empty());
    generate_codes(root, &mut table, &start);
    proof {
        let sh = root.shape();
        assert(key_set(table@) =~= leaves(sh));
        assert forall|k: int| 0 <= k < table@.len() implies decode_path(sh, table@[k].1@)
            == Ok::<V::V, HuffmanError>(table@[k].0@) by {
            let c = table@[k].1@;
            if root.value.is_some() {
                assert(c.subrange(0, 1) == start@);
                assert(c[0] == false);
                assert(c.skip(1) == c.drop_first());
            } else {
                assert(c.skip(0) == c);
            }
        }
    }
    table
}

/// A code table fits the tree shape `sh`: its keys are distinct, they are
/// exactly the leaf symbols of `sh`, and each code decodes to its key.
pub open spec fn table_ok<V: View>(t: Seq<(V, Vec<bool>)>, sh: Shape<V::V>) -> bool {
    &&& distinct_keys(t)
    &&& key_set(t) == leaves(sh)
    &&& forall|k: int|
        0 <= k < t.len() ==> decode_path(sh, #[trigger] t[k].1@) == Ok::<V::V, HuffmanError>(t[k].0@)
}

/// A Huffman tree together with the code table derived from it.
pub struct HuffmanTree<V> {
    root: Box<Node<V>>,
    encodings: Vec<(V, Vec<bool>)>,
}

impl<V: Symbol> HuffmanTree<V> {
    /// The root is well formed and the code table fits it.
    pub closed spec fn wf(&self) -> bool {
        self.root.wf() && table_ok(self.encodings@, self.root.shape())
    }

    /// The shape of the tree.
    pub closed spec fn shape(&self) -> Shape<V::V> {
        self.root.shape()
    }

    /// The code table: symbols and their paths.
    pub closed spec fn table(&self) -> Seq<(V::V, Seq<bool>)> {
        self.encodings@.map_values(|e: (V, Vec<bool>)| (e.0@, e.1@))
    }

    /// The symbols that the tree can code.
    pub open spec fn alphabet(&self) -> Set<V::V> {
        leaves(self.shape())
    }

    /// The code of `s` in the table, if it has one.
    pub open spec fn code_of(&self, s: V::V) -> Option<Seq<bool>> {
        if exists|k: int| 0 <= k < self.table().len() && self.table()[k].0 == s {
            Some(self.table()[choose|k: int| 0 <= k < self.table().len() && self.table()[k].0 == s].1)
        } else {
            None
        }
    }

    /// What decoding `path` against this tree gives.
    pub open spec fn decode(&self, path: Seq<bool>) -> Result<V::V, HuffmanError> {
        decode_path(self.shape(), path)
    }

    proof fn lemma_entry_is_code(&self, k: int)
        requires
            self.wf(),
            0 <= k < self.encodings@.len(),
        ensures
            self.code_of(self.encodings@[k].0@) == Some(self.encodings@[k].1@),
    {
        let s = self.encodings@[k].0@;
        assert(self.table()[k].0 == s);
        let c = choose|c: int| 0 <= c < self.table().len() && self.table()[c].0 == s;
        assert(self.encodings@[c].0@ == s);
    }

    /// Builds the tree of `from`: counts the symbols, merges greedily and
    /// derives the code table. Fails exactly when `from` is empty.
    pub fn from_data(from: &[V]) -> (r: Result<Self, HuffmanError>)
        ensures
            from@.len() == 0 <==> r is Err,
            r matches Err(e) ==> e == HuffmanError::EmptyInputError,
            r matches Ok(t) ==> {
                &&& t.wf()
                &&& t.alphabet() == views(from@).to_set()
                &&& distinct_leaves(t.shape())
                &&& exists|ft: Seq<(V, usize)>| #[trigger] is_frequency_table(ft, views(from@))
                    && in_first_occurrence_order(ft, views(from@))
                    && unweighted(greedy(table_forest(ft), (ft.len() - 1) as nat)[0]) == t.shape()
            },
    {
        let freq = match create_frequency_table(from) {
            Ok(freq) => freq,
            Err(e) => {
                return Err(e);
            },
        };
        let len = from.len();
        assert(sum(counts(freq@)) == len);
        match create_huffman(freq.as_slice()) {
            None => {
                proof {
                    if from@.len() > 0 {
                        assert(views(from@).to_set().contains(from@[0]@)) by {
                            assert(views(from@)[0] == from@[0]@);
                        }
                        assert(key_set(freq@).contains(from@[0]@));
                    }
                }
                Err(HuffmanError::EmptyInputError)
            },
            Some(root) => {
                proof {
                    if from@.len() == 0 {
                        assert(key_set(freq@).contains(freq@[0].0@));
                        assert(views(from@).len() == 0);
                    }
                }
                let encodings = codes_of_root(&root);
                let t = HuffmanTree { root, encodings };
                assert(is_frequency_table(freq@, views(from@)));
                proof {
                    t.root.lemma_unweighted();
                }
                assert(unweighted(greedy(table_forest(freq@), (freq@.len() - 1) as nat)[0]) == t.shape());
                Ok(t)
            },
        }
    }

    /// The code of `to`, if `to` is in the alphabet.
    pub fn encodings_to(&self, to: &V) -> (r: Option<&Vec<bool>>)
        requires
            self.wf(),
        ensures
            r is Some <==> self.alphabet().contains(to@),
            r matches Some(c) ==> self.code_of(to@) == Some(c@),
    {
        match find_entry(&self.encodings, to) {
            Some(k) => {
                proof {
                    self.lemma_entry_is_code(k as int);
                }
                Some(&self.encodings[k].1)
            },
            None => None,
        }
    }

    /// The code of `symbol`, or an error when it is not in the alphabet.
    pub fn encode(&self, symbol: &V) -> (r: Result<Vec<bool>, HuffmanError>)
        requires
            self.wf(),
        ensures
            r is Ok <==> self.alphabet().contains(symbol@),
            r matches Ok(c) ==> self.code_of(symbol@) == Some(c@),
            r matches Err(e) ==> e == HuffmanError::UnknownSymbolError,
    {
        match self.encodings_to(symbol) {
            Some(c) => Ok(copy_path(c)),
            None => Err(HuffmanError::UnknownSymbolError),
        }
    }

    /// Decodes `directions` by walking from the root: `false` goes left,
    /// `true` goes right, and the walk must end on a leaf.
    pub fn get_to(&self, directions: Vec<bool>) -> (r: Result<V, HuffmanError>)
        requires
            self.wf(),
        ensures
            match r {
                Ok(v) => self.decode(directions@) == Ok::<V::V, HuffmanError>(v@),
                Err(e) => self.decode(directions@) == Err::<V::V, HuffmanError>(e),
            },
    {
        let n = directions.len();
        let mut cur: &Node<V> = &self.root;
        let mut i: usize = 0;
        let ghost sh = self.root.shape();
        if cur.value.is_some() {
            if n == 0 {
                return Err(HuffmanError::IncompletePathError);
            }
            if directions[0] {
                return Err(HuffmanError::DeadEndError);
            }
            i = 1;
            assert(directions@.skip(1) == directions@.drop_first());
        } else {
            assert(directions@.skip(0) == directions@);
        }
        while i < n
            invariant
                n == directions@.len(),
                i <= n,
                cur.wf(),
                walk(cur.shape(), directions@.skip(i as int)) == decode_path(sh, directions@),
                sh == self.shape(),
            decreases n - i,
        {
            let ghost p = directions@.skip(i as int);
            assert(p.drop_first() == directions@.skip(i as int + 1));
            if cur.value.is_some() {
                return Err(HuffmanError::DeadEndError);
            }
            let next: &Node<V> = if directions[i] {
                match &cur.right {
                    Some(b) => b,
                    None => {
                        return Err(HuffmanError::DeadEndError);
                    },
                }
            } else {
                match &cur.left {
                    Some(b) => b,
                    None => {
                        return Err(HuffmanError::DeadEndError);
                    },
                }
            };
            cur = next;
            i = i + 1;
        }
        assert(directions@.skip(i as int).len() == 0);
        match &cur.value {
            Some(v) => Ok(v.duplicate()),
            None => Err(HuffmanError::IncompletePathError),
        }
    }
}

impl<V: Symbol> HuffmanTree<V> {
    proof fn lemma_code_decodes(&self, s: V::V)
        requires
            self.wf(),
            self.code_of(s) is Some,
        ensures
            self.decode(self.code_of(s)->0) == Ok::<V::V, HuffmanError>(s),
    {
        let k = choose|k: int| 0 <= k < self.table().len() && self.table()[k].0 == s;
        assert(self.encodings@[k].0@ == s);
        assert(self.table()[k].1 == self.encodings@[k].1@);
    }

    /// Round trip: every symbol of the alphabet has a code, and decoding
    /// that code gives the symbol back.
    pub proof fn lemma_round_trip(&self, s: V::V)
        requires
            self.wf(),
            self.alphabet().contains(s),
        ensures
            self.code_of(s) matches Some(c) && self.decode(c) == Ok::<V::V, HuffmanError>(s),
    {
        assert(key_set(self.encodings@).contains(s));
        let k = choose|k: int| 0 <= k < self.encodings@.len() && self.encodings@[k].0@ == s;
        self.lemma_entry_is_code(k);
        self.lemma_code_decodes(s);
    }

    /// Prefix-freeness: the codes of two different symbols are never
    /// prefixes of one another.
    pub proof fn lemma_prefix_free(&self, s1: V::V, s2: V::V)
        requires
            self.wf(),
            s1 != s2,
            self.code_of(s1) is Some,
            self.code_of(s2) is Some,
        ensures
            !is_prefix(self.code_of(s1)->0, self.code_of(s2)->0),
    {
        let c1 = self.code_of(s1)->0;
        let c2 = self.code_of(s2)->0;
        self.lemma_code_decodes(s1);
        self.lemma_code_decodes(s2);
        if is_prefix(c1, c2) {
            lemma_decode_prefix(self.shape(), c1, c2);
        }
    }

    /// Completeness: a symbol has a code exactly when it is in the
    /// alphabet, and the table holds one entry for each such symbol.
    pub proof fn lemma_complete(&self, s: V::V)
        requires
            self.wf(),
        ensures
            self.code_of(s) is Some <==> self.alphabet().contains(s),
            forall|i: int, j: int|
                0 <= i < self.table().len() && 0 <= j < self.table().len() && self.table()[i].0
                    == s && self.table()[j].0 == s ==> i == j,
    {
        if self.alphabet().contains(s) {
            self.lemma_round_trip(s);
        }
        if self.code_of(s) is Some {
            let k = choose|k: int| 0 <= k < self.table().len() && self.table()[k].0 == s;
            assert(self.encodings@[k].0@ == s);
            assert(key_set(self.encodings@).contains(s));
        }
        assert forall|i: int, j: int|
            0 <= i < self.table().len() && 0 <= j < self.table().len() && self.table()[i].0 == s
                && self.table()[j].0 == s implies i == j by {
            assert(self.encodings@[i].0@ == s);
            assert(self.encodings@[j].0@ == s);
        }
    }
}

/// Appends the records of `node` to `out`.
fn push_records<V: Symbol>(node: &Node<V>, out: &mut Vec<Option<V>>)
    requires
        node.wf(),
    ensures
        record_views(final(out)@) == record_views(old(out)@) + records(node.shape()),
    decreases node,
{
    let ghost o0 = out@;
    match &node.value {
        Some(v) => {
            out.push(Some(v.duplicate()));
            assert(record_views(out@) =~= record_views(o0) + records(node.shape()));
        },
        None => {
            match (&node.left, &node.right) {
                (Some(l), Some(r)) => {
                    out.push(None);
                    assert(record_views(out@) =~= record_views(o0) + seq![None]);
                    push_records(l, out);
                    push_records(r, out);
                    assert(record_views(out@) =~= record_views(o0) + records(node.shape()));
                },
                _ => {},
            }
        },
    }
}

/// Reads one tree from the records starting at `pos`: the tree and the
/// position just past its records, or `None` when the records there do
/// not start with those of a tree.
fn parse_node<V: Symbol>(recs: &Vec<Option<V>>, pos: usize) -> (r: Option<(Box<Node<V>>, usize)>)
    requires
        pos <= recs@.len(),
    ensures
        r matches Some((n, end)) ==> {
            &&& pos < end <= recs@.len()
            &&& n.wf()
            &&& n.freq == 0
            &&& records(n.shape()) == record_views(recs@).subrange(pos as int, end as int)
        },
        forall|sh: Shape<V::V>| #[trigger]
            is_prefix(records(sh), record_views(recs@).skip(pos as int)) ==> r is Some,
    decreases recs@.len() - pos,
{
    let ghost rv = record_views(recs@);
    if pos >= recs.len() {
        assert forall|sh: Shape<V::V>| !is_prefix(records(sh), rv.skip(pos as int)) by {
            assert(records(sh).len() > 0) by {
                match sh {
                    Shape::Leaf(_) => {},
                    Shape::Fork(_, _) => {},
                }
            }
        }
        return None;
    }
    match &recs[pos] {
        Some(v) => {
            let leaf = Node::new_branch(0, Some(v.duplicate()));
            assert(rv.subrange(pos as int, pos + 1) =~= seq![Some(v@)]);
            Some((leaf, pos + 1))
        },
        None => {
            let ghost rest = rv.skip(pos as int);
            assert(rest[0] == None::<V::V>);
            let left = parse_node(recs, pos + 1);
            match left {
                None => {
                    assert forall|sh: Shape<V::V>| !is_prefix(records(sh), rest) by {
                        if is_prefix(records(sh), rest) {
                            match sh {
                                Shape::Leaf(_) => {
                                    assert(records(sh)[0] == rest[0]);
                                },
                                Shape::Fork(l, _) => {
                                    let rs = records(sh);
                                    assert(records(*l) == rs.subrange(1, 1 + records(*l).len() as int));
                                    lemma_prefix_slice(rs, rest, 1, 1 + records(*l).len() as int);
                                    assert(rest.skip(1) =~= rv.skip(pos + 1));
                                },
                            }
                        }
                    }
                    None
                },
                Some((l, mid)) => {
                    let right = parse_node(recs, mid);
                    match right {
                        None => {
                            assert forall|sh: Shape<V::V>| !is_prefix(records(sh), rest) by {
                                if is_prefix(records(sh), rest) {
                                    match sh {
                                        Shape::Leaf(_) => {
                                            assert(records(sh)[0] == rest[0]);
                                        },
                                        Shape::Fork(sl, sr) => {
                                            let rs = records(sh);
                                            let k = records(*sl).len() as int;
                                            assert(records(*sl) == rs.subrange(1, 1 + k));
                                            lemma_prefix_slice(rs, rest, 1, 1 + k);
                                            assert(rest.skip(1) =~= rv.skip(pos + 1));
                                            assert(rv.skip(pos + 1).subrange(0, mid - pos - 1) =~= rv.subrange(pos + 1, mid as int));
                                            lemma_records_unique(*sl, l.shape(), rv.skip(pos + 1));
                                            assert(records(*sr) == rs.subrange(1 + k, rs.len() as int));
                                            lemma_prefix_slice(rs, rest, 1 + k, rs.len() as int);
                                            assert(rest.skip(1 + k) =~= rv.skip(mid as int));
                                        },
                                    }
                                }
                            }
                            None
                        },
                        Some((r, end)) => {
                            let node = Node::merge(l, r);
                            assert(records(node.shape()) =~= rv.subrange(pos as int, end as int));
                            Some((node, end))
                        },
                    }
                },
            }
        },
    }
}

impl<V: Symbol> HuffmanTree<V> {
    /// The persisted form of the tree: its records in preorder.
    pub fn to_records(&self) -> (r: Vec<Option<V>>)
        requires
            self.wf(),
        ensures
            record_views(r@) == records(self.shape()),
    {
        let mut out: Vec<Option<V>> = Vec::new();
        push_records(&self.root, &mut out);
        assert(record_views(out@) =~= records(self.shape()));
        out
    }

    /// Rebuilds a tree from its persisted form. Succeeds exactly when the
    /// records are those of some tree, and then rebuilds that tree.
    pub fn from_records(recs: &Vec<Option<V>>) -> (r: Result<Self, HuffmanError>)
        ensures
            r is Ok <==> exists|sh: Shape<V::V>| records(sh) == record_views(recs@),
            r matches Ok(t) ==> t.wf() && records(t.shape()) == record_views(recs@),
            r matches Err(e) ==> e == HuffmanError::MalformedTreeError,
    {
        let ghost rv = record_views(recs@);
        assert(rv.skip(0) == rv);
        match parse_node(recs, 0) {
            Some((root, end)) => {
                if end == recs.len() {
                    assert(rv.subrange(0, end as int) == rv);
                    let encodings = codes_of_root(&root);
                    Ok(HuffmanTree { root, encodings })
                } else {
                    proof {
                        assert forall|sh: Shape<V::V>| records(sh) != rv by {
                            if records(sh) == rv {
                                assert(rv.subrange(0, rv.len() as int) == rv);
                                assert(rv.subrange(0, end as int) == rv.subrange(0, end as int).subrange(0, end as int));
                                assert(is_prefix(records(root.shape()), rv));
                                assert(is_prefix(records(sh), rv));
                                lemma_records_unique(root.shape(), sh, rv);
                            }
                        }
                    }
                    Err(HuffmanError::MalformedTreeError)
                }
            },
            None => {
                proof {
                    assert forall|sh: Shape<V::V>| records(sh) != rv by {
                        if records(sh) == rv {
                            assert(rv.subrange(0, rv.len() as int) == rv);
                            assert(is_prefix(records(sh), rv.skip(0)));
                        }
                    }
                }
                Err(HuffmanError::MalformedTreeError)
            },
        }
    }

    /// Persistence round trip: a tree rebuilt from the records of `self`
    /// has the same shape, so it decodes every path as `self` does, and
    /// every code of `self` to its own symbol.
    pub proof fn lemma_persistence_round_trip(&self, rebuilt: &Self)
        requires
            self.wf(),
            rebuilt.wf(),
            records(rebuilt.shape()) == records(self.shape()),
        ensures
            rebuilt.shape() == self.shape(),
            forall|p: Seq<bool>| rebuilt.decode(p) == self.decode(p),
            forall|s: V::V| #[trigger] self.code_of(s) is Some ==> rebuilt.decode(self.code_of(s)->0) == Ok::<V::V, HuffmanError>(s),
    {
        let rs = records(self.shape());
        assert(rs.subrange(0, rs.len() as int) == rs);
        lemma_records_unique(rebuilt.shape(), self.shape(), rs);
        assert forall|s: V::V| #[trigger] self.code_of(s) is Some implies rebuilt.decode(self.code_of(s)->0) == Ok::<V::V, HuffmanError>(s) by {
            self.lemma_code_decodes(s);
        }
    }
}

} // verus!
