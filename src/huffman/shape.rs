//! The shape of a Huffman tree as a mathematical value: decoding by
//! walking it, its leaf symbols, and its preorder records.
use vstd::prelude::*;
use crate::huffman::tree::HuffmanError;

verus! {

/// The shape of a tree: which nodes are leaves, their symbols, and the
/// order of the children of each branch.
pub enum Shape<A> {
    Leaf(A),
    Fork(Box<Shape<A>>, Box<Shape<A>>),
}

/// Follows `path` from `sh`: `false` goes left, `true` goes right, and the
/// walk must end exactly on a leaf.
pub open spec fn walk<A>(sh: Shape<A>, path: Seq<bool>) -> Result<A, HuffmanError>
    decreases path.len(),
{
    match sh {
        Shape::Leaf(a) => if path.len() == 0 {
            Ok(a)
        } else {
            Err(HuffmanError::DeadEndError)
        },
        Shape::Fork(l, r) => if path.len() == 0 {
            Err(HuffmanError::IncompletePathError)
        } else if path[0] {
            walk(*r, path.drop_first())
        } else {
            walk(*l, path.drop_first())
        },
    }
}

/// Decoding against a whole tree. A tree of one leaf codes its symbol as
/// the single bit `false`, as if the leaf hung left of an invisible root.
pub open spec fn decode_path<A>(sh: Shape<A>, path: Seq<bool>) -> Result<A, HuffmanError> {
    match sh {
        Shape::Leaf(a) => if path.len() == 0 {
            Err(HuffmanError::IncompletePathError)
        } else if path[0] {
            Err(HuffmanError::DeadEndError)
        } else {
            walk(sh, path.drop_first())
        },
        Shape::Fork(_, _) => walk(sh, path),
    }
}

/// The symbols at the leaves of `sh`.
pub open spec fn leaves<A>(sh: Shape<A>) -> Set<A>
    decreases sh,
{
    match sh {
        Shape::Leaf(a) => set![a],
        Shape::Fork(l, r) => leaves(*l).union(leaves(*r)),
    }
}

/// `a` is a prefix of `b` (equal sequences included).
pub open spec fn is_prefix<A>(a: Seq<A>, b: Seq<A>) -> bool {
    a.len() <= b.len() && b.subrange(0, a.len() as int) == a
}

/// A walk that reaches a leaf along `a` reaches the same leaf along `a`
/// itself and dead-ends along any longer path that starts with `a`.
pub proof fn lemma_walk_prefix<A>(sh: Shape<A>, a: Seq<bool>, b: Seq<bool>)
    requires
        walk(sh, a) is Ok,
        is_prefix(a, b),
    ensures
        walk(sh, b) == if a.len() == b.len() {
            walk(sh, a)
        } else {
            Err(HuffmanError::DeadEndError)
        },
    decreases a.len(),
{
    if a.len() == b.len() {
        assert(b.subrange(0, a.len() as int) == b);
    } else if a.len() > 0 {
        assert(b[0] == a[0]);
        assert(b.drop_first().subrange(0, a.len() - 1) == a.drop_first());
        match sh {
            Shape::Leaf(_) => {},
            Shape::Fork(l, r) => {
                if a[0] {
                    lemma_walk_prefix(*r, a.drop_first(), b.drop_first());
                } else {
                    lemma_walk_prefix(*l, a.drop_first(), b.drop_first());
                }
            },
        }
    }
}

/// The same for decoding against a whole tree.
pub proof fn lemma_decode_prefix<A>(sh: Shape<A>, a: Seq<bool>, b: Seq<bool>)
    requires
        decode_path(sh, a) is Ok,
        is_prefix(a, b),
    ensures
        decode_path(sh, b) == if a.len() == b.len() {
            decode_path(sh, a)
        } else {
            Err(HuffmanError::DeadEndError)
        },
{
    match sh {
        Shape::Leaf(_) => {
            assert(b[0] == a[0]);
            assert(b.drop_first().subrange(0, a.len() - 1) == a.drop_first());
            lemma_walk_prefix(sh, a.drop_first(), b.drop_first());
        },
        Shape::Fork(_, _) => {
            lemma_walk_prefix(sh, a, b);
        },
    }
}

/// The persisted form of a shape, in preorder: `None` for a branch,
/// followed by the records of its left and then its right subtree, and
/// `Some(symbol)` for a leaf.
pub open spec fn records<A>(sh: Shape<A>) -> Seq<Option<A>>
    decreases sh,
{
    match sh {
        Shape::Leaf(a) => seq![Some(a)],
        Shape::Fork(l, r) => seq![None].add(records(*l)).add(records(*r)),
    }
}

/// The views of a sequence of records.
pub open spec fn record_views<V: View>(s: Seq<Option<V>>) -> Seq<Option<V::V>> {
    s.map_values(|o: Option<V>| match o {
        Some(v) => Some(v@),
        None => None,
    })
}

pub(crate) proof fn lemma_prefix_slice<A>(x: Seq<A>, s: Seq<A>, i: int, j: int)
    requires
        is_prefix(x, s),
        0 <= i <= j <= x.len(),
    ensures
        is_prefix(x.subrange(i, j), s.skip(i)),
{
    assert forall|k: int| 0 <= k < j - i implies s.skip(i)[k] == x[i + k] by {
        assert(s.subrange(0, x.len() as int)[i + k] == s[i + k]);
    }
    assert(s.skip(i).subrange(0, j - i) =~= x.subrange(i, j));
}

/// Two shapes whose records both start a sequence are the same shape.
pub proof fn lemma_records_unique<A>(a: Shape<A>, b: Shape<A>, s: Seq<Option<A>>)
    requires
        is_prefix(records(a), s),
        is_prefix(records(b), s),
    ensures
        a == b,
    decreases a,
{
    assert(records(a)[0] == s[0]);
    assert(records(b)[0] == s[0]);
    match a {
        Shape::Leaf(_) => {
            match b {
                Shape::Leaf(_) => {},
                Shape::Fork(_, _) => {},
            }
        },
        Shape::Fork(al, ar) => {
            match b {
                Shape::Leaf(_) => {},
                Shape::Fork(bl, br) => {
                    let t = s.skip(1);
                    let ra = records(a);
                    let rb = records(b);
                    assert(records(*al) == ra.subrange(1, 1 + records(*al).len() as int));
                    assert(records(*bl) == rb.subrange(1, 1 + records(*bl).len() as int));
                    lemma_prefix_slice(ra, s, 1, 1 + records(*al).len() as int);
                    lemma_prefix_slice(rb, s, 1, 1 + records(*bl).len() as int);
                    lemma_records_unique(*al, *bl, t);
                    let m = 1 + records(*al).len() as int;
                    let u = s.skip(m);
                    assert(records(*ar) == ra.subrange(m, ra.len() as int));
                    assert(records(*br) == rb.subrange(m, rb.len() as int));
                    lemma_prefix_slice(ra, s, m, ra.len() as int);
                    lemma_prefix_slice(rb, s, m, rb.len() as int);
                    lemma_records_unique(*ar, *br, u);
                },
            }
        },
    }
}


/// A tree shape with a weight at every node.
pub enum Weighted<A> {
    Leaf(int, A),
    Fork(int, Box<Weighted<A>>, Box<Weighted<A>>),
}

/// The weight at the root of `w`.
pub open spec fn weight<A>(w: Weighted<A>) -> int {
    match w {
        Weighted::Leaf(n, _) => n,
        Weighted::Fork(n, _, _) => n,
    }
}

/// The number of nodes of `w`.
pub open spec fn size<A>(w: Weighted<A>) -> int
    decreases w,
{
    match w {
        Weighted::Leaf(_, _) => 1,
        Weighted::Fork(_, l, r) => 1 + size(*l) + size(*r),
    }
}

/// The shape of `w`, without its weights.
pub open spec fn unweighted<A>(w: Weighted<A>) -> Shape<A>
    decreases w,
{
    match w {
        Weighted::Leaf(_, a) => Shape::Leaf(a),
        Weighted::Fork(_, l, r) => Shape::Fork(Box::new(unweighted(*l)), Box::new(unweighted(*r))),
    }
}


/// The sets `a` and `b` share no element.
pub open spec fn disjoint<A>(a: Set<A>, b: Set<A>) -> bool {
    forall|x: A| !(#[trigger] a.contains(x) && b.contains(x))
}

/// No symbol stands at two leaves of `sh`.
pub open spec fn distinct_leaves<A>(sh: Shape<A>) -> bool
    decreases sh,
{
    match sh {
        Shape::Leaf(_) => true,
        Shape::Fork(l, r) => distinct_leaves(*l) && distinct_leaves(*r) && disjoint(leaves(*l), leaves(*r)),
    }
}

} // verus!
