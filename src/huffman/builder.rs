//! Building a Huffman tree from a frequency table by greedy merges.
use vstd::prelude::*;
use crate::huffman::frequency::{counts, key_set, lemma_sum_nonneg_bound, lemma_sum_remove, sum};
use crate::huffman::shape::{Shape, Weighted, disjoint, distinct_leaves, leaves, size, weight};
use crate::huffman::frequency::distinct_keys;
use crate::huffman::symbol::Symbol;
use crate::huffman::tree::Node;

verus! {

/// The frequencies of the roots of a forest.
pub open spec fn freqs<V>(f: Seq<Box<Node<V>>>) -> Seq<int> {
    f.map_values(|n: Box<Node<V>>| n.freq as int)
}

/// The symbols at the leaves of all the trees of a forest.
pub open spec fn forest_leaves<V: Symbol>(f: Seq<Box<Node<V>>>) -> Set<V::V> {
    Set::new(|a: V::V| exists|k: int| 0 <= k < f.len() && leaves(f[k].shape()).contains(a))
}

/// `i` is the first position holding the least frequency of `f`.
pub open spec fn first_min(f: Seq<int>, i: int) -> bool {
    &&& 0 <= i < f.len()
    &&& forall|k: int| 0 <= k < f.len() ==> f[i] <= f[k]
    &&& forall|k: int| 0 <= k < i ==> f[i] < f[k]
}

/// Finds the first position of the least frequency of a non-empty forest.
fn position_of_min<V: Symbol>(f: &Vec<Box<Node<V>>>) -> (r: usize)
    requires
        f.len() > 0,
    ensures
        first_min(freqs(f@), r as int),
{
    let mut best: usize = 0;
    let mut k: usize = 1;
    while k < f.len()
        invariant
            0 < k <= f.len(),
            best < k,
            forall|t: int| 0 <= t < k ==> f@[best as int].freq <= f@[t].freq,
            forall|t: int| 0 <= t < best ==> f@[best as int].freq < f@[t].freq,
        decreases f.len() - k,
    {
        if f[k].freq < f[best].freq {
            best = k;
        }
        k = k + 1;
    }
    best
}

proof fn lemma_forest_leaves_remove<V: Symbol>(f: Seq<Box<Node<V>>>, i: int)
    requires
        0 <= i < f.len(),
    ensures
        forest_leaves(f) == forest_leaves(f.remove(i)).union(leaves(f[i].shape())),
{
    let g = f.remove(i);
    assert forall|a: V::V| forest_leaves(f).contains(a) implies forest_leaves(g).union(
        leaves(f[i].shape()),
    ).contains(a) by {
        let k = choose|k: int| 0 <= k < f.len() && leaves(f[k].shape()).contains(a);
        if k < i {
            assert(g[k] == f[k]);
        } else if k > i {
            assert(g[k - 1] == f[k]);
        }
    }
    assert forall|a: V::V| forest_leaves(g).union(leaves(f[i].shape())).contains(a) implies forest_leaves(
        f,
    ).contains(a) by {
        if forest_leaves(g).contains(a) {
            let k = choose|k: int| 0 <= k < g.len() && leaves(g[k].shape()).contains(a);
            if k < i {
                assert(g[k] == f[k]);
            } else {
                assert(g[k] == f[k + 1]);
            }
        }
    }
    assert(forest_leaves(f) =~= forest_leaves(g).union(leaves(f[i].shape())));
}

proof fn lemma_forest_leaves_push<V: Symbol>(f: Seq<Box<Node<V>>>, n: Box<Node<V>>)
    ensures
        forest_leaves(f.push(n)) == forest_leaves(f).union(leaves(n.shape())),
{
    let g = f.push(n);
    assert forall|a: V::V| forest_leaves(g).contains(a) implies forest_leaves(f).union(
        leaves(n.shape()),
    ).contains(a) by {
        let k = choose|k: int| 0 <= k < g.len() && leaves(g[k].shape()).contains(a);
        if k < f.len() {
            assert(g[k] == f[k]);
        }
    }
    assert forall|a: V::V| forest_leaves(f).union(leaves(n.shape())).contains(a) implies forest_leaves(
        g,
    ).contains(a) by {
        if forest_leaves(f).contains(a) {
            let k = choose|k: int| 0 <= k < f.len() && leaves(f[k].shape()).contains(a);
            assert(g[k] == f[k]);
        } else {
            assert(g[f.len() as int] == n);
        }
    }
    assert(forest_leaves(g) =~= forest_leaves(f).union(leaves(n.shape())));
}

/// `after` is `before` with its two least-frequency trees (the first ones on
/// ties, taken out at `i` and then at `j`) replaced by their merge, which is
/// appended; the first one taken out becomes the left child.
pub open spec fn greedy_step<V: Symbol>(
    before: Seq<Box<Node<V>>>,
    after: Seq<Box<Node<V>>>,
    i: int,
    j: int,
) -> bool {
    let rest = before.remove(i);
    let first = before[i];
    let second = rest[j];
    &&& first_min(freqs(before), i)
    &&& first_min(freqs(rest), j)
    &&& after.len() == before.len() - 1
    &&& after.drop_last() == rest.remove(j)
    &&& after.last().wf()
    &&& after.last().value.is_none()
    &&& after.last().freq == first.freq + second.freq
    &&& after.last().shape() == Shape::Fork(Box::new(first.shape()), Box::new(second.shape()))
}

/// The weights of a forest model.
pub open spec fn weights<A>(f: Seq<Weighted<A>>) -> Seq<int> {
    f.map_values(|w: Weighted<A>| weight(w))
}

/// One greedy step on a forest of weighted shapes: the first tree of least
/// weight and then the first of least weight among the others are taken
/// out, and their merge, the first on the left, is appended.
pub open spec fn greedy_next<A>(f: Seq<Weighted<A>>) -> Seq<Weighted<A>> {
    let i = choose|i: int| first_min(weights(f), i);
    let rest = f.remove(i);
    let j = choose|j: int| first_min(weights(rest), j);
    rest.remove(j).push(Weighted::Fork(weight(f[i]) + weight(rest[j]), Box::new(f[i]), Box::new(rest[j])))
}

/// The forest after `steps` greedy steps.
pub open spec fn greedy<A>(f: Seq<Weighted<A>>, steps: nat) -> Seq<Weighted<A>>
    decreases steps,
{
    if steps == 0 {
        f
    } else {
        greedy_next(greedy(f, (steps - 1) as nat))
    }
}

/// The weighted shapes of a forest of nodes.
pub open spec fn forest_model<V: Symbol>(f: Seq<Box<Node<V>>>) -> Seq<Weighted<V::V>> {
    f.map_values(|n: Box<Node<V>>| n.weighted())
}

/// The forest of leaves of a frequency table, in table order.
pub open spec fn table_forest<V: View>(t: Seq<(V, usize)>) -> Seq<Weighted<V::V>> {
    t.map_values(|e: (V, usize)| Weighted::Leaf(e.1 as int, e.0@))
}

proof fn lemma_first_min_unique(f: Seq<int>, i: int, j: int)
    requires
        first_min(f, i),
        first_min(f, j),
    ensures
        i == j,
{
    if i < j {
        assert(f[j] < f[i]);
        assert(f[i] <= f[j]);
    } else if j < i {
        assert(f[i] < f[j]);
        assert(f[j] <= f[i]);
    }
}

/// The node counts of the trees of a forest.
pub open spec fn sizes<V: Symbol>(f: Seq<Box<Node<V>>>) -> Seq<int> {
    f.map_values(|n: Box<Node<V>>| size(n.weighted()))
}

/// No symbol stands at two leaves of a forest.
pub open spec fn forest_distinct<V: Symbol>(f: Seq<Box<Node<V>>>) -> bool {
    &&& forall|k: int| 0 <= k < f.len() ==> distinct_leaves(#[trigger] f[k].shape())
    &&& forall|k: int, l: int|
        0 <= k < f.len() && 0 <= l < f.len() && k != l ==> disjoint(
            leaves(#[trigger] f[k].shape()),
            leaves(#[trigger] f[l].shape()),
        )
}

proof fn lemma_distinct_remove<V: Symbol>(f: Seq<Box<Node<V>>>, i: int)
    requires
        0 <= i < f.len(),
        forest_distinct(f),
    ensures
        forest_distinct(f.remove(i)),
        forall|k: int| 0 <= k < f.len() - 1 ==> disjoint(leaves(#[trigger] f.remove(i)[k].shape()), leaves(f[i].shape())),
{
    let g = f.remove(i);
    assert forall|k: int| 0 <= k < g.len() implies g[k] == f[if k < i { k } else { k + 1 }] by {}
    assert forall|k: int, l: int|
        0 <= k < g.len() && 0 <= l < g.len() && k != l implies disjoint(
            leaves(#[trigger] g[k].shape()),
            leaves(#[trigger] g[l].shape()),
        ) by {
        let k2 = if k < i { k } else { k + 1 };
        let l2 = if l < i { l } else { l + 1 };
        assert(g[k] == f[k2] && g[l] == f[l2]);
    }
    assert forall|k: int| 0 <= k < f.len() - 1 implies disjoint(leaves(#[trigger] g[k].shape()), leaves(f[i].shape())) by {
        let k2 = if k < i { k } else { k + 1 };
        assert(g[k] == f[k2]);
    }
    assert forall|k: int| 0 <= k < g.len() implies distinct_leaves(#[trigger] g[k].shape()) by {
        let k2 = if k < i { k } else { k + 1 };
        assert(g[k] == f[k2]);
    }
}

/// The invariant of the forest while the tree is built.
pub open spec fn forest_ok<V: Symbol>(f: Seq<Box<Node<V>>>) -> bool {
    &&& forall|k: int| 0 <= k < f.len() ==> f[k].wf()
    &&& sum(freqs(f)) <= usize::MAX
}

/// Merges the two trees of least frequency of the forest.
fn merge_smallest<V: Symbol>(forest: &mut Vec<Box<Node<V>>>)
    requires
        old(forest).len() >= 2,
        forest_ok(old(forest)@),
    ensures
        exists|i: int, j: int| greedy_step(old(forest)@, final(forest)@, i, j),
        forest_model(final(forest)@) == greedy_next(forest_model(old(forest)@)),
        forest_distinct(old(forest)@) ==> forest_distinct(final(forest)@),
        sum(sizes(final(forest)@)) == sum(sizes(old(forest)@)) + 1,
        forest_ok(final(forest)@),
        sum(freqs(final(forest)@)) == sum(freqs(old(forest)@)),
        forest_leaves(final(forest)@) == forest_leaves(old(forest)@),
{
    let ghost f0 = forest@;
    let i = position_of_min(forest);
    let first = forest.remove(i);
    let ghost f1 = forest@;
    let j = position_of_min(forest);
    let second = forest.remove(j);
    let ghost f2 = forest@;
    proof {
        assert(freqs(f1) == freqs(f0).remove(i as int));
        assert(freqs(f2) == freqs(f1).remove(j as int));
        lemma_sum_remove(freqs(f0), i as int);
        lemma_sum_remove(freqs(f1), j as int);
        lemma_sum_nonneg_bound(freqs(f1), j as int);
        lemma_forest_leaves_remove(f0, i as int);
        lemma_forest_leaves_remove(f1, j as int);
    }
    let merged = Node::merge(first, second);
    forest.push(merged);
    proof {
        assert(freqs(forest@) == freqs(f2).push(merged.freq as int));
        assert(sum(freqs(forest@)) == sum(freqs(f2)) + merged.freq) by {
            assert(freqs(forest@).drop_last() == freqs(f2));
        }
        lemma_forest_leaves_push(f2, merged);
        assert(forest@.drop_last() == f2);
        assert(greedy_step(f0, forest@, i as int, j as int));
        let m = forest_model(f0);
        assert(weights(m) =~= freqs(f0));
        let ci = choose|ci: int| first_min(weights(m), ci);
        lemma_first_min_unique(weights(m), ci, i as int);
        let rest = m.remove(i as int);
        assert(rest =~= forest_model(f1));
        assert(weights(rest) =~= freqs(f1));
        let cj = choose|cj: int| first_min(weights(rest), cj);
        lemma_first_min_unique(weights(rest), cj, j as int);
        assert(rest.remove(j as int) =~= forest_model(f2));
        assert(forest_model(forest@) =~= greedy_next(m));
        assert(sizes(f1) =~= sizes(f0).remove(i as int));
        assert(sizes(f2) =~= sizes(f1).remove(j as int));
        lemma_sum_remove(sizes(f0), i as int);
        lemma_sum_remove(sizes(f1), j as int);
        assert(sizes(forest@).drop_last() =~= sizes(f2));
        assert(size(merged.weighted()) == 1 + size(f0[i as int].weighted()) + size(f1[j as int].weighted()));
        if forest_distinct(f0) {
            lemma_distinct_remove(f0, i as int);
            lemma_distinct_remove(f1, j as int);
            let g = forest@;
            let a = f0[i as int];
            let b = f1[j as int];
            assert(disjoint(leaves(b.shape()), leaves(a.shape())));
            assert(leaves(merged.shape()) == leaves(a.shape()).union(leaves(b.shape())));
            assert forall|k: int| 0 <= k < f2.len() implies disjoint(leaves(#[trigger] f2[k].shape()), leaves(merged.shape())) by {
                let k2 = if k < j { k } else { k + 1 };
                assert(f2[k] == f1[k2]);
                assert(disjoint(leaves(f1[k2].shape()), leaves(a.shape())));
                assert(disjoint(leaves(f2[k].shape()), leaves(b.shape())));
            }
            assert forall|k: int| 0 <= k < g.len() implies distinct_leaves(#[trigger] g[k].shape()) by {
                if k < f2.len() {
                    assert(g[k] == f2[k]);
                }
            }
            assert forall|k: int, l: int|
                0 <= k < g.len() && 0 <= l < g.len() && k != l implies disjoint(
                    leaves(#[trigger] g[k].shape()),
                    leaves(#[trigger] g[l].shape()),
                ) by {
                if k < f2.len() && l < f2.len() {
                    assert(g[k] == f2[k] && g[l] == f2[l]);
                } else if k < f2.len() {
                    assert(g[k] == f2[k]);
                    assert(disjoint(leaves(f2[k].shape()), leaves(merged.shape())));
                } else {
                    assert(g[l] == f2[l]);
                    assert(disjoint(leaves(f2[l].shape()), leaves(merged.shape())));
                }
            }
        }
        assert(forest_leaves(forest@) =~= forest_leaves(f0));
    }
}

/// Builds the Huffman tree of a frequency table: a leaf for each entry, in
/// table order, then greedy merges of the two least frequent trees until
/// one is left. `None` exactly when the table is empty.
pub fn create_huffman<V: Symbol>(freq_table: &[(V, usize)]) -> (r: Option<Box<Node<V>>>)
    requires
        sum(counts(freq_table@)) <= usize::MAX,
    ensures
        r.is_none() <==> freq_table@.len() == 0,
        r matches Some(n) ==> {
            &&& n.wf()
            &&& leaves(n.shape()) == key_set(freq_table@)
            &&& n.freq == sum(counts(freq_table@))
            &&& freq_table@.len() == 1 ==> n.shape() == Shape::Leaf(freq_table@[0].0@)
            &&& greedy(table_forest(freq_table@), (freq_table@.len() - 1) as nat) == seq![n.weighted()]
            &&& distinct_keys(freq_table@) ==> distinct_leaves(n.shape())
            &&& size(n.weighted()) == 2 * freq_table@.len() - 1
        },
{
    let mut forest: Vec<Box<Node<V>>> = Vec::new();
    let n = freq_table.len();
    let mut k: usize = 0;
    assert(forest_leaves(forest@) =~= key_set(freq_table@.subrange(0, 0)));
    assert(forest_model(forest@) =~= table_forest(freq_table@.subrange(0, 0)));
    assert(freqs(forest@) =~= counts(freq_table@.subrange(0, 0)));
    while k < n
        invariant
            n == freq_table@.len(),
            k <= n,
            forest@.len() == k,
            forall|t: int| 0 <= t < k ==> forest@[t].wf() && forest@[t].shape() == Shape::Leaf(
                freq_table@[t].0@,
            ),
            freqs(forest@) == counts(freq_table@.subrange(0, k as int)),
            forest_leaves(forest@) == key_set(freq_table@.subrange(0, k as int)),
            forest_model(forest@) == table_forest(freq_table@.subrange(0, k as int)),
            distinct_keys(freq_table@) ==> forest_distinct(forest@),
            sum(sizes(forest@)) == k,
        decreases n - k,
    {
        let ghost before = forest@;
        let leaf = Node::new_branch(freq_table[k].1, Some(freq_table[k].0.duplicate()));
        forest.push(leaf);
        proof {
            let tk = freq_table@.subrange(0, k as int);
            let tk1 = freq_table@.subrange(0, k as int + 1);
            assert(tk1 == tk.push(freq_table@[k as int]));
            assert(counts(tk1) =~= counts(tk).push(freq_table@[k as int].1 as int));
            assert(freqs(forest@) =~= freqs(before).push(leaf.freq as int));
            assert(forest_model(forest@) =~= forest_model(before).push(leaf.weighted()));
            assert(table_forest(tk1) =~= table_forest(tk).push(leaf.weighted()));
            assert(sizes(forest@).drop_last() =~= sizes(before));
            if distinct_keys(freq_table@) {
                let g = forest@;
                assert forall|a: int, b: int|
                    0 <= a < g.len() && 0 <= b < g.len() && a != b implies disjoint(
                        leaves(#[trigger] g[a].shape()),
                        leaves(#[trigger] g[b].shape()),
                    ) by {
                    assert(g[a].shape() == Shape::Leaf(freq_table@[a].0@));
                    assert(g[b].shape() == Shape::Leaf(freq_table@[b].0@));
                    assert(freq_table@[a].0@ != freq_table@[b].0@);
                }
            }
            lemma_forest_leaves_push(before, leaf);
            assert(leaves(leaf.shape()) == set![freq_table@[k as int].0@]);
            assert forall|a: V::V| key_set(tk1).contains(a) <==> key_set(tk).union(
                set![freq_table@[k as int].0@],
            ).contains(a) by {
                if key_set(tk1).contains(a) {
                    let t = choose|t: int| 0 <= t < tk1.len() && tk1[t].0@ == a;
                    if t < k {
                        assert(tk[t] == tk1[t]);
                    }
                }
                if key_set(tk).contains(a) {
                    let t = choose|t: int| 0 <= t < tk.len() && tk[t].0@ == a;
                    assert(tk[t] == tk1[t]);
                }
                if a == freq_table@[k as int].0@ {
                    assert(tk1[k as int] == freq_table@[k as int]);
                }
            }
            assert(key_set(tk1) =~= key_set(tk).union(set![freq_table@[k as int].0@]));
        }
        k = k + 1;
    }
    assert(freq_table@.subrange(0, n as int) == freq_table@);
    assert(greedy(table_forest(freq_table@), 0) == table_forest(freq_table@));
    if n == 0 {
        return None;
    }
    while forest.len() > 1
        invariant
            forest@.len() >= 1,
            forest_ok(forest@),
            sum(freqs(forest@)) == sum(counts(freq_table@)),
            forest_leaves(forest@) == key_set(freq_table@),
            n == 1 ==> forest@.len() == 1 && forest@[0].shape() == Shape::Leaf(freq_table@[0].0@),
            n == freq_table@.len(),
            forest@.len() <= n,
            forest_model(forest@) == greedy(table_forest(freq_table@), (n - forest@.len()) as nat),
            distinct_keys(freq_table@) ==> forest_distinct(forest@),
            sum(sizes(forest@)) + forest@.len() == 2 * n,
        decreases forest.len(),
    {
        let ghost steps = (n - forest@.len()) as nat;
        merge_smallest(&mut forest);
        assert(greedy(table_forest(freq_table@), steps + 1) == greedy_next(greedy(table_forest(freq_table@), steps)));
        assert((n - forest@.len()) as nat == steps + 1);
    }
    let ghost last = forest@;
    let root = forest.pop();
    proof {
        let rt = last[0];
        assert(freqs(last).drop_last().len() == 0);
        assert(sum(freqs(last).drop_last()) == 0);
        assert(freqs(last).last() == rt.freq);
        assert(sum(freqs(last)) == rt.freq);
        assert(forest_model(last) =~= seq![rt.weighted()]);
        assert(sizes(last).drop_last().len() == 0);
        assert(sum(sizes(last).drop_last()) == 0);
        assert(sizes(last).last() == size(rt.weighted()));
        assert(forest_leaves(last) =~= leaves(rt.shape())) by {
            assert forall|a: V::V| leaves(rt.shape()).contains(a) implies forest_leaves(last).contains(a) by {
                assert(last[0] == rt);
            }
        }
    }
    root
}

} // verus!
