//! Frequency tables: counting the occurrences of each distinct symbol.
use vstd::prelude::*;
use crate::huffman::symbol::Symbol;
use crate::huffman::tree::HuffmanError;

verus! {

/// How many times `a` occurs in `s`.
pub open spec fn occurrences<A>(s: Seq<A>, a: A) -> nat
    decreases s.len(),
{
    if s.len() == 0 {
        0
    } else {
        occurrences(s.drop_last(), a) + if s.last() == a {
            1nat
        } else {
            0nat
        }
    }
}

/// The views of a sequence of symbols.
pub open spec fn views<V: View>(s: Seq<V>) -> Seq<V::V> {
    s.map_values(|x: V| x@)
}

/// The symbol keys of a table are pairwise distinct.
pub open spec fn distinct_keys<V: View, T>(t: Seq<(V, T)>) -> bool {
    forall|i: int, j: int|
        0 <= i < t.len() && 0 <= j < t.len() && i != j ==> t[i].0@ != t[j].0@
}

/// The set of the symbol keys of a table.
pub open spec fn key_set<V: View, T>(t: Seq<(V, T)>) -> Set<V::V> {
    Set::new(|a: V::V| exists|i: int| 0 <= i < t.len() && t[i].0@ == a)
}

/// `a` occurs in `data` before the first occurrence of `b`.
pub open spec fn occurs_before<A>(data: Seq<A>, a: A, b: A) -> bool {
    exists|p: int| 0 <= p < data.len() && data[p] == a && forall|q: int| 0 <= q <= p ==> data[q] != b
}

/// The entries of a table come in the order in which their symbols first
/// occur in `data`.
pub open spec fn in_first_occurrence_order<V: View, T>(t: Seq<(V, T)>, data: Seq<V::V>) -> bool {
    forall|i: int, j: int| 0 <= i < j < t.len() ==> occurs_before(data, t[i].0@, t[j].0@)
}

/// A frequency table of `data`: one entry for each distinct symbol, holding
/// the number of its occurrences.
pub open spec fn is_frequency_table<V: View>(t: Seq<(V, usize)>, data: Seq<V::V>) -> bool {
    &&& distinct_keys(t)
    &&& key_set(t) == data.to_set()
    &&& forall|i: int| 0 <= i < t.len() ==> t[i].1 == occurrences(data, t[i].0@)
}

/// The frequency table of `from`, with entries in the order of first
/// occurrence; an empty input has none and is rejected.
pub fn create_frequency_table<V: Symbol>(from: &[V]) -> (r: Result<Vec<(V, usize)>, HuffmanError>)
    ensures
        r is Err <==> from@.len() == 0,
        r matches Err(e) ==> e == HuffmanError::EmptyInputError,
        r matches Ok(t) ==> {
            &&& is_frequency_table(t@, views(from@))
            &&& in_first_occurrence_order(t@, views(from@))
            &&& sum(counts(t@)) == from@.len()
        },
{
    if from.len() == 0 {
        Err(HuffmanError::EmptyInputError)
    } else {
        Ok(count_symbols(from))
    }
}

/// Counts the occurrences of each distinct symbol of `from`; the entries
/// come in the order of first occurrence.
fn count_symbols<V: Symbol>(from: &[V]) -> (r: Vec<(V, usize)>)
    ensures
        is_frequency_table(r@, views(from@)),
        in_first_occurrence_order(r@, views(from@)),
        sum(counts(r@)) == from@.len(),
{
    let mut res: Vec<(V, usize)> = Vec::new();
    let n = from.len();
    let mut i: usize = 0;
    assert(key_set(res@) =~= views(from@.subrange(0, 0)).to_set());
    while i < n
        invariant
            n == from@.len(),
            i <= n,
            is_frequency_table(res@, views(from@.subrange(0, i as int))),
            in_first_occurrence_order(res@, views(from@.subrange(0, i as int))),
            forall|k: int| 0 <= k < res.len() ==> res@[k].1 <= i,
            sum(counts(res@)) == i,
        decreases n - i,
    {
        let ghost pre = views(from@.subrange(0, i as int));
        let ghost post = views(from@.subrange(0, i as int + 1));
        assert(post == pre.push(from@[i as int]@)) by {
            assert(from@.subrange(0, i as int + 1) == from@.subrange(0, i as int).push(from@[i as int]));
        }
        assert(post.drop_last() == pre);
        assert(post.last() == from@[i as int]@);
        let x = &from[i];
        let mut j: usize = 0;
        let mut found = false;
        while j < res.len() && !found
            invariant
                j <= res.len(),
                found ==> j < res.len() && res@[j as int].0@ == x@,
                forall|k: int| 0 <= k < j ==> res@[k].0@ != x@,
                i < n,
                n == from@.len(),
                x@ == from@[i as int]@,
                pre == views(from@.subrange(0, i as int)),
                post == views(from@.subrange(0, i as int + 1)),
                post == pre.push(x@),
                is_frequency_table(res@, pre),
                in_first_occurrence_order(res@, pre),
                forall|k: int| 0 <= k < res.len() ==> res@[k].1 <= i,
                sum(counts(res@)) == i,
            decreases res.len() - j + if found { 0int } else { 1int },
        {
            if res[j].0.same(x) {
                found = true;
            } else {
                j = j + 1;
            }
        }
        let ghost old_res = res@;
        if found {
            let c = res[j].1 + 1;
            let key = res[j].0.duplicate();
            res.set(j, (key, c));
            proof {
                assert(counts(res@) =~= counts(old_res).update(j as int, c as int));
                lemma_sum_update(counts(old_res), j as int, c as int);
                assert forall|a: int, b: int| 0 <= a < b < res.len() implies occurs_before(post, res@[a].0@, res@[b].0@) by {
                    assert(old_res[a].0@ == res@[a].0@ && old_res[b].0@ == res@[b].0@);
                    lemma_occurs_before_push(pre, x@, res@[a].0@, res@[b].0@);
                }
            }
            assert forall|k: int| 0 <= k < res.len() implies res@[k].1 == occurrences(post, res@[k].0@) by {
                assert(old_res[k].1 == occurrences(pre, old_res[k].0@));
            }
            assert(key_set(res@) =~= post.to_set()) by {
                assert(key_set(old_res) == pre.to_set());
                assert forall|a: V::V| post.to_set().contains(a) implies key_set(res@).contains(a) by {
                    if a == x@ {
                        assert(res@[j as int].0@ == a);
                    } else {
                        assert(pre.contains(a)) by {
                            let t = choose|t: int| 0 <= t < post.len() && post[t] == a;
                            assert(pre[t] == a);
                        }
                        assert(pre.to_set().contains(a));
                        assert(key_set(old_res).contains(a));
                        let t = choose|t: int| 0 <= t < old_res.len() && old_res[t].0@ == a;
                        assert(res@[t].0@ == a);
                    }
                }
                assert forall|a: V::V| key_set(res@).contains(a) implies post.to_set().contains(a) by {
                    let t = choose|t: int| 0 <= t < res.len() && res@[t].0@ == a;
                    assert(key_set(old_res).contains(a)) by {
                        assert(old_res[t].0@ == a);
                    }
                    let u = choose|u: int| 0 <= u < pre.len() && pre[u] == a;
                    assert(post[u] == a);
                }
            }
        } else {
            let key = x.duplicate();
            res.push((key, 1));
            assert(counts(res@).drop_last() =~= counts(old_res));
            proof {
                assert(!key_set(old_res).contains(x@)) by {
                    if key_set(old_res).contains(x@) {
                        let t = choose|t: int| 0 <= t < old_res.len() && old_res[t].0@ == x@;
                        assert(old_res[t].0@ != x@);
                    }
                }
                assert forall|a: int, b: int| 0 <= a < b < res.len() implies occurs_before(post, res@[a].0@, res@[b].0@) by {
                    assert(old_res[a].0@ == res@[a].0@);
                    if b < old_res.len() {
                        assert(old_res[b].0@ == res@[b].0@);
                        lemma_occurs_before_push(pre, x@, res@[a].0@, res@[b].0@);
                    } else {
                        assert(key_set(old_res).contains(res@[a].0@));
                        assert(pre.to_set().contains(res@[a].0@));
                        let p = choose|p: int| 0 <= p < pre.len() && pre[p] == res@[a].0@;
                        assert(!pre.contains(x@));
                        assert(post[p] == res@[a].0@);
                        assert forall|q: int| 0 <= q <= p implies post[q] != x@ by {
                            assert(post[q] == pre[q]);
                        }
                    }
                }
            }
            assert forall|k: int| 0 <= k < res.len() implies res@[k].1 == occurrences(post, res@[k].0@) by {
                if k < old_res.len() {
                    assert(old_res[k].1 == occurrences(pre, old_res[k].0@));
                    assert(old_res[k].0@ != x@);
                } else {
                    assert(!key_set(old_res).contains(x@)) by {
                        if key_set(old_res).contains(x@) {
                            let t = choose|t: int| 0 <= t < old_res.len() && old_res[t].0@ == x@;
                            assert(old_res[t].0@ != x@);
                        }
                    }
                    assert(!pre.contains(x@));
                    lemma_occurrences_absent(pre, x@);
                }
            }
            assert(key_set(res@) =~= post.to_set()) by {
                assert(key_set(old_res) == pre.to_set());
                assert forall|a: V::V| post.to_set().contains(a) implies key_set(res@).contains(a) by {
                    if a == x@ {
                        assert(res@[old_res.len() as int].0@ == a);
                    } else {
                        assert(pre.contains(a)) by {
                            let t = choose|t: int| 0 <= t < post.len() && post[t] == a;
                            assert(pre[t] == a);
                        }
                        assert(pre.to_set().contains(a));
                        assert(key_set(old_res).contains(a));
                        let t = choose|t: int| 0 <= t < old_res.len() && old_res[t].0@ == a;
                        assert(res@[t].0@ == a);
                    }
                }
                assert forall|a: V::V| key_set(res@).contains(a) implies post.to_set().contains(a) by {
                    let t = choose|t: int| 0 <= t < res.len() && res@[t].0@ == a;
                    if t < old_res.len() {
                        assert(key_set(old_res).contains(a)) by {
                            assert(old_res[t].0@ == a);
                        }
                        let u = choose|u: int| 0 <= u < pre.len() && pre[u] == a;
                        assert(post[u] == a);
                    } else {
                        assert(post[i as int] == a);
                    }
                }
            }
        }
        i = i + 1;
    }
    assert(from@.subrange(0, n as int) == from@);
    res
}

proof fn lemma_occurs_before_push<A>(s: Seq<A>, x: A, a: A, b: A)
    requires
        occurs_before(s, a, b),
    ensures
        occurs_before(s.push(x), a, b),
{
    let p = choose|p: int| 0 <= p < s.len() && s[p] == a && forall|q: int| 0 <= q <= p ==> s[q] != b;
    assert(s.push(x)[p] == a);
    assert forall|q: int| 0 <= q <= p implies s.push(x)[q] != b by {
        assert(s.push(x)[q] == s[q]);
    }
}

proof fn lemma_occurrences_absent<A>(s: Seq<A>, a: A)
    requires
        !s.contains(a),
    ensures
        occurrences(s, a) == 0,
    decreases s.len(),
{
    if s.len() > 0 {
        assert(!s.drop_last().contains(a)) by {
            if s.drop_last().contains(a) {
                let t = choose|t: int| 0 <= t < s.len() - 1 && s.drop_last()[t] == a;
                assert(s[t] == a);
            }
        }
        lemma_occurrences_absent(s.drop_last(), a);
    }
}

/// The sum of a sequence of integers.
pub open spec fn sum(s: Seq<int>) -> int
    decreases s.len(),
{
    if s.len() == 0 {
        0
    } else {
        sum(s.drop_last()) + s.last()
    }
}

/// The counts of a frequency table.
pub open spec fn counts<V>(t: Seq<(V, usize)>) -> Seq<int> {
    t.map_values(|e: (V, usize)| e.1 as int)
}

pub(crate) proof fn lemma_sum_nonneg_bound(s: Seq<int>, k: int)
    requires
        0 <= k < s.len(),
        forall|t: int| 0 <= t < s.len() ==> s[t] >= 0,
    ensures
        s[k] <= sum(s),
        sum(s) >= 0,
    decreases s.len(),
{
    let d = s.drop_last();
    assert(forall|t: int| 0 <= t < d.len() ==> d[t] == s[t]);
    if s.len() > 1 {
        if k < s.len() - 1 {
            lemma_sum_nonneg_bound(d, k);
        } else {
            lemma_sum_nonneg_bound(d, 0);
        }
    } else {
        assert(d.len() == 0);
        assert(sum(d) == 0);
    }
}

pub(crate) proof fn lemma_sum_update(s: Seq<int>, j: int, v: int)
    requires
        0 <= j < s.len(),
    ensures
        sum(s.update(j, v)) == sum(s) - s[j] + v,
    decreases s.len(),
{
    if j < s.len() - 1 {
        assert(s.update(j, v).drop_last() == s.drop_last().update(j, v));
        lemma_sum_update(s.drop_last(), j, v);
    } else {
        assert(s.update(j, v).drop_last() == s.drop_last());
    }
}

pub(crate) proof fn lemma_sum_remove(s: Seq<int>, j: int)
    requires
        0 <= j < s.len(),
    ensures
        sum(s.remove(j)) == sum(s) - s[j],
    decreases s.len(),
{
    if j < s.len() - 1 {
        assert(s.remove(j).drop_last() == s.drop_last().remove(j));
        lemma_sum_remove(s.drop_last(), j);
    } else {
        assert(s.remove(j) == s.drop_last());
    }
}

} // verus!
