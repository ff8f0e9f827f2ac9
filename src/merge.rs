use vstd::prelude::*;

verus! {

/// Among the first `n` sequences, the one whose first element is smallest;
/// on equal first elements the earliest sequence wins. `None` when all of
/// them are empty.
pub open spec fn pick(seqs: Seq<Seq<usize>>, n: nat) -> Option<nat>
    decreases n,
{
    if n == 0 {
        None
    } else {
        let p = pick(seqs, (n - 1) as nat);
        if seqs[n - 1].len() == 0 {
            p
        } else {
            match p {
                None => Some((n - 1) as nat),
                Some(t) => if seqs[n - 1][0] < seqs[t as int][0] {
                    Some((n - 1) as nat)
                } else {
                    p
                },
            }
        }
    }
}

/// The number of elements of all the sequences together.
pub open spec fn total(seqs: Seq<Seq<usize>>) -> nat
    decreases seqs.len(),
{
    if seqs.len() == 0 {
        0
    } else {
        total(seqs.drop_last()) + seqs.last().len()
    }
}

/// The merge of the sequences, as pairs of an element and the number of the
/// sequence it came from: repeatedly take the first element of the sequence
/// that `pick` names. `fuel` bounds the number of steps.
pub open spec fn merged(seqs: Seq<Seq<usize>>, fuel: nat) -> Seq<(usize, nat)>
    decreases fuel,
{
    if fuel == 0 {
        seq![]
    } else {
        match pick(seqs, seqs.len()) {
            None => seq![],
            Some(t) => seq![(seqs[t as int][0], t)] + merged(
                seqs.update(t as int, seqs[t as int].drop_first()),
                (fuel - 1) as nat,
            ),
        }
    }
}

/// The order in which a merge of `seqs` visits their elements.
pub open spec fn merge_order(seqs: Seq<Seq<usize>>) -> Seq<(usize, nat)> {
    merged(seqs, total(seqs))
}

/// Replacing one sequence changes the total by the difference in length.
pub proof fn lemma_total_update(seqs: Seq<Seq<usize>>, t: int, s: Seq<usize>)
    requires
        0 <= t < seqs.len(),
    ensures
        total(seqs.update(t, s)) == total(seqs) - seqs[t].len() + s.len(),
    decreases seqs.len(),
{
    let u = seqs.update(t, s);
    if t == seqs.len() - 1 {
        assert(u.drop_last() =~= seqs.drop_last());
    } else {
        assert(u.drop_last() =~= seqs.drop_last().update(t, s));
        lemma_total_update(seqs.drop_last(), t, s);
    }
}

/// `pick` names a non-empty sequence, and `None` only when all are empty.
pub proof fn lemma_pick(seqs: Seq<Seq<usize>>, n: nat)
    requires
        n <= seqs.len(),
    ensures
        pick(seqs, n) matches Some(t) ==> t < n && seqs[t as int].len() > 0,
        pick(seqs, n) is None ==> forall|u: int| 0 <= u < n ==> #[trigger] seqs[u].len() == 0,
        pick(seqs, n) matches Some(t) ==> forall|u: int|
            0 <= u < n && #[trigger] seqs[u].len() > 0 ==> seqs[t as int][0] <= seqs[u][0],
        pick(seqs, n) matches Some(t) ==> forall|u: int|
            0 <= u < t && #[trigger] seqs[u].len() > 0 ==> seqs[t as int][0] < seqs[u][0],
    decreases n,
{
    if n > 0 {
        lemma_pick(seqs, (n - 1) as nat);
    }
}

/// Each element is smaller than the next.
pub open spec fn ascending(s: Seq<usize>) -> bool {
    forall|i: int, j: int| 0 <= i < j < s.len() ==> s[i] < s[j]
}

/// `a` comes before `b`: at a smaller position, or at the same position
/// from an earlier sequence.
pub open spec fn visited_before(a: (usize, nat), b: (usize, nat)) -> bool {
    a.0 < b.0 || (a.0 == b.0 && a.1 < b.1)
}

/// Every sequence is no longer than the total.
proof fn lemma_total_bounds(seqs: Seq<Seq<usize>>, t: int)
    requires
        0 <= t < seqs.len(),
    ensures
        seqs[t].len() <= total(seqs),
{
    lemma_total_update(seqs, t, Seq::<usize>::empty());
}

/// The merge of ascending sequences, run with enough fuel, holds each
/// element of each sequence once, tagged with its sequence, in the order
/// `visited_before`.
proof fn lemma_merged(seqs: Seq<Seq<usize>>, fuel: nat)
    requires
        fuel == total(seqs),
        forall|t: int| 0 <= t < seqs.len() ==> ascending(#[trigger] seqs[t]),
    ensures
        merged(seqs, fuel).len() == fuel,
        forall|x: usize, u: nat|
            #![trigger merged(seqs, fuel).contains((x, u))]
            #![trigger seqs[u as int].contains(x)]
            merged(seqs, fuel).contains((x, u)) <==> u < seqs.len() && seqs[u as int].contains(x),
        forall|i: int, j: int|
            0 <= i < j < merged(seqs, fuel).len() ==> visited_before(
                #[trigger] merged(seqs, fuel)[i],
                #[trigger] merged(seqs, fuel)[j],
            ),
    decreases fuel,
{
    let m = merged(seqs, fuel);
    lemma_pick(seqs, seqs.len());
    match pick(seqs, seqs.len()) {
        None => {
            if fuel > 0 {
                assert(m =~= Seq::<(usize, nat)>::empty());
            }
            assert forall|u: int| 0 <= u < seqs.len() implies seqs[u].len() == 0 by {
                lemma_total_bounds(seqs, u);
            }
            assert(total(seqs) == 0) by {
                if total(seqs) > 0 {
                    lemma_total_empty(seqs);
                }
            }
            assert(m.len() == 0);
            assert forall|x: usize, u: nat|
                #![trigger m.contains((x, u))]
                #![trigger seqs[u as int].contains(x)]
                !m.contains((x, u)) && !(u < seqs.len() && seqs[u as int].contains(x)) by {
                if u < seqs.len() {
                    assert(seqs[u as int].len() == 0);
                }
            }
        },
        Some(t) => {
            let head = seqs[t as int];
            let rest = seqs.update(t as int, head.drop_first());
            lemma_total_update(seqs, t as int, head.drop_first());
            assert forall|u: int| 0 <= u < rest.len() implies ascending(#[trigger] rest[u]) by {
                if u == t {
                    assert(ascending(head));
                }
            }
            lemma_merged(rest, (fuel - 1) as nat);
            let tail = merged(rest, (fuel - 1) as nat);
            let h = (head[0], t);
            assert(m == seq![h] + tail);
            assert forall|x: usize, u: nat|
                #![trigger m.contains((x, u))]
                #![trigger seqs[u as int].contains(x)]
                m.contains((x, u)) <==> u < seqs.len() && seqs[u as int].contains(x) by {
                if m.contains((x, u)) {
                    let k = choose|k: int| 0 <= k < m.len() && m[k] == (x, u);
                    if k > 0 {
                        assert(tail[k - 1] == (x, u));
                        assert(tail.contains((x, u)));
                        assert(rest[u as int].contains(x));
                        if u == t {
                            let q = choose|q: int| 0 <= q < head.drop_first().len() && head.drop_first()[q] == x;
                            assert(head[q + 1] == x);
                        }
                    } else {
                        assert(head[0] == x);
                    }
                }
                if u < seqs.len() && seqs[u as int].contains(x) {
                    let q = choose|q: int| 0 <= q < seqs[u as int].len() && seqs[u as int][q] == x;
                    if u == t && q == 0 {
                        assert(m[0] == (x, u));
                    } else {
                        if u == t {
                            assert(head.drop_first()[q - 1] == x);
                        }
                        assert(rest[u as int].contains(x));
                        assert(tail.contains((x, u)));
                        let k = choose|k: int| 0 <= k < tail.len() && tail[k] == (x, u);
                        assert(m[k + 1] == (x, u));
                    }
                }
            }
            assert forall|i: int, j: int|
                0 <= i < j < m.len() implies visited_before(#[trigger] m[i], #[trigger] m[j]) by {
                if i == 0 {
                    let (x, u) = tail[j - 1];
                    assert(tail.contains((x, u)));
                    assert(rest[u as int].contains(x));
                    let q = choose|q: int| 0 <= q < rest[u as int].len() && rest[u as int][q] == x;
                    if u == t {
                        assert(head[q + 1] == x);
                        assert(head[0] < head[q + 1]);
                    } else {
                        assert(seqs[u as int][q] == x);
                        assert(seqs[u as int].len() > 0);
                        if q > 0 {
                            assert(seqs[u as int][0] < seqs[u as int][q]);
                        }
                    }
                } else {
                    assert(m[i] == tail[i - 1]);
                    assert(m[j] == tail[j - 1]);
                }
            }
        },
    }
}

/// A total above zero means some sequence is not empty.
proof fn lemma_total_empty(seqs: Seq<Seq<usize>>)
    requires
        total(seqs) > 0,
    ensures
        exists|u: int| 0 <= u < seqs.len() && #[trigger] seqs[u].len() > 0,
    decreases seqs.len(),
{
    if seqs.last().len() == 0 {
        lemma_total_empty(seqs.drop_last());
        let u = choose|u: int| 0 <= u < seqs.drop_last().len() && #[trigger] seqs.drop_last()[u].len() > 0;
        assert(seqs[u].len() > 0);
    } else {
        assert(seqs[seqs.len() - 1].len() > 0);
    }
}

/// Merging strictly ascending sequences visits each element of each
/// sequence exactly once: the merge holds a pair `(x, t)` exactly when
/// sequence `t` holds `x`, holds as many pairs as the sequences hold
/// elements, and lists them in non-decreasing order of position, a shared
/// position being visited by the earlier sequence first.
pub proof fn lemma_merge_order(seqs: Seq<Seq<usize>>)
    requires
        forall|t: int| 0 <= t < seqs.len() ==> ascending(#[trigger] seqs[t]),
    ensures
        merge_order(seqs).len() == total(seqs),
        forall|x: usize, t: nat|
            #![trigger merge_order(seqs).contains((x, t))]
            #![trigger seqs[t as int].contains(x)]
            merge_order(seqs).contains((x, t)) <==> t < seqs.len() && seqs[t as int].contains(x),
        forall|i: int, j: int|
            0 <= i < j < merge_order(seqs).len() ==> visited_before(
                #[trigger] merge_order(seqs)[i],
                #[trigger] merge_order(seqs)[j],
            ),
        forall|i: int, j: int|
            0 <= i < j < merge_order(seqs).len() ==> merge_order(seqs)[i].0 <= merge_order(seqs)[j].0,
        merge_order(seqs).no_duplicates(),
{
    lemma_merged(seqs, total(seqs));
    let m = merge_order(seqs);
    assert forall|i: int, j: int| 0 <= i < j < m.len() implies m[i].0 <= m[j].0 by {
        assert(visited_before(m[i], m[j]));
    }
    assert forall|i: int, j: int| 0 <= i < m.len() && 0 <= j < m.len() && i != j implies m[i] != m[j] by {
        if i < j {
            assert(visited_before(m[i], m[j]));
        } else {
            assert(visited_before(m[j], m[i]));
        }
    }
}

} // verus!
