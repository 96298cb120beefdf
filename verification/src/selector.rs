use vstd::prelude::*;
use crate::store::{Record, Store, ids_unique};
use crate::rng::rng_below;

verus! {

/// The records whose rating meets the cutoff, in table order.
pub open spec fn viable_of(s: Seq<Record>, min: int) -> Seq<Record>
    decreases s.len(),
{
    if s.len() == 0 {
        Seq::empty()
    } else {
        let pre = viable_of(s.drop_last(), min);
        if s.last().rating >= min {
            pre.push(s.last())
        } else {
            pre
        }
    }
}

/// Some record of `s` carries the identifier `id`.
pub open spec fn has_rec(s: Seq<Record>, id: Seq<char>) -> bool {
    exists|i: int| 0 <= i < s.len() && s[i].id@ == id
}

/// Play counts never decrease along the sequence.
pub open spec fn sorted_by_games(s: Seq<Record>) -> bool {
    forall|i: int, j: int| 0 <= i <= j < s.len() ==> s[i].games <= s[j].games
}

pub proof fn lemma_viable_props(s: Seq<Record>, min: int)
    ensures
        forall|i: int| 0 <= i < viable_of(s, min).len() ==> (#[trigger] viable_of(s, min)[i]).rating
            >= min && (exists|j: int| 0 <= j < s.len() && s[j] == viable_of(s, min)[i]),
        forall|j: int| 0 <= j < s.len() && (#[trigger] s[j]).rating >= min ==> viable_of(
            s,
            min,
        ).contains(s[j]),
        ids_unique(s) ==> ids_unique(viable_of(s, min)),
    decreases s.len(),
{
    if s.len() > 0 {
        lemma_viable_props(s.drop_last(), min);
        let pre = s.drop_last();
        let v = viable_of(s, min);
        let vp = viable_of(pre, min);
        assert(forall|j: int| 0 <= j < pre.len() ==> pre[j] == s[j]);
        assert forall|i: int| 0 <= i < v.len() implies (#[trigger] v[i]).rating >= min && (
        exists|j: int| 0 <= j < s.len() && s[j] == v[i]) by {
            if i < vp.len() {
                assert(vp[i].rating >= min);
                let w = choose|j: int| 0 <= j < pre.len() && pre[j] == vp[i];
                assert(s[w] == v[i]);
            } else {
                assert(s[s.len() - 1] == v[i]);
            }
        }
        assert forall|j: int| 0 <= j < s.len() && (#[trigger] s[j]).rating >= min implies v
            .contains(s[j]) by {
            if j < s.len() - 1 {
                assert(pre[j].rating >= min);
                assert(vp.contains(pre[j]));
                let w = choose|i: int| 0 <= i < vp.len() && vp[i] == pre[j];
                assert(v[w] == s[j]);
            } else {
                assert(v[v.len() - 1] == s[j]);
            }
        }
        if ids_unique(s) {
            assert forall|a: int, b: int| 0 <= a < b < pre.len() implies pre[a].id@
                != pre[b].id@ by {
                assert(s[a].id@ != s[b].id@);
            }
            assert(ids_unique(pre));
            if s.last().rating >= min {
                assert forall|a: int, b: int| 0 <= a < b < v.len() implies v[a].id@
                    != v[b].id@ by {
                    if b < vp.len() {
                        assert(vp[a].id@ != vp[b].id@);
                    } else {
                        let w = choose|j: int| 0 <= j < pre.len() && pre[j] == vp[a];
                        assert(s[w].id@ != s[s.len() - 1].id@);
                    }
                }
            }
        }
    }
}

/// The viable subset of the table.
pub fn viable_records(store: &Store, min_score: i64) -> (v: Vec<Record>)
    ensures
        v@ == viable_of(store.rows(), min_score as int),
{
    let n = store.len();
    let mut v: Vec<Record> = Vec::new();
    let mut i: usize = 0;
    proof {
        assert(store.rows().take(0) =~= Seq::<Record>::empty());
        assert(v@ =~= viable_of(store.rows().take(0), min_score as int));
    }
    while i < n
        invariant
            n == store.rows().len(),
            i <= n,
            v@ == viable_of(store.rows().take(i as int), min_score as int),
        decreases n - i,
    {
        let rec = store.row(i);
        proof {
            assert(store.rows().take(i as int + 1).drop_last() =~= store.rows().take(i as int));
            assert(store.rows().take(i as int + 1).last() == store.rows()[i as int]);
        }
        if rec.rating >= min_score {
            v.push(rec.cloned());
        }
        i += 1;
    }
    proof {
        assert(store.rows().take(n as int) =~= store.rows());
    }
    v
}

proof fn lemma_ids_unique_insert(r: Seq<Record>, p: int, x: Record)
    requires
        ids_unique(r),
        0 <= p <= r.len(),
        forall|i: int| 0 <= i < r.len() ==> (#[trigger] r[i]).id@ != x.id@,
    ensures
        ids_unique(r.insert(p, x)),
{
    r.insert_ensures(p, x);
    let rn = r.insert(p, x);
    assert forall|a: int, b: int| 0 <= a < b < rn.len() implies rn[a].id@ != rn[b].id@ by {
        if a < p {
            assert(rn[a] == r[a]);
        } else if a == p {
            assert(rn[a] == x);
        } else {
            assert(rn[a] == r[a - 1]);
        }
        if b < p {
            assert(rn[b] == r[b]);
        } else if b == p {
            assert(rn[b] == x);
        } else {
            assert(rn[b] == r[b - 1]);
        }
    }
}

/// Sorts the viable subset by ascending play count.  The result is a
/// permutation of the input; identifiers stay pairwise distinct.
pub fn sort_by_games(v: Vec<Record>) -> (r: Vec<Record>)
    requires
        ids_unique(v@),
    ensures
        sorted_by_games(r@),
        r@.to_multiset() == v@.to_multiset(),
        r@.len() == v@.len(),
        ids_unique(r@),
{
    broadcast use vstd::seq_lib::to_multiset_build;
    broadcast use vstd::seq_lib::to_multiset_insert;
    broadcast use vstd::seq_lib::to_multiset_contains;

    let n = v.len();
    let mut r: Vec<Record> = Vec::new();
    let mut idx: usize = 0;
    proof {
        assert(v@.take(0) =~= Seq::<Record>::empty());
        assert(r@.to_multiset() =~= v@.take(0).to_multiset());
    }
    while idx < n
        invariant
            n == v@.len(),
            idx <= n,
            ids_unique(v@),
            sorted_by_games(r@),
            ids_unique(r@),
            r@.len() == idx,
            r@.to_multiset() == v@.take(idx as int).to_multiset(),
        decreases n - idx,
    {
        broadcast use vstd::seq_lib::to_multiset_build;
        broadcast use vstd::seq_lib::to_multiset_insert;
        broadcast use vstd::seq_lib::to_multiset_contains;

        let x = (&v[idx]).cloned();
        let rl = r.len();
        let mut p: usize = 0;
        while p < rl && r[p].games <= x.games
            invariant
                rl == r@.len(),
                p <= rl,
                x == v@[idx as int],
                forall|q: int| 0 <= q < p ==> (#[trigger] r@[q]).games <= x.games,
            decreases rl - p,
        {
            p += 1;
        }
        proof {
            let ghost old_r = r@;
            // the inserted identifier is fresh
            assert forall|m: int| 0 <= m < old_r.len() implies (#[trigger] old_r[m]).id@
                != x.id@ by {
                if old_r[m].id@ == x.id@ {
                    assert(old_r.contains(old_r[m]));
                    assert(old_r.to_multiset().count(old_r[m]) > 0);
                    assert(v@.take(idx as int).contains(old_r[m]));
                    let w = choose|j: int| 0 <= j < idx as int && v@.take(idx as int)[j]
                        == old_r[m];
                    assert(v@[w].id@ == v@[idx as int].id@);
                    assert(false);
                }
            }
            lemma_ids_unique_insert(old_r, p as int, x);
            old_r.insert_ensures(p as int, x);
        }
        let ghost pre_insert = r@;
        r.insert(p, x);
        proof {
            assert(v@.take(idx as int + 1).drop_last() =~= v@.take(idx as int));
            assert(v@.take(idx as int + 1) =~= v@.take(idx as int).push(v@[idx as int]));
            assert(r@.to_multiset() == pre_insert.to_multiset().insert(x));
            assert(v@.take(idx as int + 1).to_multiset() == v@.take(
                idx as int,
            ).to_multiset().insert(v@[idx as int]));
            assert forall|a: int, b: int| 0 <= a <= b < r@.len() implies r@[a].games
                <= r@[b].games by {
                pre_insert.insert_ensures(p as int, x);
                if a < p {
                    assert(r@[a] == pre_insert[a]);
                } else if a == p {
                    assert(r@[a] == x);
                } else {
                    assert(r@[a] == pre_insert[a - 1]);
                }
                if b < p {
                    assert(r@[b] == pre_insert[b]);
                } else if b == p {
                    assert(r@[b] == x);
                } else {
                    assert(r@[b] == pre_insert[b - 1]);
                }
                if a == p && b > p {
                    assert(pre_insert[p as int].games > x.games);
                    assert(pre_insert[p as int].games <= pre_insert[b - 1].games);
                }
            }
        }
        idx += 1;
    }
    proof {
        assert(v@.take(n as int) =~= v@);
    }
    r
}

/// The running state of the eligibility scan after the first `k` records:
/// the pool built so far and the remaining inclusion chances, in tenths.
pub open spec fn pool_state(s: Seq<Record>, thr: int, draws: Seq<u64>, k: int) -> (
    Seq<Record>,
    int,
)
    decreases k,
{
    if k <= 0 {
        (Seq::empty(), 10)
    } else {
        let prev = pool_state(s, thr, draws, k - 1);
        let rec = s[k - 1];
        if (rec.games as int) < thr {
            (prev.0.push(rec), prev.1)
        } else if rec.games as int == thr && prev.1 > 0 && (draws[k - 1] as int) < prev.1 {
            (prev.0.push(rec), prev.1 - 1)
        } else {
            prev
        }
    }
}

/// The round's eligible pool: a deterministic function of the sorted viable
/// records, the play-count threshold and the drawn random values.  A record
/// under the threshold always joins; a record at the threshold joins when its
/// draw falls below the running chance, which starts at ten tenths and loses
/// a tenth at each such admission; a record above the threshold never joins.
pub open spec fn pool_of(s: Seq<Record>, thr: int, draws: Seq<u64>) -> Seq<Record> {
    pool_state(s, thr, draws, s.len() as int).0
}

/// The round's play-count threshold: the count of the record one third of
/// the way up the ascending order.
pub open spec fn threshold_of(s: Seq<Record>) -> int {
    s[s.len() as int / 3].games as int
}

/// The eligible pool of a round that sorted the viable records as `s` and
/// drew the values `draws`.
pub open spec fn round_pool(s: Seq<Record>, draws: Seq<u64>) -> Seq<Record> {
    pool_of(s, threshold_of(s), draws)
}

proof fn lemma_pool_state_props(s: Seq<Record>, thr: int, draws: Seq<u64>, k: int)
    requires
        0 <= k <= s.len(),
    ensures
        0 <= pool_state(s, thr, draws, k).1 <= 10,
        pool_state(s, thr, draws, k).1 >= 10 - pool_state(s, thr, draws, k).0.len(),
        pool_state(s, thr, draws, k).0.len() <= k,
        pool_state(s, thr, draws, k - 1).0.len() <= pool_state(s, thr, draws, k).0.len(),
        forall|i: int| 0 <= i < pool_state(s, thr, draws, k).0.len() ==> (#[trigger] pool_state(
            s,
            thr,
            draws,
            k,
        ).0[i]).games <= thr && (exists|j: int| 0 <= j < k && s[j] == pool_state(
            s,
            thr,
            draws,
            k,
        ).0[i]),
        forall|j: int| 0 <= j < k && ((#[trigger] s[j]).games as int) < thr ==> pool_state(
            s,
            thr,
            draws,
            k,
        ).0.contains(s[j]),
        ids_unique(s) ==> ids_unique(pool_state(s, thr, draws, k).0),
    decreases k,
{
    if k > 0 {
        lemma_pool_state_props(s, thr, draws, k - 1);
        let prev = pool_state(s, thr, draws, k - 1);
        let cur = pool_state(s, thr, draws, k);
        assert forall|j: int| 0 <= j < k && ((#[trigger] s[j]).games as int) < thr implies cur
            .0.contains(s[j]) by {
            if j < k - 1 {
                assert(prev.0.contains(s[j]));
                let w = choose|i: int| 0 <= i < prev.0.len() && prev.0[i] == s[j];
                assert(cur.0[w] == s[j]);
            } else {
                assert(cur.0.last() == s[j]);
            }
        }
        if ids_unique(s) && cur.0.len() == prev.0.len() + 1 {
            assert forall|a: int, b: int| 0 <= a < b < cur.0.len() implies cur.0[a].id@
                != cur.0[b].id@ by {
                if b < prev.0.len() {
                    assert(prev.0[a].id@ != prev.0[b].id@);
                } else {
                    let w = choose|j: int| 0 <= j < k - 1 && s[j] == prev.0[a];
                    assert(s[w].id@ != s[k - 1].id@);
                }
            }
        }
    }
}

/// Whatever the draws, the eligible pool only admits records at or below the
/// threshold, and admits every record strictly below it: the least-played
/// records are never starved.
pub proof fn lemma_pool_balanced(s: Seq<Record>, thr: int, draws: Seq<u64>)
    ensures
        forall|i: int| 0 <= i < pool_of(s, thr, draws).len() ==> (#[trigger] pool_of(
            s,
            thr,
            draws,
        )[i]).games <= thr,
        forall|j: int| 0 <= j < s.len() && ((#[trigger] s[j]).games as int) < thr ==> pool_of(
            s,
            thr,
            draws,
        ).contains(s[j]),
{
    lemma_pool_state_props(s, thr, draws, s.len() as int);
}

proof fn lemma_pool_state_nonempty(s: Seq<Record>, thr: int, draws: Seq<u64>, k: int, j: int)
    requires
        0 <= j < k <= s.len(),
        (s[j].games as int) <= thr,
        forall|i: int| 0 <= i < draws.len() ==> (#[trigger] draws[i]) < 10,
        draws.len() == s.len(),
    ensures
        pool_state(s, thr, draws, k).0.len() >= 1,
    decreases k,
{
    lemma_pool_state_props(s, thr, draws, k - 1);
    lemma_pool_state_props(s, thr, draws, k);
    if j < k - 1 {
        lemma_pool_state_nonempty(s, thr, draws, k - 1, j);
    } else {
        let prev = pool_state(s, thr, draws, k - 1);
        if prev.0.len() == 0 {
            assert(prev.1 == 10);
            assert(draws[k - 1] < 10);
        }
    }
}

/// With one draw per record, a round whose viable subset holds any record at
/// or below the threshold never produces an empty pool: in particular the
/// first record tied at the threshold is always admitted.
pub proof fn lemma_pool_never_empty(s: Seq<Record>, thr: int, draws: Seq<u64>, j: int)
    requires
        0 <= j < s.len(),
        (s[j].games as int) <= thr,
        forall|i: int| 0 <= i < draws.len() ==> (#[trigger] draws[i]) < 10,
        draws.len() == s.len(),
    ensures
        pool_of(s, thr, draws).len() >= 1,
{
    lemma_pool_state_nonempty(s, thr, draws, s.len() as int, j);
}

/// Builds the round's eligible pool from the sorted viable records and one
/// drawn value per record.
pub fn eligible_pool(sorted: &Vec<Record>, thr: u64, draws: &Vec<u64>) -> (pool: Vec<Record>)
    requires
        draws@.len() == sorted@.len(),
    ensures
        pool@ == pool_of(sorted@, thr as int, draws@),
{
    let n = sorted.len();
    let mut pool: Vec<Record> = Vec::new();
    let mut c: u64 = 10;
    let mut k: usize = 0;
    proof {
        assert(pool@ =~= pool_state(sorted@, thr as int, draws@, 0).0);
    }
    while k < n
        invariant
            n == sorted@.len(),
            draws@.len() == n,
            k <= n,
            pool@ == pool_state(sorted@, thr as int, draws@, k as int).0,
            c as int == pool_state(sorted@, thr as int, draws@, k as int).1,
        decreases n - k,
    {
        let rec = &sorted[k];
        if rec.games < thr {
            pool.push(rec.cloned());
        } else if rec.games == thr && c > 0 && draws[k] < c {
            pool.push(rec.cloned());
            c -= 1;
        }
        k += 1;
    }
    pool
}

/// Why no pair could be offered.
#[derive(Clone, Copy, PartialEq, Eq, Structural, Debug)]
pub enum SelectError {
    /// Fewer than two records meet the rating cutoff.
    NotEnoughViable { count: usize },
    /// Fewer than two records entered this round's eligible pool.
    NotEnoughEligible { count: usize },
}

/// Chooses the next two distinct images to compare: filters the table by the
/// rating cutoff, orders by play count, takes the play count one third of the
/// way up as the round's threshold, forms the eligible pool with one random
/// draw per record, and picks two distinct members of the pool at random.
pub fn select_pair(store: &Store, min_score: i64, rng: &mut rand::rngs::StdRng) -> (r: Result<
    (String, String),
    SelectError,
>)
    requires
        store.wf(),
    ensures
        (match r {
            Ok(pair) => {
                &&& pair.0@ != pair.1@
                &&& has_rec(viable_of(store.rows(), min_score as int), pair.0@)
                &&& has_rec(viable_of(store.rows(), min_score as int), pair.1@)
                &&& viable_of(store.rows(), min_score as int).len() >= 2
                &&& (exists|sorted: Seq<Record>, draws: Seq<u64>|
                    #![trigger round_pool(sorted, draws)]
                    {
                        &&& sorted.to_multiset() == viable_of(
                            store.rows(),
                            min_score as int,
                        ).to_multiset()
                        &&& sorted_by_games(sorted)
                        &&& draws.len() == sorted.len()
                        &&& (forall|i: int| 0 <= i < draws.len() ==> (#[trigger] draws[i]) < 10)
                        &&& round_pool(sorted, draws).len() >= 2
                        &&& has_rec(round_pool(sorted, draws), pair.0@)
                        &&& has_rec(round_pool(sorted, draws), pair.1@)
                    })
            },
            Err(SelectError::NotEnoughViable { count }) => {
                &&& count == viable_of(store.rows(), min_score as int).len()
                &&& count < 2
            },
            Err(SelectError::NotEnoughEligible { count }) => {
                &&& viable_of(store.rows(), min_score as int).len() >= 2
                &&& count == 1
                &&& (exists|sorted: Seq<Record>, draws: Seq<u64>|
                    #![trigger round_pool(sorted, draws)]
                    {
                        &&& sorted.to_multiset() == viable_of(
                            store.rows(),
                            min_score as int,
                        ).to_multiset()
                        &&& sorted_by_games(sorted)
                        &&& draws.len() == sorted.len()
                        &&& (forall|i: int| 0 <= i < draws.len() ==> (#[trigger] draws[i]) < 10)
                        &&& round_pool(sorted, draws).len() == count
                    })
            },
        }),
{
    let viable = viable_records(store, min_score);
    let nv = viable.len();
    proof {
        lemma_viable_props(store.rows(), min_score as int);
    }
    if nv < 2 {
        return Err(SelectError::NotEnoughViable { count: nv });
    }
    let sorted = sort_by_games(viable);
    let n = sorted.len();
    proof {
        vstd::arithmetic::div_mod::lemma_div_is_strictly_smaller(n as int, 3);
    }
    let thr = sorted[n / 3].games;
    proof {
        assert(thr as int == threshold_of(sorted@));
    }
    let mut draws: Vec<u64> = Vec::new();
    let mut i: usize = 0;
    while i < n
        invariant
            i <= n,
            draws@.len() == i,
            forall|j: int| 0 <= j < i ==> (#[trigger] draws@[j]) < 10,
        decreases n - i,
    {
        let d = rng_below(rng, 10);
        draws.push(d);
        i += 1;
    }
    let pool = eligible_pool(&sorted, thr, &draws);
    proof {
        lemma_pool_state_props(sorted@, thr as int, draws@, sorted@.len() as int);
        assert(pool@ == round_pool(sorted@, draws@));
        lemma_pool_never_empty(sorted@, thr as int, draws@, n as int / 3);
    }
    if pool.len() < 2 {
        return Err(SelectError::NotEnoughEligible { count: pool.len() });
    }
    let np = pool.len();
    let a = rng_below(rng, np as u64) as usize;
    let b0 = rng_below(rng, (np - 1) as u64) as usize;
    let b = if b0 >= a {
        b0 + 1
    } else {
        b0
    };
    proof {
        assert(pool@[a as int].id@ != pool@[b as int].id@);
        let va = pool@[a as int];
        let vb = pool@[b as int];
        let w1 = choose|j: int| 0 <= j < sorted@.len() && sorted@[j] == va;
        let w2 = choose|j: int| 0 <= j < sorted@.len() && sorted@[j] == vb;
        assert(sorted@.contains(va) && sorted@.contains(vb)) by {
            assert(exists|j: int| 0 <= j < sorted@.len() && sorted@[j] == va);
            assert(exists|j: int| 0 <= j < sorted@.len() && sorted@[j] == vb);
        }
        broadcast use vstd::seq_lib::to_multiset_contains;

        assert(sorted@.to_multiset().count(va) > 0);
        assert(viable_of(store.rows(), min_score as int).to_multiset().count(va) > 0);
        assert(sorted@.to_multiset().count(vb) > 0);
        assert(viable_of(store.rows(), min_score as int).to_multiset().count(vb) > 0);
        assert(viable_of(store.rows(), min_score as int).contains(va));
        assert(viable_of(store.rows(), min_score as int).contains(vb));
        assert(has_rec(viable_of(store.rows(), min_score as int), va.id@)) by {
            let w = choose|j: int|
                0 <= j < viable_of(store.rows(), min_score as int).len() && viable_of(
                    store.rows(),
                    min_score as int,
                )[j] == va;
            assert(viable_of(store.rows(), min_score as int)[w].id@ == va.id@);
        }
        assert(has_rec(viable_of(store.rows(), min_score as int), vb.id@)) by {
            let w = choose|j: int|
                0 <= j < viable_of(store.rows(), min_score as int).len() && viable_of(
                    store.rows(),
                    min_score as int,
                )[j] == vb;
            assert(viable_of(store.rows(), min_score as int)[w].id@ == vb.id@);
        }
        assert(has_rec(pool@, va.id@));
        assert(has_rec(pool@, vb.id@));
    }
    let ida = (&pool[a]).id.clone();
    let idb = (&pool[b]).id.clone();
    Ok((ida, idb))
}

} // verus!
