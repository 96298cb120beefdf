use vstd::prelude::*;
use crate::elo::{INITIAL_RATING, RATING_LIMIT};

verus! {

/// One known image: its identifier, its rating in thousandths of an Elo
/// point, and how many comparisons it has taken part in.
pub struct Record {
    pub id: String,
    pub rating: i64,
    pub games: u64,
}

impl Record {
    /// The rating lies in the representable range.
    pub open spec fn valid(self) -> bool {
        -RATING_LIMIT <= self.rating <= RATING_LIMIT
    }

    /// An exact copy of this record.
    pub fn cloned(&self) -> (c: Record)
        ensures
            c == *self,
    {
        Record { id: self.id.clone(), rating: self.rating, games: self.games }
    }
}

/// No identifier occurs twice.
pub open spec fn ids_unique(s: Seq<Record>) -> bool {
    forall|i: int, j: int| 0 <= i < j < s.len() ==> s[i].id@ != s[j].id@
}

pub proof fn lemma_idx_unique(s: Seq<Record>, i: int, j: int)
    requires
        ids_unique(s),
        0 <= i < s.len(),
        0 <= j < s.len(),
        s[i].id@ == s[j].id@,
    ensures
        i == j,
{
    if i < j {
        assert(s[i].id@ != s[j].id@);
    }
    if j < i {
        assert(s[j].id@ != s[i].id@);
    }
}

/// In-memory rating table: records with pairwise distinct identifiers.
pub struct Store {
    pub records: Vec<Record>,
}

impl Store {
    pub open spec fn rows(self) -> Seq<Record> {
        self.records@
    }

    pub open spec fn wf(self) -> bool {
        &&& ids_unique(self.rows())
        &&& forall|i: int| 0 <= i < self.rows().len() ==> self.rows()[i].valid()
    }

    pub open spec fn has_id(self, id: Seq<char>) -> bool {
        exists|i: int| 0 <= i < self.rows().len() && self.rows()[i].id@ == id
    }

    pub open spec fn idx_of(self, id: Seq<char>) -> int {
        choose|i: int| 0 <= i < self.rows().len() && self.rows()[i].id@ == id
    }

    pub open spec fn rating_of(self, id: Seq<char>) -> int {
        self.rows()[self.idx_of(id)].rating as int
    }

    pub open spec fn games_of(self, id: Seq<char>) -> int {
        self.rows()[self.idx_of(id)].games as int
    }

    /// The table seen as a map from identifier to (rating, games played).
    pub open spec fn as_map(self) -> Map<Seq<char>, (int, int)> {
        Map::new(
            |id: Seq<char>| self.has_id(id),
            |id: Seq<char>| (self.rating_of(id), self.games_of(id)),
        )
    }

    pub fn new() -> (r: Store)
        ensures
            r.wf(),
            r.rows().len() == 0,
            r.as_map() == Map::<Seq<char>, (int, int)>::empty(),
    {
        let r = Store { records: Vec::new() };
        proof {
            assert(r.as_map() =~= Map::<Seq<char>, (int, int)>::empty());
        }
        r
    }

    pub fn len(&self) -> (n: usize)
        ensures
            n == self.rows().len(),
    {
        self.records.len()
    }

    pub fn row(&self, i: usize) -> (r: &Record)
        requires
            i < self.rows().len(),
        ensures
            *r == self.rows()[i as int],
    {
        &self.records[i]
    }

    pub fn has(&self, id: &String) -> (r: bool)
        ensures
            r == self.has_id(id@),
    {
        let n = self.records.len();
        let mut i: usize = 0;
        while i < n
            invariant
                n == self.rows().len(),
                i <= n,
                forall|j: int| 0 <= j < i ==> self.rows()[j].id@ != id@,
            decreases n - i,
        {
            let rec = &self.records[i];
            if rec.id == *id {
                return true;
            }
            i += 1;
        }
        false
    }

    pub fn get(&self, id: &String) -> (r: Option<(i64, u64)>)
        requires
            self.wf(),
        ensures
            r is Some <==> self.has_id(id@),
            (match r {
                Some(v) => self.has_id(id@) && v.0 as int == self.rating_of(id@)
                    && v.1 as int == self.games_of(id@),
                None => !self.has_id(id@),
            }),
    {
        let n = self.records.len();
        let mut i: usize = 0;
        while i < n
            invariant
                self.wf(),
                n == self.rows().len(),
                i <= n,
                forall|j: int| 0 <= j < i ==> self.rows()[j].id@ != id@,
            decreases n - i,
        {
            let rec = &self.records[i];
            if rec.id == *id {
                proof {
                    lemma_idx_unique(self.rows(), i as int, self.idx_of(id@));
                }
                return Some((rec.rating, rec.games));
            }
            i += 1;
        }
        None
    }

    pub fn put(&mut self, id: String, rating: i64, games: u64)
        requires
            old(self).wf(),
            -RATING_LIMIT <= rating <= RATING_LIMIT,
        ensures
            final(self).wf(),
            final(self).as_map() == old(self).as_map().insert(
                id@,
                (rating as int, games as int),
            ),
            final(self).rows().len() == old(self).rows().len() + (
                if old(self).has_id(id@) { 0int } else { 1int }
            ),
    {
        let n = self.records.len();
        let mut i: usize = 0;
        while i < n
            invariant
                self.wf(),
                self == old(self),
                -RATING_LIMIT <= rating <= RATING_LIMIT,
                n == self.rows().len(),
                i <= n,
                forall|j: int| 0 <= j < i ==> self.rows()[j].id@ != id@,
            decreases n - i,
        {
            let rec = &self.records[i];
            if rec.id == id {
                self.records.set(i, Record { id, rating, games });
                proof {
                    let newer = *self;
                    let older = *old(self);
                    let ii = i as int;
                    assert(newer.rows().len() == older.rows().len());
                    assert(newer.rows()[ii].id@ == id@ && id@ == older.rows()[ii].id@);
                    assert(forall|j: int| 0 <= j < newer.rows().len() && j != ii
                        ==> newer.rows()[j] == older.rows()[j]);
                    assert(forall|j: int| 0 <= j < newer.rows().len()
                        ==> newer.rows()[j].id@ == older.rows()[j].id@);
                    assert forall|a: int, b: int| 0 <= a < b < newer.rows().len()
                        implies newer.rows()[a].id@ != newer.rows()[b].id@ by {
                        assert(older.rows()[a].id@ != older.rows()[b].id@);
                    }
                    assert(newer.rows()[ii].rating == rating);
                    assert(newer.rows()[ii].valid());
                    assert forall|j: int| 0 <= j < newer.rows().len() && j != ii
                        implies newer.rows()[j].valid() by {
                        assert(newer.rows()[j] == older.rows()[j]);
                        assert(older.rows()[j].valid());
                    }
                    assert(forall|j: int| 0 <= j < newer.rows().len()
                        ==> newer.rows()[j].valid());
                    assert forall|key: Seq<char>| true implies {
                        &&& newer.has_id(key) == older.has_id(key)
                        &&& (newer.has_id(key) && key != id@ ==> {
                            &&& newer.rating_of(key) == older.rating_of(key)
                            &&& newer.games_of(key) == older.games_of(key)
                        })
                    } by {
                        if older.has_id(key) {
                            let w = older.idx_of(key);
                            assert(newer.rows()[w].id@ == key);
                            assert(newer.has_id(key));
                        }
                        if newer.has_id(key) {
                            let w = newer.idx_of(key);
                            assert(older.rows()[w].id@ == key);
                            assert(older.has_id(key));
                            if key != id@ {
                                lemma_idx_unique(older.rows(), w, older.idx_of(key));
                                assert(w != ii);
                                assert(newer.rows()[w] == older.rows()[w]);
                            }
                        }
                    }
                    lemma_idx_unique(newer.rows(), ii, newer.idx_of(id@));
                    assert(newer.rating_of(id@) == rating as int);
                    assert(newer.games_of(id@) == games as int);
                    assert(older.has_id(id@));
                    assert(newer.as_map() =~= older.as_map().insert(
                        id@,
                        (rating as int, games as int),
                    ));
                }
                return;
            }
            i += 1;
        }
        self.records.push(Record { id, rating, games });
        proof {
            let newer = *self;
            let older = *old(self);
            let last = older.rows().len() as int;
            assert(newer.rows().len() == older.rows().len() + 1);
            assert(newer.rows()[last].id@ == id@);
            assert(newer.rows()[last].rating == rating && newer.rows()[last].games == games);
            assert(forall|j: int| 0 <= j < last ==> newer.rows()[j] == older.rows()[j]);
            assert(!older.has_id(id@));
            assert forall|a: int, b: int| 0 <= a < b < newer.rows().len()
                implies newer.rows()[a].id@ != newer.rows()[b].id@ by {
                if b < last {
                    assert(older.rows()[a].id@ != older.rows()[b].id@);
                } else {
                    assert(older.rows()[a].id@ != id@);
                }
            }
            assert forall|j: int| 0 <= j < newer.rows().len()
                implies newer.rows()[j].valid() by {
                if j != last {
                    assert(older.rows()[j].valid());
                }
            }
            assert forall|key: Seq<char>| true implies {
                &&& (older.has_id(key) ==> newer.has_id(key))
                &&& (newer.has_id(key) && key != id@ ==> {
                    &&& older.has_id(key)
                    &&& newer.rating_of(key) == older.rating_of(key)
                    &&& newer.games_of(key) == older.games_of(key)
                })
            } by {
                if older.has_id(key) {
                    let w = older.idx_of(key);
                    assert(newer.rows()[w].id@ == key);
                    assert(newer.has_id(key));
                }
                if newer.has_id(key) {
                    let w = newer.idx_of(key);
                    if key != id@ {
                        assert(newer.rows()[w].id@ == key);
                        assert(w != last);
                        assert(older.rows()[w].id@ == key);
                        assert(older.has_id(key));
                        lemma_idx_unique(older.rows(), w, older.idx_of(key));
                        assert(newer.rows()[w] == older.rows()[w]);
                    }
                }
            }
            lemma_idx_unique(newer.rows(), last, newer.idx_of(id@));
            assert(newer.has_id(id@));
            assert(newer.rating_of(id@) == rating as int);
            assert(newer.games_of(id@) == games as int);
            assert(newer.as_map() =~= older.as_map().insert(
                id@,
                (rating as int, games as int),
            ));
        }
    }
}

/// Does the sequence of discovered identifiers contain `id`?
pub open spec fn discovered_has(d: Seq<String>, id: Seq<char>) -> bool {
    exists|i: int| 0 <= i < d.len() && d[i]@ == id
}

/// The persisted rows as a map; a later row for the same identifier wins.
pub open spec fn persisted_map(p: Seq<Record>) -> Map<Seq<char>, (int, int)>
    decreases p.len(),
{
    if p.len() == 0 {
        Map::empty()
    } else {
        persisted_map(p.drop_last()).insert(
            p.last().id@,
            (p.last().rating as int, p.last().games as int),
        )
    }
}

/// The merged table: the persisted rows, then a default record for every
/// discovered identifier not already present.
pub open spec fn merged_map(p: Seq<Record>, d: Seq<String>) -> Map<Seq<char>, (int, int)>
    decreases d.len(),
{
    if d.len() == 0 {
        persisted_map(p)
    } else {
        let m = merged_map(p, d.drop_last());
        if m.contains_key(d.last()@) {
            m
        } else {
            m.insert(d.last()@, (INITIAL_RATING as int, 0int))
        }
    }
}

pub fn contains_id(d: &Vec<String>, id: &String) -> (r: bool)
    ensures
        r == discovered_has(d@, id@),
{
    let n = d.len();
    let mut i: usize = 0;
    while i < n
        invariant
            n == d@.len(),
            i <= n,
            forall|j: int| 0 <= j < i ==> d@[j]@ != id@,
        decreases n - i,
    {
        if d[i] == *id {
            return true;
        }
        i += 1;
    }
    false
}

/// Builds the session's rating table: keeps every persisted row, and adds a
/// default record for every discovered identifier that has none.  Fails with
/// the offending identifier when a persisted row names an image that was not
/// discovered.
pub fn build_store(persisted: &Vec<Record>, discovered: &Vec<String>) -> (r: Result<
    Store,
    String,
>)
    requires
        forall|i: int| 0 <= i < persisted@.len() ==> (#[trigger] persisted@[i]).valid(),
    ensures
        (r is Err) <==> (exists|i: int| 0 <= i < persisted@.len()
            && !discovered_has(discovered@, (#[trigger] persisted@[i]).id@)),
        (match r {
            Ok(st) => st.wf() && st.as_map() == merged_map(persisted@, discovered@),
            Err(id) => exists|i: int| 0 <= i < persisted@.len()
                && (#[trigger] persisted@[i]).id@ == id@
                && !discovered_has(discovered@, persisted@[i].id@),
        }),
{
    let mut st = Store::new();
    let np = persisted.len();
    let mut i: usize = 0;
    proof {
        assert(persisted@.take(0) =~= Seq::<Record>::empty());
        assert(st.as_map() =~= persisted_map(persisted@.take(0)));
    }
    while i < np
        invariant
            st.wf(),
            np == persisted@.len(),
            i <= np,
            forall|k: int| 0 <= k < persisted@.len() ==> (#[trigger] persisted@[k]).valid(),
            st.as_map() == persisted_map(persisted@.take(i as int)),
            forall|j: int| 0 <= j < i ==> discovered_has(
                discovered@,
                (#[trigger] persisted@[j]).id@,
            ),
        decreases np - i,
    {
        let rec = &persisted[i];
        if !contains_id(discovered, &rec.id) {
            return Err(rec.id.clone());
        }
        st.put(rec.id.clone(), rec.rating, rec.games);
        proof {
            assert(persisted@.take(i as int + 1).drop_last() =~= persisted@.take(i as int));
            assert(persisted@.take(i as int + 1).last() == persisted@[i as int]);
        }
        i += 1;
    }
    proof {
        assert(persisted@.take(np as int) =~= persisted@);
    }
    let nd = discovered.len();
    let mut j: usize = 0;
    proof {
        assert(discovered@.take(0) =~= Seq::<String>::empty());
        assert(merged_map(persisted@, discovered@.take(0)) == persisted_map(persisted@));
    }
    while j < nd
        invariant
            st.wf(),
            nd == discovered@.len(),
            j <= nd,
            st.as_map() == merged_map(persisted@, discovered@.take(j as int)),
        decreases nd - j,
    {
        let d = &discovered[j];
        let present = st.has(d);
        proof {
            assert(discovered@.take(j as int + 1).drop_last() =~= discovered@.take(j as int));
            assert(discovered@.take(j as int + 1).last() == discovered@[j as int]);
            assert(st.as_map().contains_key(d@) == st.has_id(d@));
        }
        if !present {
            st.put(d.clone(), INITIAL_RATING, 0);
        }
        j += 1;
    }
    proof {
        assert(discovered@.take(nd as int) =~= discovered@);
    }
    Ok(st)
}

proof fn lemma_unique_prefix(p: Seq<Record>)
    requires
        ids_unique(p),
        p.len() > 0,
    ensures
        ids_unique(p.drop_last()),
        forall|i: int| 0 <= i < p.len() - 1 ==> (#[trigger] p[i].id@) != p.last().id@,
{
    assert forall|a: int, b: int| 0 <= a < b < p.drop_last().len()
        implies p.drop_last()[a].id@ != p.drop_last()[b].id@ by {
        assert(p[a].id@ != p[b].id@);
    }
    assert forall|i: int| 0 <= i < p.len() - 1 implies (#[trigger] p[i].id@) != p.last().id@ by {
        assert(p[i].id@ != p[p.len() - 1].id@);
    }
}

proof fn lemma_persisted_map_props(p: Seq<Record>)
    requires
        ids_unique(p),
    ensures
        forall|id: Seq<char>| #[trigger] persisted_map(p).contains_key(id) <==> (exists|i: int|
            0 <= i < p.len() && (#[trigger] p[i]).id@ == id),
        forall|i: int| 0 <= i < p.len() ==> persisted_map(p).contains_key((#[trigger] p[i]).id@)
            && persisted_map(p)[p[i].id@] == (p[i].rating as int, p[i].games as int),
    decreases p.len(),
{
    if p.len() > 0 {
        lemma_unique_prefix(p);
        lemma_persisted_map_props(p.drop_last());
        let pre = p.drop_last();
        let last = p.last();
        assert forall|id: Seq<char>| #[trigger] persisted_map(p).contains_key(id) implies (
        exists|i: int| 0 <= i < p.len() && (#[trigger] p[i]).id@ == id) by {
            if id == last.id@ {
                assert(p[p.len() - 1].id@ == id);
            } else {
                assert(persisted_map(pre).contains_key(id));
                let w = choose|i: int| 0 <= i < pre.len() && (#[trigger] pre[i]).id@ == id;
                assert(p[w].id@ == id);
            }
        }
        assert forall|id: Seq<char>| (exists|i: int| 0 <= i < p.len() && (#[trigger] p[i]).id@
            == id) implies #[trigger] persisted_map(p).contains_key(id) by {
            let w = choose|i: int| 0 <= i < p.len() && (#[trigger] p[i]).id@ == id;
            if w < p.len() - 1 {
                assert(pre[w].id@ == id);
                assert(persisted_map(pre).contains_key(id));
            }
        }
        assert forall|i: int| 0 <= i < p.len() implies persisted_map(p).contains_key(
            (#[trigger] p[i]).id@,
        ) && persisted_map(p)[p[i].id@] == (p[i].rating as int, p[i].games as int) by {
            if i < p.len() - 1 {
                assert(pre[i] == p[i]);
                assert(persisted_map(pre)[p[i].id@] == (p[i].rating as int, p[i].games as int));
                assert(p[i].id@ != last.id@);
            }
        }
    }
}

proof fn lemma_merged_one(p: Seq<Record>, d: Seq<String>, id: Seq<char>)
    ensures
        persisted_map(p).contains_key(id) ==> merged_map(p, d).contains_key(id)
            && merged_map(p, d)[id] == persisted_map(p)[id],
        discovered_has(d, id) && !persisted_map(p).contains_key(id) ==> merged_map(
            p,
            d,
        ).contains_key(id) && merged_map(p, d)[id] == (INITIAL_RATING as int, 0int),
        merged_map(p, d).contains_key(id) ==> persisted_map(p).contains_key(id)
            || discovered_has(d, id),
    decreases d.len(),
{
    if d.len() > 0 {
        lemma_merged_one(p, d.drop_last(), id);
        let pre = d.drop_last();
        let m = merged_map(p, pre);
        if discovered_has(d, id) && id != d.last()@ {
            let w = choose|i: int| 0 <= i < d.len() && (#[trigger] d[i])@ == id;
            assert(w < d.len() - 1);
            assert(pre[w]@ == id);
            assert(discovered_has(pre, id));
        }
        if discovered_has(pre, id) {
            let w = choose|i: int| 0 <= i < pre.len() && (#[trigger] pre[i])@ == id;
            assert(d[w]@ == id);
            assert(discovered_has(d, id));
        }
        if id == d.last()@ {
            assert(d[d.len() - 1]@ == id);
            assert(discovered_has(d, id));
            if !persisted_map(p).contains_key(id) {
                if m.contains_key(id) {
                    assert(discovered_has(pre, id));
                    assert(m[id] == (INITIAL_RATING as int, 0int));
                    assert(merged_map(p, d) == m);
                } else {
                    assert(merged_map(p, d) == m.insert(id, (INITIAL_RATING as int, 0int)));
                }
            }
        }
    }
}

/// Merge invariant: for persisted rows P with distinct identifiers and
/// discovered identifiers D, the merged table holds every identifier of P
/// with its persisted rating and count unchanged, holds every identifier of
/// D that P lacks with the default rating and a zero count, and holds no
/// other identifier.
pub proof fn lemma_merge_invariant(p: Seq<Record>, d: Seq<String>)
    requires
        ids_unique(p),
    ensures
        forall|i: int| 0 <= i < p.len() ==> merged_map(p, d).contains_key(
            (#[trigger] p[i]).id@,
        ) && merged_map(p, d)[p[i].id@] == (p[i].rating as int, p[i].games as int),
        forall|id: Seq<char>| discovered_has(d, id) && (forall|i: int| 0 <= i < p.len()
            ==> (#[trigger] p[i]).id@ != id) ==> #[trigger] merged_map(p, d).contains_key(id)
            && merged_map(p, d)[id] == (INITIAL_RATING as int, 0int),
        forall|id: Seq<char>| #[trigger] merged_map(p, d).contains_key(id)
            ==> (exists|i: int| 0 <= i < p.len() && (#[trigger] p[i]).id@ == id)
                || discovered_has(d, id),
{
    lemma_persisted_map_props(p);
    assert forall|i: int| 0 <= i < p.len() implies merged_map(p, d).contains_key(
        (#[trigger] p[i]).id@,
    ) && merged_map(p, d)[p[i].id@] == (p[i].rating as int, p[i].games as int) by {
        lemma_merged_one(p, d, p[i].id@);
    }
    assert forall|id: Seq<char>| discovered_has(d, id) && (forall|i: int| 0 <= i < p.len()
        ==> (#[trigger] p[i]).id@ != id) implies #[trigger] merged_map(p, d).contains_key(id)
        && merged_map(p, d)[id] == (INITIAL_RATING as int, 0int) by {
        lemma_merged_one(p, d, id);
        if persisted_map(p).contains_key(id) {
            let w = choose|i: int| 0 <= i < p.len() && (#[trigger] p[i]).id@ == id;
            assert(p[w].id@ != id);
        }
    }
    assert forall|id: Seq<char>| #[trigger] merged_map(p, d).contains_key(id)
        implies (exists|i: int| 0 <= i < p.len() && (#[trigger] p[i]).id@ == id)
            || discovered_has(d, id) by {
        lemma_merged_one(p, d, id);
    }
}

} // verus!
