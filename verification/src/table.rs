//! The aggregate mapping: per-frame record lists folded into one key/value
//! table with last-write-wins key resolution, and the strategies for
//! combining per-frame results.
//!
//! The table's mathematical model is a finite map from key characters to
//! values.  The fold of record lists into the table, and the pairwise
//! size-biased merge used by the reduction strategy, are specified exactly;
//! the laws at the end show that with globally distinct keys every strategy
//! converges to the same mapping.

use vstd::prelude::*;

use crate::records::pairs_view;
use crate::Mode;

verus! {

/// `m` after inserting every pair in order: a later pair with the same key
/// overwrites an earlier one.
pub open spec fn fold_pairs(
    m: Map<Seq<char>, u64>,
    pairs: Seq<(Seq<char>, u64)>,
) -> Map<Seq<char>, u64>
    decreases pairs.len(),
{
    if pairs.len() == 0 {
        m
    } else {
        fold_pairs(m, pairs.drop_last()).insert(pairs.last().0, pairs.last().1)
    }
}

/// The mapping a list of pairs folds to on its own.
pub open spec fn pair_map(pairs: Seq<(Seq<char>, u64)>) -> Map<Seq<char>, u64> {
    fold_pairs(Map::empty(), pairs)
}

/// True when no two pairs share a key.
pub open spec fn distinct_keys(pairs: Seq<(Seq<char>, u64)>) -> bool {
    forall|i: int, j: int| 0 <= i < j < pairs.len() ==> pairs[i].0 != pairs[j].0
}

/// True when some pair carries key `k`.
pub open spec fn key_in(pairs: Seq<(Seq<char>, u64)>, k: Seq<char>) -> bool {
    exists|i: int| 0 <= i < pairs.len() && pairs[i].0 == k
}

/// Folding pairs into `m` reaches exactly the keys of `m` and of the pairs.
pub proof fn lemma_fold_pairs_contains_at(
    m: Map<Seq<char>, u64>,
    pairs: Seq<(Seq<char>, u64)>,
    k: Seq<char>,
)
    ensures
        fold_pairs(m, pairs).contains_key(k) <==> m.contains_key(k) || key_in(pairs, k),
    decreases pairs.len(),
{
    if pairs.len() > 0 {
        lemma_fold_pairs_contains_at(m, pairs.drop_last(), k);
        if key_in(pairs.drop_last(), k) {
            let i = choose|i: int| 0 <= i < pairs.drop_last().len() && pairs.drop_last()[i].0 == k;
            assert(pairs[i].0 == k);
        }
        if k == pairs.last().0 {
            assert(pairs[pairs.len() - 1].0 == k);
        }
        if key_in(pairs, k) && k != pairs.last().0 {
            let i = choose|i: int| 0 <= i < pairs.len() && pairs[i].0 == k;
            assert(pairs.drop_last()[i].0 == k);
        }
    }
}

/// Folding pairs into a finite mapping keeps its domain finite.
pub proof fn lemma_fold_pairs_finite(m: Map<Seq<char>, u64>, pairs: Seq<(Seq<char>, u64)>)
    requires
        m.dom().finite(),
    ensures
        fold_pairs(m, pairs).dom().finite(),
    decreases pairs.len(),
{
    if pairs.len() > 0 {
        lemma_fold_pairs_finite(m, pairs.drop_last());
        vstd::set::axiom_set_insert_finite(fold_pairs(m, pairs.drop_last()).dom(), pairs.last().0);
    }
}

/// Folding pairs into `m` is the union of `m` with the pairs' own mapping,
/// the pairs winning on shared keys.
pub proof fn lemma_fold_pairs_union(m: Map<Seq<char>, u64>, pairs: Seq<(Seq<char>, u64)>)
    ensures
        fold_pairs(m, pairs) == m.union_prefer_right(pair_map(pairs)),
    decreases pairs.len(),
{
    if pairs.len() == 0 {
        assert(fold_pairs(m, pairs) =~= m.union_prefer_right(pair_map(pairs)));
    } else {
        lemma_fold_pairs_union(m, pairs.drop_last());
        assert(fold_pairs(m, pairs) =~= m.union_prefer_right(pair_map(pairs)));
    }
}

/// Folding a concatenation folds the two halves in turn.
pub proof fn lemma_fold_pairs_concat(
    m: Map<Seq<char>, u64>,
    p1: Seq<(Seq<char>, u64)>,
    p2: Seq<(Seq<char>, u64)>,
)
    ensures
        fold_pairs(m, p1 + p2) == fold_pairs(fold_pairs(m, p1), p2),
    decreases p2.len(),
{
    if p2.len() == 0 {
        assert(p1 + p2 =~= p1);
    } else {
        lemma_fold_pairs_concat(m, p1, p2.drop_last());
        assert((p1 + p2).drop_last() =~= p1 + p2.drop_last());
        assert((p1 + p2).last() == p2.last());
    }
}

/// With distinct keys, each pair is found in the fold exactly as written.
pub proof fn lemma_pair_map_get(pairs: Seq<(Seq<char>, u64)>, i: int)
    requires
        distinct_keys(pairs),
        0 <= i < pairs.len(),
    ensures
        pair_map(pairs).contains_key(pairs[i].0),
        pair_map(pairs)[pairs[i].0] == pairs[i].1,
    decreases pairs.len(),
{
    if i == pairs.len() - 1 {
    } else {
        assert(pairs.drop_last()[i] == pairs[i]);
        lemma_pair_map_get(pairs.drop_last(), i);
        assert(pairs[i].0 != pairs.last().0);
    }
}

/// With distinct keys, the fold has one key per pair.
pub proof fn lemma_pair_map_len(pairs: Seq<(Seq<char>, u64)>)
    requires
        distinct_keys(pairs),
    ensures
        pair_map(pairs).dom().finite(),
        pair_map(pairs).dom().len() == pairs.len(),
    decreases pairs.len(),
{
    lemma_fold_pairs_finite(Map::empty(), pairs);
    if pairs.len() > 0 {
        lemma_pair_map_len(pairs.drop_last());
        lemma_fold_pairs_contains_at(Map::empty(), pairs.drop_last(), pairs.last().0);
        if key_in(pairs.drop_last(), pairs.last().0) {
            let i = choose|i: int|
                0 <= i < pairs.drop_last().len() && pairs.drop_last()[i].0 == pairs.last().0;
            assert(pairs[i].0 == pairs[pairs.len() - 1].0);
        }
        vstd::set::axiom_set_insert_len(pair_map(pairs.drop_last()).dom(), pairs.last().0);
    }
}

/// With distinct keys, the fold holds exactly the written pairs.
pub proof fn lemma_pair_map_pair_at(pairs: Seq<(Seq<char>, u64)>, k: Seq<char>, v: u64)
    requires
        distinct_keys(pairs),
    ensures
        pair_map(pairs).contains_pair(k, v) <==> pairs.contains((k, v)),
    decreases pairs.len(),
{
    if pairs.len() > 0 {
        lemma_pair_map_pair_at(pairs.drop_last(), k, v);
        if k == pairs.last().0 {
            if pair_map(pairs).contains_pair(k, v) {
                assert(pairs[pairs.len() - 1] == (k, v));
                assert(pairs.contains((k, v)));
            }
            if pairs.contains((k, v)) {
                let i = choose|i: int| 0 <= i < pairs.len() && pairs[i] == (k, v);
                assert(i == pairs.len() - 1);
            }
        } else {
            if pair_map(pairs.drop_last()).contains_pair(k, v) {
                let i = choose|i: int|
                    0 <= i < pairs.drop_last().len() && pairs.drop_last()[i] == (k, v);
                assert(pairs[i] == (k, v));
                assert(pairs.contains((k, v)));
            }
            if pairs.contains((k, v)) {
                let i = choose|i: int| 0 <= i < pairs.len() && pairs[i] == (k, v);
                assert(pairs.drop_last()[i] == (k, v));
                assert(pairs.drop_last().contains((k, v)));
            }
        }
    }
}

/// The final key/value table of one decompression pass, with last-write-wins
/// key resolution.  Its model is the finite map from keys to values.
pub struct RecordTable {
    entries: Vec<(String, u64)>,
}

impl View for RecordTable {
    type V = Map<Seq<char>, u64>;

    closed spec fn view(&self) -> Map<Seq<char>, u64> {
        pair_map(pairs_view(self.entries@))
    }
}

impl RecordTable {
    /// The table's internal invariant: its backing entries hold one pair
    /// per key.
    pub closed spec fn wf(&self) -> bool {
        distinct_keys(pairs_view(self.entries@))
    }

    /// An empty table.
    pub fn new() -> (t: RecordTable)
        ensures
            t.wf(),
            t@ == Map::<Seq<char>, u64>::empty(),
    {
        let t = RecordTable { entries: Vec::new() };
        proof {
            assert(pairs_view(t.entries@) =~= Seq::<(Seq<char>, u64)>::empty());
        }
        t
    }

    fn find_key(&self, key: &String) -> (r: Option<usize>)
        ensures
            (match r {
                Some(i) => i < self.entries@.len() && self.entries@[i as int].0@ == key@,
                None => forall|i: int|
                    0 <= i < self.entries@.len() ==> self.entries@[i].0@ != key@,
            }),
    {
        let n = self.entries.len();
        let mut j: usize = 0;
        loop
            invariant_except_break
                j <= n,
                n == self.entries@.len(),
                forall|i: int| 0 <= i < j ==> self.entries@[i].0@ != key@,
            ensures
                (j < n && self.entries@[j as int].0@ == key@) || (j == n && forall|i: int|
                    0 <= i < n ==> self.entries@[i].0@ != key@),
            decreases n - j,
        {
            if j == n {
                break;
            }
            if self.entries[j].0 == *key {
                break;
            }
            j = j + 1;
        }
        if j < n {
            Some(j)
        } else {
            None
        }
    }

    /// Inserts one record; an existing record with the same key is
    /// overwritten (last write wins).
    pub fn insert(&mut self, key: String, value: u64)
        requires
            old(self).wf(),
        ensures
            final(self).wf(),
            final(self)@ == old(self)@.insert(key@, value),
    {
        let ghost pv = pairs_view(self.entries@);
        match self.find_key(&key) {
            Some(i) => {
                self.entries[i] = (key, value);
                proof {
                    assert(pairs_view(self.entries@) =~= pv.update(i as int, (pv[i as int].0, value)));
                    lemma_fold_pairs_update(pv, i as int, value);
                }
            },
            None => {
                self.entries.push((key, value));
                proof {
                    let pv2 = pairs_view(self.entries@);
                    assert(pv2 =~= pv.push((key@, value)));
                    assert(pv2.drop_last() =~= pv);
                }
            },
        }
    }

    /// The number of distinct keys the table holds.
    pub fn len(&self) -> (n: usize)
        requires
            self.wf(),
        ensures
            n == self@.dom().len(),
    {
        proof {
            lemma_pair_map_len(pairs_view(self.entries@));
        }
        self.entries.len()
    }

    /// Looks one key up.
    pub fn get(&self, key: &String) -> (r: Option<u64>)
        requires
            self.wf(),
        ensures
            (match r {
                Some(v) => self@.contains_pair(key@, v),
                None => !self@.contains_key(key@),
            }),
    {
        match self.find_key(key) {
            Some(i) => {
                proof {
                    lemma_pair_map_get(pairs_view(self.entries@), i as int);
                    assert(pairs_view(self.entries@)[i as int] == (
                        self.entries@[i as int].0@,
                        self.entries@[i as int].1,
                    ));
                }
                Some(self.entries[i].1)
            },
            None => {
                proof {
                    let pv = pairs_view(self.entries@);
                    assert forall|i: int| 0 <= i < pv.len() implies pv[i].0 != key@ by {
                        assert(pv[i] == (self.entries@[i].0@, self.entries@[i].1));
                    }
                    assert(!key_in(pv, key@));
                    lemma_fold_pairs_contains_at(Map::empty(), pv, key@);
                }
                None
            },
        }
    }

    /// Inserts every pair of one per-frame record list, in list order.
    pub fn insert_pairs(&mut self, pairs: &Vec<(String, u64)>)
        requires
            old(self).wf(),
        ensures
            final(self).wf(),
            final(self)@ == fold_pairs(old(self)@, pairs_view(pairs@)),
    {
        let n = pairs.len();
        let mut j: usize = 0;
        while j < n
            invariant
                j <= n,
                n == pairs@.len(),
                self.wf(),
                self@ == fold_pairs(old(self)@, pairs_view(pairs@).take(j as int)),
            decreases n - j,
        {
            let (key, value) = (pairs[j].0.clone(), pairs[j].1);
            self.insert(key, value);
            proof {
                let pv = pairs_view(pairs@);
                assert(pv.take(j + 1).drop_last() =~= pv.take(j as int));
                assert(pv.take(j + 1).last() == pv[j as int]);
            }
            j = j + 1;
        }
        proof {
            assert(pairs_view(pairs@).take(n as int) =~= pairs_view(pairs@));
        }
    }

    /// The table's records, one per key, each mapped as the table maps it.
    pub fn as_pairs(&self) -> (r: &Vec<(String, u64)>)
        requires
            self.wf(),
        ensures
            r@.len() == self@.dom().len(),
            forall|i: int| 0 <= i < r@.len() ==> self@.contains_pair(#[trigger] r@[i].0@, r@[i].1),
            distinct_keys(pairs_view(r@)),
            pair_map(pairs_view(r@)) == self@,
    {
        proof {
            lemma_pair_map_len(pairs_view(self.entries@));
            assert forall|i: int| 0 <= i < self.entries@.len() implies self@.contains_pair(
                #[trigger] self.entries@[i].0@,
                self.entries@[i].1,
            ) by {
                lemma_pair_map_get(pairs_view(self.entries@), i);
            }
        }
        &self.entries
    }
}

/// Overwriting the pair at `i` with a new value maps its key to that value
/// and changes nothing else.
proof fn lemma_fold_pairs_update(pairs: Seq<(Seq<char>, u64)>, i: int, v: u64)
    requires
        distinct_keys(pairs),
        0 <= i < pairs.len(),
    ensures
        distinct_keys(pairs.update(i, (pairs[i].0, v))),
        pair_map(pairs.update(i, (pairs[i].0, v))) == pair_map(pairs).insert(pairs[i].0, v),
    decreases pairs.len(),
{
    let u = pairs.update(i, (pairs[i].0, v));
    assert(distinct_keys(u));
    if i == pairs.len() - 1 {
        assert(u.drop_last() =~= pairs.drop_last());
        assert(u.last() == (pairs[i].0, v));
    } else {
        assert(u.drop_last() =~= pairs.drop_last().update(i, (pairs[i].0, v)));
        assert(pairs.drop_last()[i] == pairs[i]);
        lemma_fold_pairs_update(pairs.drop_last(), i, v);
        assert(u.last() == pairs.last());
        assert(pairs[i].0 != pairs.last().0);
        assert(pair_map(pairs.drop_last()).insert(pairs[i].0, v).insert(
            pairs.last().0,
            pairs.last().1,
        ) =~= pair_map(pairs.drop_last()).insert(pairs.last().0, pairs.last().1).insert(
            pairs[i].0,
            v,
        ));
    }
}

/// The pairwise combine of the reduction strategy: the smaller mapping is
/// folded into the larger one, so the smaller side wins shared keys.
pub open spec fn merge_maps(a: Map<Seq<char>, u64>, b: Map<Seq<char>, u64>) -> Map<Seq<char>, u64> {
    if a.dom().len() < b.dom().len() {
        b.union_prefer_right(a)
    } else {
        a.union_prefer_right(b)
    }
}

/// Combines two tables, inserting the smaller one's records into the larger
/// one to minimise copying, as the reduction strategy's pairwise step does.
pub fn merge_tables(a: RecordTable, b: RecordTable) -> (r: RecordTable)
    requires
        a.wf(),
        b.wf(),
    ensures
        r.wf(),
        r@ == merge_maps(a@, b@),
{
    let a_smaller = a.len() < b.len();
    let (mut base, add) = if a_smaller {
        (b, a)
    } else {
        (a, b)
    };
    let add_pairs = add.as_pairs();
    base.insert_pairs(add_pairs);
    proof {
        lemma_fold_pairs_union(
            if a_smaller {
                b@
            } else {
                a@
            },
            pairs_view(add_pairs@),
        );
    }
    base
}

/// The per-frame record lists of one pass, viewed as key/value sequences.
pub open spec fn lists_view(ls: Seq<Vec<(String, u64)>>) -> Seq<Seq<(Seq<char>, u64)>> {
    ls.map_values(|l: Vec<(String, u64)>| pairs_view(l@))
}

/// The sequential fold of the lists, in order, into one mapping — what the
/// shared-map and local-then-combine strategies compute.
pub open spec fn fold_lists(
    m: Map<Seq<char>, u64>,
    ls: Seq<Seq<(Seq<char>, u64)>>,
) -> Map<Seq<char>, u64>
    decreases ls.len(),
{
    if ls.len() == 0 {
        m
    } else {
        fold_pairs(fold_lists(m, ls.drop_last()), ls.last())
    }
}

/// The reduction strategy's fold: each list becomes its own mapping, and
/// the mappings are combined pairwise, the smaller into the larger.
pub open spec fn merge_fold(ls: Seq<Seq<(Seq<char>, u64)>>) -> Map<Seq<char>, u64>
    decreases ls.len(),
{
    if ls.len() == 0 {
        Map::empty()
    } else {
        merge_maps(merge_fold(ls.drop_last()), pair_map(ls.last()))
    }
}

/// What each aggregation strategy produces from the per-frame record lists.
pub open spec fn spec_aggregate(mode: Mode, ls: Seq<Seq<(Seq<char>, u64)>>) -> Map<Seq<char>, u64> {
    match mode {
        Mode::Merge => merge_fold(ls),
        Mode::DashMap => fold_lists(Map::empty(), ls),
        Mode::Vector => fold_lists(Map::empty(), ls),
    }
}

/// Folds the per-frame record lists into one table under the chosen
/// strategy's combine order.  Whatever the strategy, the result is the
/// mapping `spec_aggregate` describes.
pub fn aggregate_lists(mode: &Mode, lists: &Vec<Vec<(String, u64)>>) -> (t: RecordTable)
    ensures
        t.wf(),
        t@ == spec_aggregate(*mode, lists_view(lists@)),
{
    let n = lists.len();
    let mut acc = RecordTable::new();
    let mut j: usize = 0;
    match mode {
        Mode::Merge => {
            while j < n
                invariant
                    j <= n,
                    n == lists@.len(),
                    acc.wf(),
                    acc@ == merge_fold(lists_view(lists@).take(j as int)),
                decreases n - j,
            {
                let mut t = RecordTable::new();
                t.insert_pairs(&lists[j]);
                acc = merge_tables(acc, t);
                proof {
                    let lv = lists_view(lists@);
                    assert(lv.take(j + 1).drop_last() =~= lv.take(j as int));
                    assert(lv.take(j + 1).last() == pairs_view(lists@[j as int]@));
                }
                j = j + 1;
            }
        },
        _ => {
            while j < n
                invariant
                    j <= n,
                    n == lists@.len(),
                    acc.wf(),
                    acc@ == fold_lists(Map::empty(), lists_view(lists@).take(j as int)),
                decreases n - j,
            {
                acc.insert_pairs(&lists[j]);
                proof {
                    let lv = lists_view(lists@);
                    assert(lv.take(j + 1).drop_last() =~= lv.take(j as int));
                    assert(lv.take(j + 1).last() == pairs_view(lists@[j as int]@));
                }
                j = j + 1;
            }
        },
    }
    proof {
        assert(lists_view(lists@).take(n as int) =~= lists_view(lists@));
    }
    acc
}

/// All the lists' records, concatenated in list order.
pub open spec fn concat_all(ls: Seq<Seq<(Seq<char>, u64)>>) -> Seq<(Seq<char>, u64)>
    decreases ls.len(),
{
    if ls.len() == 0 {
        Seq::empty()
    } else {
        concat_all(ls.drop_last()) + ls.last()
    }
}

/// True when no two records across all the lists share a key.
pub open spec fn all_keys_distinct(ls: Seq<Seq<(Seq<char>, u64)>>) -> bool {
    distinct_keys(concat_all(ls))
}

/// Folding the lists one by one folds their concatenation.
proof fn lemma_fold_lists_concat(m: Map<Seq<char>, u64>, ls: Seq<Seq<(Seq<char>, u64)>>)
    ensures
        fold_lists(m, ls) == fold_pairs(m, concat_all(ls)),
    decreases ls.len(),
{
    if ls.len() > 0 {
        lemma_fold_lists_concat(m, ls.drop_last());
        lemma_fold_pairs_concat(m, concat_all(ls.drop_last()), ls.last());
    }
}

/// With globally distinct keys the pairwise merge fold reaches the same
/// mapping as folding all records in order.
proof fn lemma_merge_fold_eq(ls: Seq<Seq<(Seq<char>, u64)>>)
    requires
        all_keys_distinct(ls),
    ensures
        merge_fold(ls) == pair_map(concat_all(ls)),
    decreases ls.len(),
{
    if ls.len() == 0 {
        assert(merge_fold(ls) =~= pair_map(concat_all(ls)));
    } else {
        let dl = ls.drop_last();
        let last = ls.last();
        let ca = concat_all(dl);
        let whole = concat_all(ls);
        assert forall|i: int, j: int| 0 <= i < j < ca.len() implies ca[i].0 != ca[j].0 by {
            assert(whole[i] == ca[i]);
            assert(whole[j] == ca[j]);
        }
        assert forall|i: int, j: int| 0 <= i < j < last.len() implies last[i].0 != last[j].0 by {
            assert(whole[ca.len() + i] == last[i]);
            assert(whole[ca.len() + j] == last[j]);
        }
        lemma_merge_fold_eq(dl);
        let a = pair_map(ca);
        let b = pair_map(last);
        assert forall|k: Seq<char>| !(a.contains_key(k) && b.contains_key(k)) by {
            lemma_fold_pairs_contains_at(Map::empty(), ca, k);
            lemma_fold_pairs_contains_at(Map::empty(), last, k);
            if key_in(ca, k) && key_in(last, k) {
                let i = choose|i: int| 0 <= i < ca.len() && ca[i].0 == k;
                let j = choose|j: int| 0 <= j < last.len() && last[j].0 == k;
                assert(whole[i] == ca[i]);
                assert(whole[ca.len() + j] == last[j]);
            }
        }
        lemma_fold_pairs_concat(Map::empty(), ca, last);
        lemma_fold_pairs_union(a, last);
        assert(a.union_prefer_right(b) =~= b.union_prefer_right(a));
        assert(pair_map(whole) == a.union_prefer_right(b));
    }
}

/// Merge equivalence (law): over per-frame record lists whose keys are
/// globally distinct, the three aggregation strategies produce the same
/// mapping — the same key set, the same values, the same total size.
pub proof fn lemma_merge_equivalence(ls: Seq<Seq<(Seq<char>, u64)>>)
    requires
        all_keys_distinct(ls),
    ensures
        spec_aggregate(Mode::Merge, ls) == spec_aggregate(Mode::Vector, ls),
        spec_aggregate(Mode::DashMap, ls) == spec_aggregate(Mode::Vector, ls),
{
    lemma_merge_fold_eq(ls);
    lemma_fold_lists_concat(Map::empty(), ls);
}

/// Aggregate completeness (law): with globally distinct keys, whichever
/// strategy folds the per-frame record lists — in whatever order its
/// combines ran — the final mapping holds exactly the lists' records, and
/// its size is their number.  Processing order cannot change the result.
pub proof fn lemma_aggregate_membership(mode: Mode, ls: Seq<Seq<(Seq<char>, u64)>>)
    requires
        all_keys_distinct(ls),
    ensures
        forall|k: Seq<char>, v: u64|
            spec_aggregate(mode, ls).contains_pair(k, v) <==> concat_all(ls).contains((k, v)),
        spec_aggregate(mode, ls).dom().finite(),
        spec_aggregate(mode, ls).dom().len() == concat_all(ls).len(),
{
    lemma_merge_fold_eq(ls);
    lemma_fold_lists_concat(Map::empty(), ls);
    lemma_pair_map_len(concat_all(ls));
    assert forall|k: Seq<char>, v: u64|
        spec_aggregate(mode, ls).contains_pair(k, v) <==> concat_all(ls).contains((k, v)) by {
        lemma_pair_map_pair_at(concat_all(ls), k, v);
    }
}

} // verus!
