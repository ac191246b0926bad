//! The in-memory store: an id-keyed collection of food records, modelled as
//! a map from id to record.

use vstd::prelude::*;
use vstd::string::StringExecFns;
use crate::text::{lower_of, contains_seq, contains_chars, lowercase, chars_of};

verus! {

/// One inventory item.
#[derive(Debug)]
pub struct Food {
    pub id: i64,
    pub name: String,
    pub stock: i32,
    pub price: i32,
}

/// The mathematical image of a record.
pub ghost struct FoodView {
    pub id: int,
    pub name: Seq<char>,
    pub stock: int,
    pub price: int,
}

impl View for Food {
    type V = FoodView;

    open spec fn view(&self) -> FoodView {
        FoodView {
            id: self.id as int,
            name: self.name@,
            stock: self.stock as int,
            price: self.price as int,
        }
    }
}

impl Food {
    /// An identical record: same id, name, stock and price.
    pub fn duplicate(&self) -> (r: Food)
        ensures
            r@ == self@,
    {
        Food { id: self.id, name: self.name.clone(), stock: self.stock, price: self.price }
    }
}

/// The views of a sequence of records.
pub open spec fn food_views(s: Seq<Food>) -> Seq<FoodView> {
    s.map_values(|f: Food| f@)
}

/// The map from id to record described by a sequence of record views; on a
/// repeated id the later entry wins.
pub open spec fn records_map(s: Seq<FoodView>) -> Map<int, FoodView>
    decreases s.len(),
{
    if s.len() == 0 {
        Map::empty()
    } else {
        records_map(s.drop_last()).insert(s.last().id, s.last())
    }
}

/// No two entries share an id.
pub open spec fn distinct_ids(s: Seq<FoodView>) -> bool {
    forall|i: int, j: int| 0 <= i < j < s.len() ==> s[i].id != s[j].id
}

/// A key is in the map exactly when some entry carries it.
pub proof fn lemma_records_map_contains(s: Seq<FoodView>)
    ensures
        forall|k: int|
            records_map(s).dom().contains(k) <==> exists|i: int|
                0 <= i < s.len() && (#[trigger] s[i]).id == k,
    decreases s.len(),
{
    if s.len() > 0 {
        lemma_records_map_contains(s.drop_last());
        assert forall|k: int| records_map(s).dom().contains(k) implies exists|i: int|
            0 <= i < s.len() && (#[trigger] s[i]).id == k by {
            if k == s.last().id {
                assert(s[s.len() - 1].id == k);
            } else {
                assert(records_map(s) == records_map(s.drop_last()).insert(s.last().id, s.last()));
                assert(records_map(s.drop_last()).dom().contains(k));
                let i = choose|i: int| 0 <= i < s.drop_last().len() && (#[trigger] s.drop_last()[i]).id
                    == k;
                assert(s.drop_last()[i] == s[i]);
                assert(s[i].id == k);
            }
        }
        assert forall|k: int|
            exists|i: int| 0 <= i < s.len() && (#[trigger] s[i]).id == k implies records_map(
            s,
        ).dom().contains(k) by {
            let i = choose|i: int| 0 <= i < s.len() && (#[trigger] s[i]).id == k;
            if i < s.len() - 1 {
                assert(s.drop_last()[i].id == k);
            }
        }
    }
}

/// With distinct ids, each entry is the map's record at its id.
pub proof fn lemma_records_map_get(s: Seq<FoodView>, i: int)
    requires
        distinct_ids(s),
        0 <= i < s.len(),
    ensures
        records_map(s).contains_pair(s[i].id, s[i]),
    decreases s.len(),
{
    if i == s.len() - 1 {
    } else {
        assert(distinct_ids(s.drop_last()));
        assert(s.drop_last()[i] == s[i]);
        lemma_records_map_get(s.drop_last(), i);
        assert(s[i].id != s.last().id);
    }
}

/// Removing the entry at an index removes its id from the map.
pub proof fn lemma_records_map_remove(s: Seq<FoodView>, i: int)
    requires
        distinct_ids(s),
        0 <= i < s.len(),
    ensures
        records_map(s.remove(i)) == records_map(s).remove(s[i].id),
    decreases s.len(),
{
    if i == s.len() - 1 {
        assert(s.remove(i) =~= s.drop_last());
        assert(distinct_ids(s.drop_last()));
        lemma_records_map_contains(s.drop_last());
        assert(!records_map(s.drop_last()).dom().contains(s.last().id));
        assert(records_map(s.drop_last()).insert(s.last().id, s.last()).remove(s.last().id)
            =~= records_map(s.drop_last()));
    } else {
        assert(distinct_ids(s.drop_last()));
        assert(s.drop_last()[i] == s[i]);
        lemma_records_map_remove(s.drop_last(), i);
        assert(s.remove(i).drop_last() =~= s.drop_last().remove(i));
        assert(s.remove(i).last() == s.last());
        assert(s[i].id != s.last().id);
        assert(records_map(s.remove(i)) == records_map(s.drop_last().remove(i)).insert(
            s.last().id,
            s.last(),
        ));
        assert(records_map(s.drop_last()).remove(s[i].id).insert(s.last().id, s.last())
            =~= records_map(s.drop_last()).insert(s.last().id, s.last()).remove(s[i].id));
    }
}

/// A record matches a query when its lowercase name holds the lowercase
/// query as a substring.
pub open spec fn name_matches(f: FoodView, query: Seq<char>) -> bool {
    contains_seq(lower_of(f.name), lower_of(query))
}

/// What a search returns: exactly the matching records, one per id, in some
/// order.
pub open spec fn search_result_ok(rs: Seq<FoodView>, m: Map<int, FoodView>, query: Seq<char>) -> bool {
    &&& forall|i: int|
        0 <= i < rs.len() ==> m.contains_pair((#[trigger] rs[i]).id, rs[i]) && name_matches(
            rs[i],
            query,
        )
    &&& forall|k: int|
        m.dom().contains(k) && name_matches(m[k], query) ==> exists|i: int|
            0 <= i < rs.len() && (#[trigger] rs[i]).id == k
    &&& distinct_ids(rs)
}

/// Entries sorted strictly by ascending id.
pub open spec fn sorted_by_id(s: Seq<FoodView>) -> bool {
    forall|i: int, j: int| 0 <= i < j < s.len() ==> s[i].id < s[j].id
}

/// `entries` lists exactly the records of `m`, in ascending id order.
pub open spec fn is_ordered_export(entries: Seq<FoodView>, m: Map<int, FoodView>) -> bool {
    &&& sorted_by_id(entries)
    &&& forall|i: int| 0 <= i < entries.len() ==> m.contains_pair((#[trigger] entries[i]).id, entries[i])
    &&& forall|k: int|
        m.dom().contains(k) ==> exists|i: int| 0 <= i < entries.len() && (#[trigger] entries[i]).id
            == k
}

/// The one ordered export of a map (see `lemma_ordered_export_unique`).
pub open spec fn export_of(m: Map<int, FoodView>) -> Seq<FoodView> {
    choose|entries: Seq<FoodView>| is_ordered_export(entries, m)
}

/// A map has at most one ordered export: the listing is deterministic.
pub proof fn lemma_ordered_export_unique(
    e1: Seq<FoodView>,
    e2: Seq<FoodView>,
    m: Map<int, FoodView>,
)
    requires
        is_ordered_export(e1, m),
        is_ordered_export(e2, m),
    ensures
        e1 == e2,
    decreases e1.len(),
{
    if e1.len() == 0 {
        if e2.len() > 0 {
            assert(m.contains_pair(e2[0].id, e2[0]));
            assert(m.dom().contains(e2[0].id));
            assert(false);
        }
        assert(e1 =~= e2);
    } else {
        if e2.len() == 0 {
            assert(m.contains_pair(e1[0].id, e1[0]));
            assert(m.dom().contains(e1[0].id));
            assert(false);
        }
        assert(m.contains_pair(e1[0].id, e1[0]));
        assert(m.contains_pair(e2[0].id, e2[0]));
        let i = choose|i: int| 0 <= i < e1.len() && (#[trigger] e1[i]).id == e2[0].id;
        let j = choose|j: int| 0 <= j < e2.len() && (#[trigger] e2[j]).id == e1[0].id;
        assert(e1[0].id <= e2[0].id) by {
            assert(m.dom().contains(e2[0].id));
            if i > 0 {
                assert(e1[0].id < e1[i].id);
            }
        }
        assert(e2[0].id <= e1[0].id) by {
            assert(m.dom().contains(e1[0].id));
            if j > 0 {
                assert(e2[0].id < e2[j].id);
            }
        }
        assert(e1[0].id == e2[0].id);
        assert(e1[0] == e2[0]);
        let head = e1[0].id;
        let m1 = m.remove(head);
        assert(is_ordered_export(e1.drop_first(), m1)) by {
            lemma_export_tail(e1, m);
        }
        assert(is_ordered_export(e2.drop_first(), m1)) by {
            lemma_export_tail(e2, m);
        }
        lemma_ordered_export_unique(e1.drop_first(), e2.drop_first(), m1);
        assert(e1.len() == e2.len());
        assert forall|k: int| 0 <= k < e1.len() implies e1[k] == e2[k] by {
            if k > 0 {
                assert(e1.drop_first()[k - 1] == e1[k]);
                assert(e2.drop_first()[k - 1] == e2[k]);
            }
        }
        assert(e1 =~= e2);
    }
}

proof fn lemma_export_tail(e: Seq<FoodView>, m: Map<int, FoodView>)
    requires
        is_ordered_export(e, m),
        e.len() > 0,
    ensures
        is_ordered_export(e.drop_first(), m.remove(e[0].id)),
{
    let t = e.drop_first();
    let m1 = m.remove(e[0].id);
    assert(forall|a: int| 0 <= a < t.len() ==> (#[trigger] t[a]) == e[a + 1]);
    assert forall|a: int| 0 <= a < t.len() implies m1.contains_pair(
        (#[trigger] t[a]).id,
        t[a],
    ) by {
        assert(m.contains_pair(e[a + 1].id, e[a + 1]));
        assert(e[0].id < e[a + 1].id);
    }
    assert forall|k: int| m1.dom().contains(k) implies exists|a: int|
        0 <= a < t.len() && (#[trigger] t[a]).id == k by {
        assert(m.dom().contains(k));
        let i = choose|i: int| 0 <= i < e.len() && (#[trigger] e[i]).id == k;
        assert(k != e[0].id);
        assert(i > 0);
        assert(t[i - 1].id == k);
    }
}

/// The id the store hands to the next added record: one past the largest id
/// in use, or 1 for an empty store; at the very top of the id range it
/// cannot advance and stays there.
pub open spec fn spec_next_id(m: Map<int, FoodView>) -> int {
    if exists|k: int| m.dom().contains(k) {
        let top = choose|k: int|
            m.dom().contains(k) && forall|j: int| #[trigger] m.dom().contains(j) ==> j <= k;
        if top >= i64::MAX {
            i64::MAX as int
        } else {
            top + 1
        }
    } else {
        1
    }
}

/// The keyed collection of food records of one invocation.
pub struct Foods {
    inner: Vec<Food>,
}

impl View for Foods {
    type V = Map<int, FoodView>;

    closed spec fn view(&self) -> Map<int, FoodView> {
        records_map(food_views(self.inner@))
    }
}

impl Foods {
    /// Ids are unique within the store.
    pub closed spec fn wf(&self) -> bool {
        distinct_ids(food_views(self.inner@))
    }

    /// The empty store.
    pub fn new() -> (r: Foods)
        ensures
            r.wf(),
            r@ == Map::<int, FoodView>::empty(),
    {
        let r = Foods { inner: Vec::new() };
        proof {
            assert(food_views(r.inner@) =~= Seq::<FoodView>::empty());
        }
        r
    }

    /// Deletes the record at `id` if present and returns it; a missing id
    /// leaves the store unchanged and is no error.
    pub fn remove(&mut self, id: i64) -> (r: Option<Food>)
        requires
            old(self).wf(),
        ensures
            final(self).wf(),
            final(self)@ == old(self)@.remove(id as int),
            match r {
                Some(f) => old(self)@.contains_pair(id as int, f@),
                None => !old(self)@.dom().contains(id as int),
            },
            !old(self)@.dom().contains(id as int) ==> final(self)@ == old(self)@,
    {
        let n = self.inner.len();
        let mut i: usize = 0;
        while i < n
            invariant
                i <= n,
                n == self.inner@.len(),
                *self == *old(self),
                self.wf(),
                forall|j: int| 0 <= j < i ==> food_views(self.inner@)[j].id != id as int,
            decreases n - i,
        {
            if self.inner[i].id == id {
                proof {
                    let vs = food_views(self.inner@);
                    assert(vs[i as int].id == id as int);
                    lemma_records_map_get(vs, i as int);
                    lemma_records_map_remove(vs, i as int);
                    assert(distinct_ids(vs.remove(i as int)));
                }
                let f = self.inner.remove(i);
                proof {
                    assert(food_views(self.inner@) =~= food_views(old(self).inner@).remove(
                        i as int,
                    ));
                }
                return Some(f);
            }
            i += 1;
        }
        proof {
            let vs = food_views(self.inner@);
            lemma_records_map_contains(vs);
            assert(!self@.dom().contains(id as int));
            assert(self@.remove(id as int) =~= self@);
        }
        None
    }

    /// Inserts the record at its id, overwriting any record already there.
    pub fn add(&mut self, food: Food)
        requires
            old(self).wf(),
        ensures
            final(self).wf(),
            final(self)@ == old(self)@.insert(food.id as int, food@),
    {
        let id = food.id;
        self.remove(id);
        proof {
            let vs = food_views(self.inner@);
            lemma_records_map_contains(vs);
            assert(!self@.dom().contains(id as int));
            assert(forall|j: int| 0 <= j < vs.len() ==> (#[trigger] vs[j]).id != id as int);
        }
        let ghost mid = self@;
        let ghost vs_before = food_views(self.inner@);
        self.inner.push(food);
        proof {
            let vs = food_views(self.inner@);
            assert(vs =~= vs_before.push(food@));
            assert(vs.drop_last() =~= vs_before);
            assert(distinct_ids(vs));
            assert(self@ == mid.insert(food.id as int, food@));
            assert(mid.insert(food.id as int, food@) =~= old(self)@.insert(food.id as int, food@));
        }
    }

    /// Overwrites (or inserts) the record at `id` with the given fields.
    pub fn edit(&mut self, id: i64, name: &str, stock: i32, price: i32)
        requires
            old(self).wf(),
        ensures
            final(self).wf(),
            final(self)@ == old(self)@.insert(
                id as int,
                (FoodView { id: id as int, name: name@, stock: stock as int, price: price as int }),
            ),
    {
        let food = Food { id, name: String::from_str(name), stock, price };
        self.add(food);
    }

    /// One past the largest id in use, or 1 when the store is empty (and the
    /// top of the id range when the largest id already sits there).
    pub fn next_id(&self) -> (r: i64)
        ensures
            r as int == spec_next_id(self@),
            self@ =~= Map::<int, FoodView>::empty() ==> r == 1,
    {
        let n = self.inner.len();
        let mut i: usize = 0;
        let mut seen = false;
        let mut best: i64 = 0;
        while i < n
            invariant
                i <= n,
                n == self.inner@.len(),
                seen <==> i > 0,
                seen ==> exists|j: int|
                    0 <= j < i && (#[trigger] food_views(self.inner@)[j]).id == best as int,
                forall|j: int| 0 <= j < i ==> (#[trigger] food_views(self.inner@)[j]).id <= best as int,
            decreases n - i,
        {
            let cid = self.inner[i].id;
            proof {
                assert(food_views(self.inner@)[i as int].id == cid as int);
            }
            if !seen || cid > best {
                best = cid;
            }
            seen = true;
            i += 1;
        }
        proof {
            lemma_records_map_contains(food_views(self.inner@));
        }
        if !seen {
            proof {
                assert(forall|k: int| !self@.dom().contains(k));
                assert(self@ =~= Map::<int, FoodView>::empty());
            }
            1
        } else {
            proof {
                assert(self@.dom().contains(best as int));
                assert(forall|k: int| #[trigger] self@.dom().contains(k) ==> k <= best as int);
                let top = choose|k: int|
                    self@.dom().contains(k) && forall|j: int| #[trigger] self@.dom().contains(j)
                        ==> j <= k;
                assert(top <= best as int && best as int <= top);
            }
            if best == i64::MAX {
                best
            } else {
                best + 1
            }
        }
    }

    /// All records whose name holds the query as a substring, case
    /// insensitively, in no promised order.
    #[verifier::rlimit(50)]
    pub fn search(&self, query: &str) -> (r: Vec<Food>)
        requires
            self.wf(),
        ensures
            search_result_ok(food_views(r@), self@, query@),
    {
        let lq = lowercase(query);
        let lq_chars = chars_of(lq.as_str());
        let n = self.inner.len();
        let mut r: Vec<Food> = Vec::new();
        let mut i: usize = 0;
        while i < n
            invariant
                i <= n,
                n == self.inner@.len(),
                self.wf(),
                lq_chars@ == lower_of(query@),
                forall|a: int|
                    0 <= a < r@.len() ==> exists|j: int|
                        0 <= j < i && (#[trigger] food_views(r@)[a]) == food_views(self.inner@)[j],
                forall|a: int|
                    0 <= a < r@.len() ==> name_matches(#[trigger] food_views(r@)[a], query@),
                forall|j: int|
                    0 <= j < i && name_matches(#[trigger] food_views(self.inner@)[j], query@)
                        ==> exists|a: int|
                        0 <= a < r@.len() && (#[trigger] food_views(r@)[a]) == food_views(
                            self.inner@,
                        )[j],
                distinct_ids(food_views(r@)),
            decreases n - i,
        {
            let ln = lowercase(self.inner[i].name.as_str());
            let ln_chars = chars_of(ln.as_str());
            let ghost vs = food_views(self.inner@);
            let ghost r_old = food_views(r@);
            proof {
                assert(ln_chars@ == lower_of(vs[i as int].name));
            }
            let found = contains_chars(&ln_chars, &lq_chars);
            proof {
                assert(found == name_matches(vs[i as int], query@));
            }
            if found {
                let f = self.inner[i].duplicate();
                r.push(f);
                proof {
                    let rv = food_views(r@);
                    assert(rv =~= r_old.push(vs[i as int]));
                    assert(forall|a: int| 0 <= a < r_old.len() ==> rv[a] == r_old[a]);
                    assert(rv[r_old.len() as int] == vs[i as int]);
                    assert forall|a: int| 0 <= a < rv.len() implies exists|j: int|
                        0 <= j < i + 1 && (#[trigger] rv[a]) == vs[j] by {
                        if a < r_old.len() {
                            let j = choose|j: int| 0 <= j < i && (#[trigger] r_old[a]) == vs[j];
                            assert(rv[a] == vs[j]);
                        } else {
                            assert(rv[a] == vs[i as int]);
                        }
                    }
                    assert forall|j: int|
                        0 <= j < i + 1 && name_matches(#[trigger] vs[j], query@) implies exists|a: int|
                        0 <= a < rv.len() && (#[trigger] rv[a]) == vs[j] by {
                        if j < i {
                            let a = choose|a: int| 0 <= a < r_old.len() && (#[trigger] r_old[a])
                                == vs[j];
                            assert(rv[a] == vs[j]);
                        } else {
                            assert(rv[r_old.len() as int] == vs[j]);
                        }
                    }
                    assert forall|a: int, b: int| 0 <= a < b < rv.len() implies rv[a].id
                        != rv[b].id by {
                        if b == rv.len() - 1 {
                            let j = choose|j: int| 0 <= j < i && (#[trigger] r_old[a]) == vs[j];
                            assert(vs[j].id != vs[i as int].id);
                        }
                    }
                }
            } else {
                proof {
                    assert(!name_matches(vs[i as int], query@));
                    assert forall|j: int|
                        0 <= j < i + 1 && name_matches(#[trigger] vs[j], query@) implies exists|a: int|
                        0 <= a < r_old.len() && (#[trigger] r_old[a]) == vs[j] by {
                        assert(j < i);
                    }
                }
            }
            i += 1;
        }
        proof {
            let vs = food_views(self.inner@);
            let rv = food_views(r@);
            lemma_records_map_contains(vs);
            assert forall|a: int| 0 <= a < rv.len() implies self@.contains_pair(
                (#[trigger] rv[a]).id,
                rv[a],
            ) && name_matches(rv[a], query@) by {
                let j = choose|j: int| 0 <= j < n && rv[a] == vs[j];
                lemma_records_map_get(vs, j);
            }
            assert forall|k: int|
                self@.dom().contains(k) && name_matches(self@[k], query@) implies exists|a: int|
                0 <= a < rv.len() && (#[trigger] rv[a]).id == k by {
                let j = choose|j: int| 0 <= j < vs.len() && (#[trigger] vs[j]).id == k;
                lemma_records_map_get(vs, j);
                assert(self@[k] == vs[j]);
                assert(name_matches(vs[j], query@));
                let a = choose|a: int| 0 <= a < rv.len() && (#[trigger] rv[a]) == vs[j];
                assert(rv[a].id == k);
            }
        }
        r
    }

    /// All records, sorted ascending by id; consumes the store.
    pub fn into_vec(self) -> (r: Vec<Food>)
        requires
            self.wf(),
        ensures
            is_ordered_export(food_views(r@), self@),
    {
        let ghost m = self@;
        let Foods { mut inner } = self;
        let mut out: Vec<Food> = Vec::new();
        proof {
            lemma_records_map_contains(food_views(inner@));
            assert forall|j: int| 0 <= j < food_views(inner@).len() implies m.contains_pair(
                (#[trigger] food_views(inner@)[j]).id,
                food_views(inner@)[j],
            ) by {
                lemma_records_map_get(food_views(inner@), j);
            }
        }
        while inner.len() > 0
            invariant
                distinct_ids(food_views(inner@)),
                sorted_by_id(food_views(out@)),
                forall|a: int, b: int|
                    0 <= a < food_views(out@).len() && 0 <= b < food_views(inner@).len()
                        ==> (#[trigger] food_views(out@)[a]).id != (#[trigger] food_views(
                        inner@,
                    )[b]).id,
                forall|a: int|
                    0 <= a < food_views(out@).len() ==> m.contains_pair(
                        (#[trigger] food_views(out@)[a]).id,
                        food_views(out@)[a],
                    ),
                forall|b: int|
                    0 <= b < food_views(inner@).len() ==> m.contains_pair(
                        (#[trigger] food_views(inner@)[b]).id,
                        food_views(inner@)[b],
                    ),
                forall|k: int|
                    m.dom().contains(k) ==> (exists|a: int|
                        0 <= a < food_views(out@).len() && (#[trigger] food_views(out@)[a]).id == k)
                        || (exists|b: int|
                        0 <= b < food_views(inner@).len() && (#[trigger] food_views(inner@)[b]).id
                            == k),
            decreases inner@.len(),
        {
            let ghost inner_old = food_views(inner@);
            let f = match inner.pop() {
                Some(f) => f,
                None => {
                    proof {
                        assert(false);
                    }
                    unreached()
                },
            };
            proof {
                assert(food_views(inner@) =~= inner_old.drop_last());
                assert(f@ == inner_old.last());
            }
            // find the insertion point keeping `out` sorted
            let mut j: usize = out.len();
            while j > 0 && out[j - 1].id > f.id
                invariant
                    j <= out@.len(),
                    sorted_by_id(food_views(out@)),
                    forall|t: int|
                        j <= t < food_views(out@).len() ==> (#[trigger] food_views(out@)[t]).id
                            > f@.id,
                decreases j,
            {
                proof {
                    assert(food_views(out@)[j - 1].id > f@.id);
                    assert forall|t: int| j - 1 <= t < food_views(out@).len() implies (
                    #[trigger] food_views(out@)[t]).id > f@.id by {
                        if t > j - 1 {
                            assert(food_views(out@)[j - 1].id < food_views(out@)[t].id);
                        }
                    }
                }
                j -= 1;
            }
            let ghost out_old = food_views(out@);
            proof {
                assert forall|t: int| 0 <= t < j implies (#[trigger] out_old[t]).id < f@.id by {
                    if j <= out_old.len() - 1 {
                        assert(out_old[t].id <= out_old[j as int - 1].id || t == j - 1);
                    }
                    assert(out_old[t].id != f@.id) by {
                        assert(inner_old[inner_old.len() - 1].id == f@.id);
                    }
                }
            }
            out.insert(j, f);
            proof {
                let ov = food_views(out@);
                assert(ov =~= out_old.insert(j as int, f@));
                assert(ov.len() == out_old.len() + 1);
                assert(forall|t: int| 0 <= t < j ==> ov[t] == out_old[t]);
                assert(ov[j as int] == f@);
                assert(forall|t: int| j < t < ov.len() ==> ov[t] == out_old[t - 1]);
                assert forall|a: int, b: int| 0 <= a < b < ov.len() implies ov[a].id < ov[b].id by {
                    if a == j {
                        assert(ov[b] == out_old[b - 1]);
                    } else if b == j {
                        assert(ov[a] == out_old[a]);
                    }
                }
                assert forall|k: int| m.dom().contains(k) implies (exists|a: int|
                    0 <= a < ov.len() && (#[trigger] ov[a]).id == k) || (exists|b: int|
                    0 <= b < food_views(inner@).len() && (#[trigger] food_views(inner@)[b]).id
                        == k) by {
                    if exists|a: int| 0 <= a < out_old.len() && (#[trigger] out_old[a]).id == k {
                        let a = choose|a: int| 0 <= a < out_old.len() && (#[trigger] out_old[a]).id
                            == k;
                        if a < j {
                            assert(ov[a].id == k);
                        } else {
                            assert(ov[a + 1].id == k);
                        }
                    } else if exists|b: int|
                        0 <= b < inner_old.len() && (#[trigger] inner_old[b]).id == k {
                        let b = choose|b: int| 0 <= b < inner_old.len() && (#[trigger] inner_old[b]).id
                            == k;
                        if b == inner_old.len() - 1 {
                            assert(ov[j as int].id == k);
                        } else {
                            assert(food_views(inner@)[b].id == k);
                        }
                    }
                }
            }
        }
        proof {
            assert(food_views(inner@).len() == 0);
        }
        out
    }
}

} // verus!
