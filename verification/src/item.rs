//! The generic record type: a schema-less item made of typed field maps
//! (string, boolean and numeric fields keyed by field name) plus a
//! distinguished 64-bit id. Field maps are stored as association vectors with
//! unique keys and are specified through `Map` views.

use vstd::prelude::*;

verus! {

/// Reserved id meaning "no id assigned yet; the store assigns one on write".
pub const ID_UNASSIGNED: u64 = u64::MAX;

/// The `Map` view of an association vector: later entries would shadow
/// earlier ones, but well-formed vectors carry each key at most once.
pub open spec fn alist_map<V>(s: Seq<(String, V)>) -> Map<Seq<char>, V>
    decreases s.len(),
{
    if s.len() == 0 {
        Map::empty()
    } else {
        alist_map(s.drop_last()).insert(s.last().0@, s.last().1)
    }
}

/// Each key occurs at most once.
pub open spec fn alist_keys_unique<V>(s: Seq<(String, V)>) -> bool {
    forall|i: int, j: int| 0 <= i < j < s.len() ==> s[i].0@ != s[j].0@
}

proof fn lemma_alist_map_domain<V>(s: Seq<(String, V)>, k: Seq<char>)
    ensures
        alist_map(s).contains_key(k) <==> exists|i: int| 0 <= i < s.len() && s[i].0@ == k,
    decreases s.len(),
{
    if s.len() == 0 {
    } else {
        lemma_alist_map_domain(s.drop_last(), k);
        if s.last().0@ == k {
            assert(s[s.len() - 1].0@ == k);
        } else {
            if alist_map(s).contains_key(k) {
                let i = choose|i: int| 0 <= i < s.drop_last().len() && s.drop_last()[i].0@ == k;
                assert(s[i].0@ == k);
            }
            if exists|i: int| 0 <= i < s.len() && s[i].0@ == k {
                let i = choose|i: int| 0 <= i < s.len() && s[i].0@ == k;
                assert(s.drop_last()[i].0@ == k);
            }
        }
    }
}

proof fn lemma_alist_map_at<V>(s: Seq<(String, V)>, i: int)
    requires
        alist_keys_unique(s),
        0 <= i < s.len(),
    ensures
        alist_map(s).contains_key(s[i].0@),
        alist_map(s)[s[i].0@] == s[i].1,
    decreases s.len(),
{
    if i < s.len() - 1 {
        lemma_alist_map_at(s.drop_last(), i);
        assert(s.drop_last()[i] == s[i]);
        assert(s.last().0@ != s[i].0@);
    }
}

proof fn lemma_alist_map_push<V>(s: Seq<(String, V)>, p: (String, V))
    ensures
        alist_map(s.push(p)) == alist_map(s).insert(p.0@, p.1),
{
    assert(s.push(p).drop_last() =~= s);
    assert(s.push(p).last() == p);
}

proof fn lemma_alist_map_update<V>(s: Seq<(String, V)>, i: int, p: (String, V))
    requires
        alist_keys_unique(s),
        0 <= i < s.len(),
        s[i].0@ == p.0@,
    ensures
        alist_map(s.update(i, p)) == alist_map(s).insert(p.0@, p.1),
    decreases s.len(),
{
    let t = s.update(i, p);
    if i == s.len() - 1 {
        assert(t.drop_last() =~= s.drop_last());
        assert(t.last() == p);
        assert(alist_map(s.drop_last()).insert(p.0@, p.1) =~= alist_map(s.drop_last()).insert(
            s.last().0@,
            s.last().1,
        ).insert(p.0@, p.1));
    } else {
        lemma_alist_map_update(s.drop_last(), i, p);
        assert(t.drop_last() =~= s.drop_last().update(i, p));
        assert(t.last() == s.last());
        assert(s.last().0@ != p.0@);
        assert(alist_map(s.drop_last()).insert(p.0@, p.1).insert(s.last().0@, s.last().1)
            =~= alist_map(s.drop_last()).insert(s.last().0@, s.last().1).insert(p.0@, p.1));
    }
}

proof fn lemma_alist_map_remove<V>(s: Seq<(String, V)>, i: int)
    requires
        alist_keys_unique(s),
        0 <= i < s.len(),
    ensures
        alist_map(s.remove(i)) == alist_map(s).remove(s[i].0@),
    decreases s.len(),
{
    let k = s[i].0@;
    if i == s.len() - 1 {
        assert(s.remove(i) =~= s.drop_last());
        lemma_alist_map_domain(s.drop_last(), k);
        assert(forall|j: int|
            0 <= j < s.drop_last().len() ==> #[trigger] s.drop_last()[j].0@ != k);
        assert(alist_map(s.drop_last()) =~= alist_map(s.drop_last()).insert(
            s.last().0@,
            s.last().1,
        ).remove(k));
    } else {
        lemma_alist_map_remove(s.drop_last(), i);
        assert(s.remove(i).drop_last() =~= s.drop_last().remove(i));
        assert(s.remove(i).last() == s.last());
        assert(s.last().0@ != k);
        assert(alist_map(s.drop_last()).remove(k).insert(s.last().0@, s.last().1)
            =~= alist_map(s.drop_last()).insert(s.last().0@, s.last().1).remove(k));
    }
}

/// String equality through views; both `to_owned` and `String` equality carry
/// exact contracts in vstd.
pub fn str_eq(a: &str, b: &str) -> (r: bool)
    ensures
        r == (a@ == b@),
{
    let x: String = a.to_owned();
    let y: String = b.to_owned();
    x == y
}

fn alist_find<V>(list: &Vec<(String, V)>, key: &str) -> (r: Option<usize>)
    ensures
        match r {
            Some(i) => i < list@.len() && list@[i as int].0@ == key@,
            None => forall|j: int| 0 <= j < list@.len() ==> #[trigger] list@[j].0@ != key@,
        },
{
    let mut i: usize = 0;
    while i < list.len()
        invariant
            i <= list@.len(),
            forall|j: int| 0 <= j < i ==> #[trigger] list@[j].0@ != key@,
        decreases list@.len() - i,
    {
        if str_eq(list[i].0.as_str(), key) {
            return Some(i);
        }
        i = i + 1;
    }
    None
}

fn alist_get<'a, V>(list: &'a Vec<(String, V)>, key: &str) -> (r: Option<&'a V>)
    requires
        alist_keys_unique(list@),
    ensures
        match r {
            Some(v) => alist_map(list@).contains_key(key@) && *v == alist_map(list@)[key@],
            None => !alist_map(list@).contains_key(key@),
        },
{
    proof {
        lemma_alist_map_domain(list@, key@);
    }
    match alist_find(list, key) {
        Some(i) => {
            proof {
                lemma_alist_map_at(list@, i as int);
            }
            Some(&list[i].1)
        },
        None => None,
    }
}

fn alist_put<V>(list: &mut Vec<(String, V)>, key: &str, value: V)
    requires
        alist_keys_unique(old(list)@),
    ensures
        alist_keys_unique(final(list)@),
        alist_map(final(list)@) == alist_map(old(list)@).insert(key@, value),
{
    let k: String = key.to_owned();
    match alist_find(list, key) {
        Some(i) => {
            list[i] = (k, value);
            proof {
                assert(list@ == old(list)@.update(i as int, list@[i as int]));
                lemma_alist_map_update(old(list)@, i as int, list@[i as int]);
                assert(forall|a: int, b: int|
                    0 <= a < b < list@.len() ==> list@[a].0@ == old(list)@[a].0@ && list@[b].0@
                        == old(list)@[b].0@);
            }
        },
        None => {
            list.push((k, value));
            proof {
                lemma_alist_map_push(old(list)@, list@.last());
                assert(forall|a: int, b: int|
                    0 <= a < b < list@.len() && b < list@.len() - 1 ==> list@[a].0@
                        != list@[b].0@);
                assert(forall|a: int|
                    0 <= a < list@.len() - 1 ==> #[trigger] list@[a].0@ != key@);
            }
        },
    }
}

fn alist_del<V>(list: &mut Vec<(String, V)>, key: &str) -> (r: bool)
    requires
        alist_keys_unique(old(list)@),
    ensures
        alist_keys_unique(final(list)@),
        alist_map(final(list)@) == alist_map(old(list)@).remove(key@),
        r == alist_map(old(list)@).contains_key(key@),
{
    proof {
        lemma_alist_map_domain(list@, key@);
    }
    match alist_find(list, key) {
        Some(i) => {
            list.remove(i);
            proof {
                lemma_alist_map_remove(old(list)@, i as int);
                assert(alist_keys_unique(list@)) by {
                    assert(forall|a: int|
                        0 <= a < list@.len() ==> list@[a] == old(list)@.remove(i as int)[a]);
                }
            }
            true
        },
        None => {
            proof {
                assert(alist_map(list@) =~= alist_map(list@).remove(key@));
            }
            false
        },
    }
}

/// A schema-less record: typed field maps keyed by field name, plus an id
/// that is unique within the record's collection.
pub struct Item {
    pub id: u64,
    pub strs: Vec<(String, String)>,
    pub bools: Vec<(String, bool)>,
    pub nums: Vec<(String, u64)>,
}

impl Item {
    /// Every field map carries each key at most once.
    pub open spec fn wf(&self) -> bool {
        alist_keys_unique(self.strs@) && alist_keys_unique(self.bools@) && alist_keys_unique(
            self.nums@,
        )
    }

    pub open spec fn strs_map(&self) -> Map<Seq<char>, String> {
        alist_map(self.strs@)
    }

    pub open spec fn bools_map(&self) -> Map<Seq<char>, bool> {
        alist_map(self.bools@)
    }

    pub open spec fn nums_map(&self) -> Map<Seq<char>, u64> {
        alist_map(self.nums@)
    }

    /// Same id and the same field vectors.
    pub open spec fn eqv(&self, other: &Item) -> bool {
        self.id == other.id && self.strs@ == other.strs@ && self.bools@ == other.bools@
            && self.nums@ == other.nums@
    }

    pub fn new() -> (r: Item)
        ensures
            r.wf(),
            r.id == ID_UNASSIGNED,
            r.strs_map() == Map::<Seq<char>, String>::empty(),
            r.bools_map() == Map::<Seq<char>, bool>::empty(),
            r.nums_map() == Map::<Seq<char>, u64>::empty(),
    {
        Item { id: u64::MAX, strs: Vec::new(), bools: Vec::new(), nums: Vec::new() }
    }

    /// The string field under `key`, or `def` when the field is absent.
    pub fn safe_str(&self, key: &str, def: &str) -> (r: String)
        requires
            self.wf(),
        ensures
            r@ == if self.strs_map().contains_key(key@) {
                self.strs_map()[key@]@
            } else {
                def@
            },
    {
        match alist_get(&self.strs, key) {
            Some(v) => v.clone(),
            None => def.to_owned(),
        }
    }

    pub fn set_str(&mut self, key: &str, value: String)
        requires
            old(self).wf(),
        ensures
            final(self).wf(),
            final(self).strs_map() == old(self).strs_map().insert(key@, value),
            final(self).bools@ == old(self).bools@,
            final(self).nums@ == old(self).nums@,
            final(self).id == old(self).id,
    {
        alist_put(&mut self.strs, key, value);
    }

    pub fn safe_bool(&self, key: &str, def: bool) -> (r: bool)
        requires
            self.wf(),
        ensures
            r == if self.bools_map().contains_key(key@) {
                self.bools_map()[key@]
            } else {
                def
            },
    {
        match alist_get(&self.bools, key) {
            Some(v) => *v,
            None => def,
        }
    }

    pub fn set_bool(&mut self, key: &str, value: bool)
        requires
            old(self).wf(),
        ensures
            final(self).wf(),
            final(self).bools_map() == old(self).bools_map().insert(key@, value),
            final(self).strs@ == old(self).strs@,
            final(self).nums@ == old(self).nums@,
            final(self).id == old(self).id,
    {
        alist_put(&mut self.bools, key, value);
    }

    pub fn safe_num(&self, key: &str, def: u64) -> (r: u64)
        requires
            self.wf(),
        ensures
            r == if self.nums_map().contains_key(key@) {
                self.nums_map()[key@]
            } else {
                def
            },
    {
        match alist_get(&self.nums, key) {
            Some(v) => *v,
            None => def,
        }
    }

    pub fn set_num(&mut self, key: &str, value: u64)
        requires
            old(self).wf(),
        ensures
            final(self).wf(),
            final(self).nums_map() == old(self).nums_map().insert(key@, value),
            final(self).strs@ == old(self).strs@,
            final(self).bools@ == old(self).bools@,
            final(self).id == old(self).id,
    {
        alist_put(&mut self.nums, key, value);
    }

    /// Drop a boolean field; reports whether it was present.
    pub fn remove_bool(&mut self, key: &str) -> (r: bool)
        requires
            old(self).wf(),
        ensures
            final(self).wf(),
            final(self).bools_map() == old(self).bools_map().remove(key@),
            r == old(self).bools_map().contains_key(key@),
            final(self).strs@ == old(self).strs@,
            final(self).nums@ == old(self).nums@,
            final(self).id == old(self).id,
    {
        alist_del(&mut self.bools, key)
    }

    /// A field-for-field copy.
    pub fn duplicate(&self) -> (r: Item)
        ensures
            r.eqv(self),
    {
        let mut strs: Vec<(String, String)> = Vec::new();
        let mut i: usize = 0;
        while i < self.strs.len()
            invariant
                i <= self.strs@.len(),
                strs@ =~= self.strs@.take(i as int),
            decreases self.strs@.len() - i,
        {
            strs.push((self.strs[i].0.clone(), self.strs[i].1.clone()));
            i = i + 1;
        }
        let mut bools: Vec<(String, bool)> = Vec::new();
        let mut j: usize = 0;
        while j < self.bools.len()
            invariant
                j <= self.bools@.len(),
                bools@ =~= self.bools@.take(j as int),
            decreases self.bools@.len() - j,
        {
            bools.push((self.bools[j].0.clone(), self.bools[j].1));
            j = j + 1;
        }
        let mut nums: Vec<(String, u64)> = Vec::new();
        let mut k: usize = 0;
        while k < self.nums.len()
            invariant
                k <= self.nums@.len(),
                nums@ =~= self.nums@.take(k as int),
            decreases self.nums@.len() - k,
        {
            nums.push((self.nums[k].0.clone(), self.nums[k].1));
            k = k + 1;
        }
        proof {
            assert(strs@ =~= self.strs@);
            assert(bools@ =~= self.bools@);
            assert(nums@ =~= self.nums@);
        }
        Item { id: self.id, strs, bools, nums }
    }

    /// Field-by-field overwrite: every field of `other` lands in `self`,
    /// fields of `self` that `other` does not name stay. An assigned id on
    /// `other` replaces the id of `self`.
    pub fn merge(&mut self, other: &Item)
        requires
            old(self).wf(),
            other.wf(),
        ensures
            final(self).wf(),
            final(self).strs_map() == old(self).strs_map().union_prefer_right(other.strs_map()),
            final(self).bools_map() == old(self).bools_map().union_prefer_right(
                other.bools_map(),
            ),
            final(self).nums_map() == old(self).nums_map().union_prefer_right(other.nums_map()),
            final(self).id == if other.id != ID_UNASSIGNED {
                other.id
            } else {
                old(self).id
            },
    {
        if other.id != u64::MAX {
            self.id = other.id;
        }
        let mut i: usize = 0;
        while i < other.strs.len()
            invariant
                i <= other.strs@.len(),
                alist_keys_unique(self.strs@),
                other.wf(),
                alist_map(self.strs@) == alist_map(old(self).strs@).union_prefer_right(
                    alist_map(other.strs@.take(i as int)),
                ),
                self.bools@ == old(self).bools@,
                self.nums@ == old(self).nums@,
                self.id == if other.id != ID_UNASSIGNED {
                    other.id
                } else {
                    old(self).id
                },
            decreases other.strs@.len() - i,
        {
            let v: String = other.strs[i].1.clone();
            alist_put(&mut self.strs, other.strs[i].0.as_str(), v);
            proof {
                lemma_merge_step(
                    alist_map(old(self).strs@),
                    other.strs@,
                    i as int,
                    other.strs@[i as int].1,
                );
            }
            i = i + 1;
        }
        proof {
            assert(other.strs@.take(other.strs@.len() as int) =~= other.strs@);
        }
        let mut j: usize = 0;
        while j < other.bools.len()
            invariant
                j <= other.bools@.len(),
                alist_keys_unique(self.strs@),
                alist_keys_unique(self.bools@),
                other.wf(),
                alist_map(self.strs@) == alist_map(old(self).strs@).union_prefer_right(
                    other.strs_map(),
                ),
                alist_map(self.bools@) == alist_map(old(self).bools@).union_prefer_right(
                    alist_map(other.bools@.take(j as int)),
                ),
                self.nums@ == old(self).nums@,
                self.id == if other.id != ID_UNASSIGNED {
                    other.id
                } else {
                    old(self).id
                },
            decreases other.bools@.len() - j,
        {
            alist_put(&mut self.bools, other.bools[j].0.as_str(), other.bools[j].1);
            proof {
                lemma_merge_step(
                    alist_map(old(self).bools@),
                    other.bools@,
                    j as int,
                    other.bools@[j as int].1,
                );
            }
            j = j + 1;
        }
        proof {
            assert(other.bools@.take(other.bools@.len() as int) =~= other.bools@);
        }
        let mut k: usize = 0;
        while k < other.nums.len()
            invariant
                k <= other.nums@.len(),
                alist_keys_unique(self.strs@),
                alist_keys_unique(self.bools@),
                alist_keys_unique(self.nums@),
                other.wf(),
                alist_map(self.strs@) == alist_map(old(self).strs@).union_prefer_right(
                    other.strs_map(),
                ),
                alist_map(self.bools@) == alist_map(old(self).bools@).union_prefer_right(
                    other.bools_map(),
                ),
                alist_map(self.nums@) == alist_map(old(self).nums@).union_prefer_right(
                    alist_map(other.nums@.take(k as int)),
                ),
                self.id == if other.id != ID_UNASSIGNED {
                    other.id
                } else {
                    old(self).id
                },
            decreases other.nums@.len() - k,
        {
            alist_put(&mut self.nums, other.nums[k].0.as_str(), other.nums[k].1);
            proof {
                lemma_merge_step(
                    alist_map(old(self).nums@),
                    other.nums@,
                    k as int,
                    other.nums@[k as int].1,
                );
            }
            k = k + 1;
        }
        proof {
            assert(other.strs@.take(other.strs@.len() as int) =~= other.strs@);
            assert(other.bools@.take(other.bools@.len() as int) =~= other.bools@);
            assert(other.nums@.take(other.nums@.len() as int) =~= other.nums@);
        }
    }
}

/// A merge never loses a field: every field present before stays present,
/// and keeps its value unless the incoming item names it.
pub proof fn lemma_merge_keeps_fields<V>(
    base: Map<Seq<char>, V>,
    incoming: Map<Seq<char>, V>,
    k: Seq<char>,
)
    requires
        base.contains_key(k),
    ensures
        base.union_prefer_right(incoming).contains_key(k),
        !incoming.contains_key(k) ==> base.union_prefer_right(incoming)[k] == base[k],
{
}

/// One overwrite step of `merge`: folding entry `i` of `s` into the running
/// union equals taking the union with one more entry of `s`.
proof fn lemma_merge_step<V>(base: Map<Seq<char>, V>, s: Seq<(String, V)>, i: int, v: V)
    requires
        0 <= i < s.len(),
        v == s[i].1,
    ensures
        base.union_prefer_right(alist_map(s.take(i))).insert(s[i].0@, v)
            == base.union_prefer_right(alist_map(s.take(i + 1))),
{
    assert(s.take(i + 1).drop_last() =~= s.take(i));
    assert(s.take(i + 1).last() == s[i]);
    assert(alist_map(s.take(i + 1)) == alist_map(s.take(i)).insert(s[i].0@, s[i].1));
    assert(base.union_prefer_right(alist_map(s.take(i))).insert(s[i].0@, v)
        =~= base.union_prefer_right(alist_map(s.take(i)).insert(s[i].0@, s[i].1)));
}

} // verus!
