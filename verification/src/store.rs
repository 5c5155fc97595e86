//! The document-store backend's verified core: the per-collection secondary
//! index (known ids and a high-water id counter), the connection state
//! machine, and the two read paths of `get_items`. The network calls
//! themselves — opening a client, pinging, querying, upserting — suspend on
//! I/O and live with the surrounding process; each backend operation is
//! split so that everything it decides or computes stands here with a
//! contract, taking the remote responses as arguments.

use crate::item::{Item, ID_UNASSIGNED};
use bson::Document;
use vstd::prelude::*;

verus! {

/// Skip and limit use the same sentinel as unassigned ids: the maximum
/// representable value means "unbounded".
pub const UNBOUNDED: u64 = u64::MAX;

/// A strictly ascending sequence of ids.
pub open spec fn sorted_strict(s: Seq<u64>) -> bool {
    forall|a: int, b: int| 0 <= a < b < s.len() ==> s[a] < s[b]
}

/// The document-store backend: remote endpoint coordinates, the connection
/// flag, and the in-process secondary index — per collection, the set of
/// known ids and the id counter. The index is a cache kept by this one
/// instance; it is not refreshed from concurrent external writers.
pub struct StoreMongo {
    /// URL of the remote document database.
    pub path: String,
    /// Local directory used for settings, internals and credential files.
    pub local_path: String,
    /// Registered collection names; a collection's id is its position.
    pub collections: Vec<String>,
    /// Known ids per collection, strictly ascending.
    pub items: Vec<Vec<u64>>,
    /// High-water id counter per collection.
    pub items_count: Vec<u64>,
    /// Whether a liveness-probed client connection is held.
    pub connected: bool,
    /// Logical database name on the remote side.
    pub database_name: String,
}

/// What the surrounding process observed while trying to open and probe a
/// client connection. Client construction is lazy, so a constructed client
/// counts for nothing until a liveness probe succeeds.
pub enum ConnProbe {
    /// The client could not even be constructed.
    ClientError,
    /// The client was constructed but the liveness probe failed.
    PingError,
    /// The liveness probe answered.
    PingOk,
}

/// What the connection loop must do next.
pub enum ConnAction {
    /// Discard the partial handle, sleep the fixed interval, try again.
    Retry,
    /// The connection is live; keep the handle and stop retrying.
    Established,
}

impl StoreMongo {
    /// Collection counts line up, names are unique, each id set is strictly
    /// ascending, and no known id is above its collection's counter.
    pub open spec fn wf(&self) -> bool {
        &&& self.items@.len() == self.collections@.len()
        &&& self.items_count@.len() == self.collections@.len()
        &&& forall|i: int, j: int|
            0 <= i < j < self.collections@.len() ==> self.collections@[i]@
                != self.collections@[j]@
        &&& forall|c: int| 0 <= c < self.items@.len() ==> sorted_strict(#[trigger] self.items@[c]@)
        &&& forall|c: int, k: int|
            0 <= c < self.items@.len() && 0 <= k < self.items@[c]@.len()
                ==> #[trigger] self.items@[c]@[k] <= self.items_count@[c]
    }

    /// Whether a collection of this name has been registered.
    pub open spec fn registered(&self, name: Seq<char>) -> bool {
        exists|i: int| 0 <= i < self.collections@.len() && self.collections@[i]@ == name
    }

    /// The position of a registered collection.
    pub open spec fn idx_of(&self, name: Seq<char>) -> int {
        choose|i: int| 0 <= i < self.collections@.len() && self.collections@[i]@ == name
    }

    /// The ids the index knows for a registered collection.
    pub open spec fn ids_of(&self, name: Seq<char>) -> Seq<u64> {
        self.items@[self.idx_of(name)]@
    }

    /// The id counter of a registered collection.
    pub open spec fn counter_of(&self, name: Seq<char>) -> u64 {
        self.items_count@[self.idx_of(name)]
    }

    /// Whether the index knows `id` as live in the named collection.
    pub open spec fn tracks(&self, name: Seq<char>, id: u64) -> bool {
        self.registered(name) && self.ids_of(name).contains(id)
    }

    /// A fresh, unconnected backend with no collections, aimed at the
    /// default logical database.
    pub fn new() -> (r: StoreMongo)
        ensures
            r.wf(),
            r.collections@.len() == 0,
            !r.connected,
            r.path@ == Seq::<char>::empty(),
            r.local_path@ == Seq::<char>::empty(),
            r.database_name@ == "isabelle"@,
    {
        StoreMongo {
            path: String::new(),
            local_path: String::new(),
            collections: Vec::new(),
            items: Vec::new(),
            items_count: Vec::new(),
            connected: false,
            database_name: "isabelle".to_owned(),
        }
    }

    /// Record the remote address and the local settings path, as `connect`
    /// receives them.
    pub fn set_endpoints(&mut self, url: &str, alturl: &str)
        ensures
            final(self).path@ == url@,
            final(self).local_path@ == alturl@,
            final(self).collections@ == old(self).collections@,
            final(self).items@ == old(self).items@,
            final(self).items_count@ == old(self).items_count@,
            final(self).connected == old(self).connected,
            final(self).database_name@ == old(self).database_name@,
    {
        self.path = url.to_owned();
        self.local_path = alturl.to_owned();
    }

    /// Whether the connection loop has work to do.
    pub fn needs_connection(&self) -> (r: bool)
        ensures
            r == !self.connected,
    {
        !self.connected
    }

    /// One decision step of the connection loop: trust the connection only
    /// after the liveness probe answers; on any failure drop the partial
    /// handle and retry after the fixed interval — indefinitely, with no
    /// retry cap and no backoff.
    pub fn conn_step(&mut self, probe: &ConnProbe) -> (a: ConnAction)
        ensures
            final(self).connected == (probe is PingOk),
            a is Established <==> probe is PingOk,
            final(self).path@ == old(self).path@,
            final(self).local_path@ == old(self).local_path@,
            final(self).collections@ == old(self).collections@,
            final(self).items@ == old(self).items@,
            final(self).items_count@ == old(self).items_count@,
            final(self).database_name@ == old(self).database_name@,
    {
        match probe {
            ConnProbe::PingOk => {
                self.connected = true;
                ConnAction::Established
            },
            _ => {
                self.connected = false;
                ConnAction::Retry
            },
        }
    }

    /// Register one collection name: a new name gets an empty id set and a
    /// zero counter — existing remote data is never scanned to repopulate
    /// the index; a name already registered changes nothing.
    pub fn register_collection(&mut self, name: &str)
        requires
            old(self).wf(),
        ensures
            final(self).wf(),
            final(self).registered(name@),
            forall|n: Seq<char>|
                final(self).registered(n) <==> old(self).registered(n) || n == name@,
            forall|n: Seq<char>|
                old(self).registered(n) ==> final(self).ids_of(n) == old(self).ids_of(n)
                    && final(self).counter_of(n) == old(self).counter_of(n),
            !old(self).registered(name@) ==> final(self).ids_of(name@) == Seq::<u64>::empty()
                && final(self).counter_of(name@) == 0,
            old(self).registered(name@) ==> final(self).collections@ == old(self).collections@
                && final(self).items@ == old(self).items@
                && final(self).items_count@ == old(self).items_count@,
            final(self).path@ == old(self).path@,
            final(self).local_path@ == old(self).local_path@,
            final(self).connected == old(self).connected,
            final(self).database_name@ == old(self).database_name@,
    {
        match self.find_coll(name) {
            Some(_) => {},
            None => {
                self.collections.push(name.to_owned());
                self.items.push(Vec::new());
                self.items_count.push(0);
                proof {
                    let n0 = self.collections@.len() - 1;
                    assert(self.collections@[n0]@ == name@);
                    assert forall|n: Seq<char>|
                        old(self).registered(n) implies final(self).ids_of(n)
                        == old(self).ids_of(n) && final(self).counter_of(n)
                        == old(self).counter_of(n) by {
                        lemma_idx_stable(old(self), self, n);
                    }
                    assert(final(self).ids_of(name@) == Seq::<u64>::empty()
                        && final(self).counter_of(name@) == 0) by {
                        lemma_idx_last(self, name@);
                    }
                    assert forall|n: Seq<char>| final(self).registered(n)
                        implies old(self).registered(n) || n == name@ by {
                        let i = choose|i: int|
                            0 <= i < self.collections@.len() && self.collections@[i]@ == n;
                        if i < n0 {
                            assert(old(self).collections@[i]@ == n);
                        }
                    }
                    assert forall|n: Seq<char>| old(self).registered(n) implies final(self)
                        .registered(n) by {
                        let i = choose|i: int|
                            0 <= i < old(self).collections@.len() && old(self).collections@[i]@
                                == n;
                        assert(self.collections@[i]@ == n);
                    }
                }
            },
        }
    }

    /// Register every name on the list, in order; names already present
    /// keep their index state.
    pub fn register_collections(&mut self, names: &Vec<String>)
        requires
            old(self).wf(),
        ensures
            final(self).wf(),
            forall|k: int| 0 <= k < names@.len() ==> final(self).registered(#[trigger] names@[k]@),
            forall|n: Seq<char>|
                final(self).registered(n) <==> old(self).registered(n) || exists|k: int|
                    0 <= k < names@.len() && names@[k]@ == n,
            forall|n: Seq<char>|
                old(self).registered(n) ==> final(self).ids_of(n) == old(self).ids_of(n)
                    && final(self).counter_of(n) == old(self).counter_of(n),
            forall|n: Seq<char>|
                !old(self).registered(n) && final(self).registered(n) ==> final(self).ids_of(n)
                    == Seq::<u64>::empty() && final(self).counter_of(n) == 0,
            final(self).path@ == old(self).path@,
            final(self).local_path@ == old(self).local_path@,
            final(self).connected == old(self).connected,
            final(self).database_name@ == old(self).database_name@,
    {
        let mut k: usize = 0;
        while k < names.len()
            invariant
                k <= names@.len(),
                self.wf(),
                forall|j: int| 0 <= j < k ==> self.registered(#[trigger] names@[j]@),
                forall|n: Seq<char>|
                    self.registered(n) <==> old(self).registered(n) || exists|j: int|
                        0 <= j < k && names@[j]@ == n,
                forall|n: Seq<char>|
                    old(self).registered(n) ==> self.ids_of(n) == old(self).ids_of(n)
                        && self.counter_of(n) == old(self).counter_of(n),
                forall|n: Seq<char>|
                    !old(self).registered(n) && self.registered(n) ==> self.ids_of(n)
                        == Seq::<u64>::empty() && self.counter_of(n) == 0,
                self.path@ == old(self).path@,
                self.local_path@ == old(self).local_path@,
                self.connected == old(self).connected,
                self.database_name@ == old(self).database_name@,
            decreases names@.len() - k,
        {
            self.register_collection(names[k].as_str());
            k = k + 1;
        }
    }

    /// The names of the registered collections, in registration order;
    /// answered from the index, with no remote round-trip.
    pub fn get_collections(&self) -> (r: Vec<String>)
        ensures
            r@.len() == self.collections@.len(),
            forall|i: int| 0 <= i < r@.len() ==> r@[i]@ == #[trigger] self.collections@[i]@,
    {
        let mut out: Vec<String> = Vec::new();
        let mut i: usize = 0;
        while i < self.collections.len()
            invariant
                i <= self.collections@.len(),
                out@.len() == i,
                forall|j: int| 0 <= j < i ==> out@[j]@ == #[trigger] self.collections@[j]@,
            decreases self.collections@.len() - i,
        {
            out.push(self.collections[i].clone());
            i = i + 1;
        }
        out
    }

    /// The ids the index knows for a collection; an unregistered name gives
    /// the empty set.
    pub fn get_item_ids(&self, collection: &str) -> (r: Vec<u64>)
        requires
            self.wf(),
        ensures
            self.registered(collection@) ==> r@ == self.ids_of(collection@),
            !self.registered(collection@) ==> r@ == Seq::<u64>::empty(),
    {
        match self.find_coll(collection) {
            Some(ci) => {
                let src_ids = &self.items[ci];
                let mut out: Vec<u64> = Vec::new();
                let mut k: usize = 0;
                while k < src_ids.len()
                    invariant
                        k <= src_ids@.len(),
                        out@ =~= src_ids@.take(k as int),
                    decreases src_ids@.len() - k,
                {
                    out.push(src_ids[k]);
                    k = k + 1;
                }
                proof {
                    assert(out@ =~= src_ids@);
                }
                out
            },
            None => Vec::new(),
        }
    }

    /// The fixed credentials-file path under the local settings directory.
    pub fn get_credentials(&self) -> (r: String)
        ensures
            r@ == self.local_path@ + "/credentials.json"@,
    {
        self.local_path.clone().concat("/credentials.json")
    }

    /// The fixed token-cache path under the local settings directory.
    pub fn get_pickle(&self) -> (r: String)
        ensures
            r@ == self.local_path@ + "/token.pickle"@,
    {
        self.local_path.clone().concat("/token.pickle")
    }

    /// Where the internals configuration document is read from.
    pub fn internals_path(&self) -> (r: String)
        ensures
            r@ == self.local_path@ + "/internals.js"@,
    {
        self.local_path.clone().concat("/internals.js")
    }

    /// Where the settings document is read from and written to.
    pub fn settings_path(&self) -> (r: String)
        ensures
            r@ == self.local_path@ + "/settings.js"@,
    {
        self.local_path.clone().concat("/settings.js")
    }

    /// The position of a collection name in the index, if registered.
    fn find_coll(&self, collection: &str) -> (r: Option<usize>)
        requires
            self.wf(),
        ensures
            match r {
                Some(i) => i < self.collections@.len() && self.collections@[i as int]@
                    == collection@ && self.registered(collection@) && self.idx_of(collection@)
                    == i as int,
                None => !self.registered(collection@),
            },
    {
        let mut i: usize = 0;
        while i < self.collections.len()
            invariant
                self.wf(),
                i <= self.collections@.len(),
                forall|j: int| 0 <= j < i ==> #[trigger] self.collections@[j]@ != collection@,
            decreases self.collections@.len() - i,
        {
            if crate::item::str_eq(self.collections[i].as_str(), collection) {
                proof {
                    assert(self.collections@[i as int]@ == collection@);
                    lemma_idx_of(self, collection@);
                }
                return Some(i);
            }
            i = i + 1;
        }
        None
    }
}

/// For a registered name, `idx_of` is the one position holding it.
proof fn lemma_idx_of(s: &StoreMongo, n: Seq<char>)
    requires
        forall|i: int, j: int|
            0 <= i < j < s.collections@.len() ==> s.collections@[i]@ != s.collections@[j]@,
        s.registered(n),
    ensures
        0 <= s.idx_of(n) < s.collections@.len(),
        s.collections@[s.idx_of(n)]@ == n,
        forall|j: int| 0 <= j < s.collections@.len() && s.collections@[j]@ == n ==> j == s.idx_of(
            n,
        ),
{
    let i = s.idx_of(n);
    assert(0 <= i < s.collections@.len() && s.collections@[i]@ == n);
}

/// Appending a new name moves no existing collection.
proof fn lemma_idx_stable(before: &StoreMongo, after: &StoreMongo, n: Seq<char>)
    requires
        before.wf(),
        after.wf(),
        before.registered(n),
        after.collections@.len() == before.collections@.len() + 1,
        forall|i: int|
            0 <= i < before.collections@.len() ==> after.collections@[i] == #[trigger] before
                .collections@[i],
        forall|i: int|
            0 <= i < before.items@.len() ==> after.items@[i] == #[trigger] before.items@[i],
        forall|i: int|
            0 <= i < before.items_count@.len() ==> after.items_count@[i] == #[trigger] before
                .items_count@[i],
    ensures
        after.registered(n),
        after.ids_of(n) == before.ids_of(n),
        after.counter_of(n) == before.counter_of(n),
{
    lemma_idx_of(before, n);
    let i = before.idx_of(n);
    assert(after.collections@[i]@ == n);
    lemma_idx_of(after, n);
}

impl StoreMongo {
    /// The local half of a delete: the remote delete is issued regardless,
    /// but the result reflects local bookkeeping alone — true exactly when
    /// the index knew the id, which is then removed.
    pub fn del_item(&mut self, collection: &str, id: u64) -> (r: bool)
        requires
            old(self).wf(),
        ensures
            final(self).wf(),
            r == old(self).tracks(collection@, id),
            final(self).collections@ == old(self).collections@,
            !old(self).tracks(collection@, id) ==> final(self).items@ == old(self).items@
                && final(self).items_count@ == old(self).items_count@,
            old(self).tracks(collection@, id) ==> {
                &&& forall|x: u64|
                    final(self).ids_of(collection@).contains(x) <==> (old(self).ids_of(
                        collection@,
                    ).contains(x) && x != id)
                &&& final(self).counter_of(collection@) == old(self).counter_of(collection@)
                &&& forall|n: Seq<char>|
                    old(self).registered(n) && n != collection@ ==> final(self).ids_of(n) == old(
                        self,
                    ).ids_of(n) && final(self).counter_of(n) == old(self).counter_of(n)
            },
            final(self).path@ == old(self).path@,
            final(self).local_path@ == old(self).local_path@,
            final(self).connected == old(self).connected,
            final(self).database_name@ == old(self).database_name@,
    {
        let ci_opt = self.find_coll(collection);
        match ci_opt {
            Some(ci) => {
                match find_id(&self.items[ci], id) {
                    Some(k) => {
                        proof {
                            assert(old(self).ids_of(collection@).contains(id));
                        }
                        let ids = &mut self.items[ci];
                        ids.remove(k);
                        proof {
                            old(self).items@[ci as int]@.remove_ensures(k as int);
                            assert(sorted_strict(self.items@[ci as int]@)) by {
                                assert forall|a: int, b: int|
                                    0 <= a < b < self.items@[ci as int]@.len() implies self.items@[ci as int]@[a] < self.items@[ci as int]@[b] by {
                                    if b < k as int {
                                    } else if a < k as int {
                                        assert(self.items@[ci as int]@[a] == old(self).items@[ci as int]@[a]);
                                        assert(self.items@[ci as int]@[b] == old(self).items@[ci as int]@[b + 1]);
                                    } else {
                                        assert(self.items@[ci as int]@[a] == old(self).items@[ci as int]@[a + 1]);
                                        assert(self.items@[ci as int]@[b] == old(self).items@[ci as int]@[b + 1]);
                                    }
                                }
                            }
                            assert forall|kk: int|
                                0 <= kk < self.items@[ci as int]@.len() implies #[trigger] self
                                .items@[ci as int]@[kk] <= self.items_count@[ci as int] by {
                                if kk < k as int {
                                    assert(self.items@[ci as int]@[kk] == old(self).items@[ci as int]@[kk]);
                                } else {
                                    assert(self.items@[ci as int]@[kk] == old(self).items@[ci as int]@[kk + 1]);
                                }
                            }
                            lemma_wf_one_coll(old(self), self, ci as int);
                            lemma_coll_update(old(self), self, ci as int, collection@);
                            assert forall|x: u64|
                                final(self).ids_of(collection@).contains(x)
                                implies (old(self).ids_of(collection@).contains(x) && x != id) by {
                                let w = choose|w: int|
                                    0 <= w < self.items@[ci as int]@.len()
                                        && self.items@[ci as int]@[w] == x;
                                if w < k as int {
                                    assert(old(self).items@[ci as int]@[w] == x);
                                    assert(old(self).items@[ci as int]@[w] != id);
                                } else {
                                    assert(old(self).items@[ci as int]@[w + 1] == x);
                                    assert(old(self).items@[ci as int]@[w + 1] != id);
                                }
                            }
                            assert forall|x: u64|
                                old(self).ids_of(collection@).contains(x) && x != id
                                implies final(self).ids_of(collection@).contains(x) by {
                                let w = choose|w: int|
                                    0 <= w < old(self).items@[ci as int]@.len()
                                        && old(self).items@[ci as int]@[w] == x;
                                if w < k as int {
                                    assert(self.items@[ci as int]@[w] == x);
                                } else {
                                    assert(w != k as int);
                                    assert(self.items@[ci as int]@[w - 1] == x);
                                }
                            }
                        }
                        true
                    },
                    None => false,
                }
            },
            None => false,
        }
    }

    /// The item as it goes to the write path: transient internal flags are
    /// stripped, and the unassigned-id sentinel is replaced by the
    /// collection's counter plus one. An unregistered collection assigns
    /// nothing.
    pub fn set_item_prepare(&self, collection: &str, exp_itm: &Item) -> (out: Item)
        requires
            self.wf(),
            exp_itm.wf(),
            exp_itm.id == ID_UNASSIGNED && self.registered(collection@) ==> self.counter_of(
                collection@,
            ) < ID_UNASSIGNED - 1,
        ensures
            out.wf(),
            out.strs@ == exp_itm.strs@,
            out.nums@ == exp_itm.nums@,
            out.bools_map() == exp_itm.bools_map().remove("__security_preserve"@),
            out.id == if exp_itm.id == ID_UNASSIGNED && self.registered(collection@) {
                (self.counter_of(collection@) + 1) as u64
            } else {
                exp_itm.id
            },
    {
        let mut itm = exp_itm.duplicate();
        itm.remove_bool("__security_preserve");
        if itm.id == u64::MAX {
            match self.find_coll(collection) {
                Some(ci) => {
                    itm.id = self.items_count[ci] + 1;
                },
                None => {},
            }
        }
        itm
    }

    /// The item as it must be persisted: with `merge` and an existing item,
    /// the incoming fields overwrite the existing item field by field;
    /// otherwise the incoming item as given.
    pub fn set_item_resolve(itm: &Item, old_itm: &Option<Item>, merge: bool) -> (out: Item)
        requires
            itm.wf(),
            old_itm matches Some(o) ==> o.wf(),
        ensures
            out.wf(),
            match *old_itm {
                Some(o) => if merge {
                    &&& out.strs_map() == o.strs_map().union_prefer_right(itm.strs_map())
                    &&& out.bools_map() == o.bools_map().union_prefer_right(itm.bools_map())
                    &&& out.nums_map() == o.nums_map().union_prefer_right(itm.nums_map())
                    &&& out.id == if itm.id != ID_UNASSIGNED {
                        itm.id
                    } else {
                        o.id
                    }
                } else {
                    out.eqv(itm)
                },
                None => out.eqv(itm),
            },
    {
        if merge {
            if let Some(o) = old_itm {
                let mut out = o.duplicate();
                out.merge(itm);
                return out;
            }
        }
        itm.duplicate()
    }

    /// The index update after a write was attempted: mark the id live and
    /// advance the counter to at least the written id — optimistically,
    /// whether or not the remote upsert succeeded. Returns the id, which is
    /// what the write path reports.
    pub fn set_item_record(&mut self, collection: &str, id: u64) -> (r: u64)
        requires
            old(self).wf(),
        ensures
            final(self).wf(),
            r == id,
            final(self).collections@ == old(self).collections@,
            !old(self).registered(collection@) ==> final(self).items@ == old(self).items@
                && final(self).items_count@ == old(self).items_count@,
            old(self).registered(collection@) ==> {
                &&& forall|x: u64|
                    final(self).ids_of(collection@).contains(x) <==> (old(self).ids_of(
                        collection@,
                    ).contains(x) || x == id)
                &&& final(self).counter_of(collection@) == if id > old(self).counter_of(
                    collection@,
                ) {
                    id
                } else {
                    old(self).counter_of(collection@)
                }
                &&& forall|n: Seq<char>|
                    old(self).registered(n) && n != collection@ ==> final(self).ids_of(n) == old(
                        self,
                    ).ids_of(n) && final(self).counter_of(n) == old(self).counter_of(n)
            },
            final(self).path@ == old(self).path@,
            final(self).local_path@ == old(self).local_path@,
            final(self).connected == old(self).connected,
            final(self).database_name@ == old(self).database_name@,
    {
        let ci_opt = self.find_coll(collection);
        match ci_opt {
            Some(ci) => {
                let ids = &mut self.items[ci];
                insert_id(ids, id);
                let cnt = self.items_count[ci];
                if id > cnt {
                    self.items_count[ci] = id;
                }
                proof {
                    assert forall|kk: int|
                        0 <= kk < self.items@[ci as int]@.len() implies #[trigger] self.items@[ci as int]@[kk] <= self.items_count@[ci as int] by {
                        let x = self.items@[ci as int]@[kk];
                        assert(self.items@[ci as int]@.contains(x));
                        if x != id {
                            assert(old(self).items@[ci as int]@.contains(x));
                            let w = choose|w: int|
                                0 <= w < old(self).items@[ci as int]@.len()
                                    && old(self).items@[ci as int]@[w] == x;
                            assert(old(self).items@[ci as int]@[w] <= old(self).items_count@[ci as int]);
                        }
                    }
                    lemma_wf_one_coll(old(self), self, ci as int);
                    lemma_coll_update(old(self), self, ci as int, collection@);
                }
                id
            },
            None => id,
        }
    }
}

/// Sequential unassigned-id writes take consecutive, dense ids: preparing a
/// write with the unassigned sentinel takes the counter plus one, recording
/// the write advances the counter to that id, so the next unassigned write
/// takes the next id.
pub proof fn lemma_unassigned_ids_dense(
    s0: StoreMongo,
    s1: StoreMongo,
    c: Seq<char>,
    id1: u64,
    id2: u64,
)
    requires
        s0.wf(),
        s0.registered(c),
        s0.counter_of(c) < ID_UNASSIGNED - 1,
        id1 == s0.counter_of(c) + 1,
        s1.registered(c),
        s1.counter_of(c) == if id1 > s0.counter_of(c) {
            id1
        } else {
            s0.counter_of(c)
        },
        s1.counter_of(c) < ID_UNASSIGNED - 1,
        id2 == s1.counter_of(c) + 1,
    ensures
        id2 == id1 + 1,
{
}

/// Membership in a vector of ids.
fn find_id(v: &Vec<u64>, id: u64) -> (r: Option<usize>)
    ensures
        match r {
            Some(k) => k < v@.len() && v@[k as int] == id,
            None => !v@.contains(id),
        },
{
    let mut k: usize = 0;
    while k < v.len()
        invariant
            k <= v@.len(),
            forall|j: int| 0 <= j < k ==> v@[j] != id,
        decreases v@.len() - k,
    {
        if v[k] == id {
            return Some(k);
        }
        k = k + 1;
    }
    None
}

/// Insert an id into a strictly ascending vector, keeping it strictly
/// ascending; inserting a present id changes nothing.
fn insert_id(v: &mut Vec<u64>, id: u64)
    requires
        sorted_strict(old(v)@),
    ensures
        sorted_strict(final(v)@),
        forall|x: u64| final(v)@.contains(x) <==> (old(v)@.contains(x) || x == id),
{
    let mut k: usize = 0;
    while k < v.len() && v[k] < id
        invariant
            k <= v@.len(),
            v@ == old(v)@,
            forall|j: int| 0 <= j < k ==> v@[j] < id,
        decreases v@.len() - k,
    {
        k = k + 1;
    }
    if k < v.len() && v[k] == id {
        proof {
            assert(v@.contains(id));
            assert(forall|x: u64| v@.contains(x) <==> (old(v)@.contains(x) || x == id));
        }
        return;
    }
    v.insert(k, id);
    proof {
        old(v)@.insert_ensures(k as int, id);
        assert(sorted_strict(v@)) by {
            assert forall|a: int, b: int| 0 <= a < b < v@.len() implies v@[a] < v@[b] by {
                if b < k as int {
                } else if a < k as int && b == k as int {
                    assert(v@[a] == old(v)@[a] && v@[a] < id);
                } else if a < k as int {
                    assert(v@[a] == old(v)@[a] && v@[a] < id);
                    assert(v@[b] == old(v)@[b - 1]);
                    assert(k as int <= b - 1 < old(v)@.len());
                    assert(id < old(v)@[k as int]);
                    assert(old(v)@[k as int] <= old(v)@[b - 1]);
                } else if a == k as int {
                    assert(v@[a] == id);
                    assert(v@[b] == old(v)@[b - 1]);
                    assert(k as int <= b - 1 < old(v)@.len());
                    assert(id < old(v)@[k as int]);
                    assert(old(v)@[k as int] <= old(v)@[b - 1]);
                } else {
                    assert(v@[a] == old(v)@[a - 1] && v@[b] == old(v)@[b - 1]);
                }
            }
        }
        assert forall|x: u64| v@.contains(x) implies (old(v)@.contains(x) || x == id) by {
            let w = choose|w: int| 0 <= w < v@.len() && v@[w] == x;
            if w < k as int {
                assert(old(v)@[w] == x);
            } else if w == k as int {
            } else {
                assert(old(v)@[w - 1] == x);
            }
        }
        assert forall|x: u64| old(v)@.contains(x) || x == id implies v@.contains(x) by {
            if x == id {
                assert(v@[k as int] == x);
            } else {
                let w = choose|w: int| 0 <= w < old(v)@.len() && old(v)@[w] == x;
                if w < k as int {
                    assert(v@[w] == x);
                } else {
                    assert(v@[w + 1] == x);
                }
            }
        }
    }
}

/// A store that differs from a well-formed one only in one collection's id
/// set and counter is well-formed, provided that collection's id set is
/// strictly ascending and bounded by its counter.
proof fn lemma_wf_one_coll(before: &StoreMongo, after: &StoreMongo, ci: int)
    requires
        before.wf(),
        after.collections@ == before.collections@,
        after.items@.len() == before.items@.len(),
        after.items_count@.len() == before.items_count@.len(),
        forall|i: int|
            0 <= i < before.items@.len() && i != ci ==> after.items@[i] == #[trigger] before.items@[i],
        forall|i: int|
            0 <= i < before.items_count@.len() && i != ci ==> after.items_count@[i]
                == #[trigger] before.items_count@[i],
        0 <= ci < after.items@.len(),
        sorted_strict(after.items@[ci]@),
        forall|kk: int|
            0 <= kk < after.items@[ci]@.len() ==> #[trigger] after.items@[ci]@[kk]
                <= after.items_count@[ci],
    ensures
        after.wf(),
{
    assert forall|c: int| 0 <= c < after.items@.len() implies sorted_strict(
        #[trigger] after.items@[c]@,
    ) by {
        if c != ci {
            assert(after.items@[c] == before.items@[c]);
        }
    }
    assert forall|c: int, k: int|
        0 <= c < after.items@.len() && 0 <= k < after.items@[c]@.len() implies #[trigger] after
        .items@[c]@[k] <= after.items_count@[c] by {
        if c != ci {
            assert(after.items@[c] == before.items@[c]);
        }
    }
}

/// Changing one collection's id set (and possibly its counter) moves no
/// other collection, as long as the name layout is untouched.
proof fn lemma_coll_update(before: &StoreMongo, after: &StoreMongo, ci: int, name: Seq<char>)
    requires
        before.wf(),
        before.registered(name),
        before.idx_of(name) == ci,
        after.collections@ == before.collections@,
        after.items@.len() == before.items@.len(),
        after.items_count@.len() == before.items_count@.len(),
        forall|i: int| 0 <= i < before.items@.len() && i != ci ==> after.items@[i] == #[trigger] before.items@[i],
        forall|i: int|
            0 <= i < before.items_count@.len() && i != ci ==> after.items_count@[i] == #[trigger] before.items_count@[i],
    ensures
        forall|n: Seq<char>| after.registered(n) == before.registered(n),
        after.registered(name),
        after.idx_of(name) == ci,
        after.ids_of(name) == after.items@[ci]@,
        after.counter_of(name) == after.items_count@[ci],
        forall|n: Seq<char>|
            before.registered(n) && n != name ==> after.ids_of(n) == before.ids_of(n)
                && after.counter_of(n) == before.counter_of(n),
{
    lemma_idx_of(before, name);
    lemma_idx_of(after, name);
    assert forall|n: Seq<char>|
        before.registered(n) && n != name implies after.ids_of(n) == before.ids_of(n)
        && after.counter_of(n) == before.counter_of(n) by {
        lemma_idx_of(before, n);
        lemma_idx_of(after, n);
        let i = before.idx_of(n);
        assert(after.collections@[i]@ == n);
        assert(after.idx_of(n) == i);
        assert(before.collections@[ci]@ == name);
        assert(i != ci);
    }
}

/// A name just pushed sits at the last position.
proof fn lemma_idx_last(s: &StoreMongo, n: Seq<char>)
    requires
        s.wf(),
        s.collections@.len() > 0,
        s.collections@.last()@ == n,
    ensures
        s.registered(n),
        s.idx_of(n) == s.collections@.len() - 1,
{
    assert(s.collections@[s.collections@.len() - 1]@ == n);
    lemma_idx_of(s, n);
}


/// Declares bson's BSON document type so filter documents can pass through
/// the plan; its contents stay opaque here.
#[verifier::external_type_specification]
#[verifier::external_body]
pub struct ExDocument(Document);

/// Whether the text is valid JSON whose top-level value converts to a BSON
/// document.
pub uninterp spec fn json_doc_ok(s: Seq<char>) -> bool;

/// Relies on bson::Document::new: the empty document, which as a filter
/// matches every remote document.
#[verifier::external_body]
fn empty_document() -> (d: Document) {
    Document::new()
}

impl StoreMongo {
    /// Relies on serde_json::from_str and bson::ser::to_document, chained:
    /// the filter text becomes a BSON document exactly when it is valid
    /// JSON whose top-level value converts to a document; the outcome
    /// depends on the text alone, and the store is not touched.
    #[verifier::external_body]
    pub fn json_to_bson(&mut self, json_string: &str) -> (r: Result<Document, bool>)
        ensures
            *final(self) == *old(self),
            r is Ok <==> json_doc_ok(json_string@),
            r matches Err(e) ==> e == false,
    {
        let js: serde_json::Value = match serde_json::from_str(json_string) {
            Ok(tmp) => tmp,
            Err(_error) => return Err(false),
        };
        match bson::ser::to_document(&js) {
            Ok(tmp) => Ok(tmp),
            Err(_error) => Err(false),
        }
    }
}

/// A query result: id-to-item entries with unique ids, and the number of
/// matching rows before pagination — not the number of rows returned.
pub struct ListResult {
    pub map: Vec<(u64, Item)>,
    pub total_count: u64,
}

/// Each id occurs at most once.
pub open spec fn pair_keys_unique(s: Seq<(u64, Item)>) -> bool {
    forall|a: int, b: int| 0 <= a < b < s.len() ==> s[a].0 != s[b].0
}

/// The map an entry list stands for; well-formed lists carry each id once.
pub open spec fn pairs_map(s: Seq<(u64, Item)>) -> Map<u64, Item>
    decreases s.len(),
{
    if s.len() == 0 {
        Map::empty()
    } else {
        pairs_map(s.drop_last()).insert(s.last().0, s.last().1)
    }
}

/// Items keyed by their own id, later items shadowing earlier ones.
pub open spec fn items_by_id(s: Seq<Item>) -> Map<u64, Item>
    decreases s.len(),
{
    if s.len() == 0 {
        Map::empty()
    } else {
        items_by_id(s.drop_last()).insert(s.last().id, s.last())
    }
}

proof fn lemma_pairs_map_domain(s: Seq<(u64, Item)>, k: u64)
    ensures
        pairs_map(s).contains_key(k) <==> exists|i: int| 0 <= i < s.len() && s[i].0 == k,
    decreases s.len(),
{
    if s.len() == 0 {
    } else {
        lemma_pairs_map_domain(s.drop_last(), k);
        if s.last().0 == k {
            assert(s[s.len() - 1].0 == k);
        } else {
            if pairs_map(s).contains_key(k) {
                let i = choose|i: int| 0 <= i < s.drop_last().len() && s.drop_last()[i].0 == k;
                assert(s[i].0 == k);
            }
            if exists|i: int| 0 <= i < s.len() && s[i].0 == k {
                let i = choose|i: int| 0 <= i < s.len() && s[i].0 == k;
                assert(s.drop_last()[i].0 == k);
            }
        }
    }
}

proof fn lemma_pairs_map_at(s: Seq<(u64, Item)>, i: int)
    requires
        pair_keys_unique(s),
        0 <= i < s.len(),
    ensures
        pairs_map(s).contains_key(s[i].0),
        pairs_map(s)[s[i].0] == s[i].1,
    decreases s.len(),
{
    if i < s.len() - 1 {
        lemma_pairs_map_at(s.drop_last(), i);
        assert(s.drop_last()[i] == s[i]);
        assert(s.last().0 != s[i].0);
    }
}

proof fn lemma_pairs_map_push(s: Seq<(u64, Item)>, p: (u64, Item))
    ensures
        pairs_map(s.push(p)) == pairs_map(s).insert(p.0, p.1),
{
    assert(s.push(p).drop_last() =~= s);
    assert(s.push(p).last() == p);
}

proof fn lemma_pairs_map_update(s: Seq<(u64, Item)>, i: int, p: (u64, Item))
    requires
        pair_keys_unique(s),
        0 <= i < s.len(),
        s[i].0 == p.0,
    ensures
        pairs_map(s.update(i, p)) == pairs_map(s).insert(p.0, p.1),
    decreases s.len(),
{
    let t = s.update(i, p);
    if i == s.len() - 1 {
        assert(t.drop_last() =~= s.drop_last());
        assert(t.last() == p);
        assert(pairs_map(s).insert(p.0, p.1) =~= pairs_map(s.drop_last()).insert(p.0, p.1));
    } else {
        lemma_pairs_map_update(s.drop_last(), i, p);
        assert(t.drop_last() =~= s.drop_last().update(i, p));
        assert(t.last() == s.last());
        assert(s.last().0 != p.0);
        assert(pairs_map(s.drop_last()).insert(p.0, p.1).insert(s.last().0, s.last().1)
            =~= pairs_map(s.drop_last()).insert(s.last().0, s.last().1).insert(p.0, p.1));
    }
}

/// Add or replace the entry keyed by the item's own id.
fn put_by_id(list: &mut Vec<(u64, Item)>, itm: Item)
    requires
        pair_keys_unique(old(list)@),
    ensures
        pair_keys_unique(final(list)@),
        pairs_map(final(list)@) == pairs_map(old(list)@).insert(itm.id, itm),
{
    let id = itm.id;
    let mut k: usize = 0;
    while k < list.len()
        invariant
            k <= list@.len(),
            list@ == old(list)@,
            pair_keys_unique(list@),
            id == itm.id,
            forall|j: int| 0 <= j < k ==> list@[j].0 != id,
        decreases list@.len() - k,
    {
        if list[k].0 == id {
            list[k] = (id, itm);
            proof {
                lemma_pairs_map_update(old(list)@, k as int, list@[k as int]);
                assert(forall|a: int, b: int|
                    0 <= a < b < list@.len() ==> list@[a].0 == old(list)@[a].0 && list@[b].0
                        == old(list)@[b].0);
            }
            return;
        }
        k = k + 1;
    }
    list.push((id, itm));
    proof {
        lemma_pairs_map_push(old(list)@, list@.last());
        assert(forall|a: int| 0 <= a < list@.len() - 1 ==> #[trigger] list@[a].0 != id);
    }
}

impl ListResult {
    /// Entries carry unique ids.
    pub open spec fn wf(&self) -> bool {
        pair_keys_unique(self.map@)
    }

    /// The entries as a map from id to item.
    pub open spec fn as_map(&self) -> Map<u64, Item> {
        pairs_map(self.map@)
    }

    /// The entry under an id, if any.
    pub fn find(&self, id: u64) -> (r: Option<&Item>)
        requires
            self.wf(),
        ensures
            match r {
                Some(itm) => self.as_map().contains_key(id) && *itm == self.as_map()[id],
                None => !self.as_map().contains_key(id),
            },
    {
        proof {
            lemma_pairs_map_domain(self.map@, id);
        }
        let mut k: usize = 0;
        while k < self.map.len()
            invariant
                k <= self.map@.len(),
                self.wf(),
                forall|j: int| 0 <= j < k ==> self.map@[j].0 != id,
            decreases self.map@.len() - k,
        {
            if self.map[k].0 == id {
                proof {
                    lemma_pairs_map_at(self.map@, k as int);
                }
                return Some(&self.map[k].1);
            }
            k = k + 1;
        }
        None
    }
}

/// The effective skip: the sentinel means none.
pub open spec fn eff_skip(skip: u64) -> u64 {
    if skip == UNBOUNDED {
        0
    } else {
        skip
    }
}

/// The effective limit: capped at the remote engine's signed maximum, so
/// the sentinel means practically unbounded.
pub open spec fn eff_limit(limit: u64) -> u64 {
    if limit > 0x7fff_ffff_ffff_ffff {
        0x7fff_ffff_ffff_ffff
    } else {
        limit
    }
}

/// The effective lower id bound: the sentinel means unbounded below.
pub open spec fn eff_id_min(id_min: u64) -> u64 {
    if id_min == UNBOUNDED {
        0
    } else {
        id_min
    }
}

/// The sorted read path is taken exactly when the lower id bound is the
/// sentinel and a sort key was given.
pub open spec fn sorted_mode(id_min: u64, sort_key: Seq<char>) -> bool {
    id_min == UNBOUNDED && sort_key.len() != 0
}

/// One past the last present-row position the in-process pager returns.
/// A zero limit is a sharp edge of this pager: with no skip one row still
/// comes back, with a skip none do.
pub open spec fn page_end(skip: u64, limit: u64) -> int {
    if eff_limit(limit) == 0 {
        if eff_skip(skip) == 0 {
            1
        } else {
            0
        }
    } else {
        eff_skip(skip) + eff_limit(limit)
    }
}

/// The ids of `s` that lie in `[lo, hi]`, in order.
pub open spec fn ids_in_range(s: Seq<u64>, lo: u64, hi: u64) -> Seq<u64>
    decreases s.len(),
{
    if s.len() == 0 {
        Seq::empty()
    } else {
        let head = ids_in_range(s.drop_last(), lo, hi);
        if lo <= s.last() <= hi {
            head.push(s.last())
        } else {
            head
        }
    }
}

/// On a strictly ascending sequence, the in-range ids are exactly the
/// members of `[lo, hi]`, still strictly ascending.
pub proof fn lemma_ids_in_range_props(s: Seq<u64>, lo: u64, hi: u64)
    requires
        sorted_strict(s),
    ensures
        sorted_strict(ids_in_range(s, lo, hi)),
        forall|x: u64| ids_in_range(s, lo, hi).contains(x) <==> (s.contains(x) && lo <= x <= hi),
    decreases s.len(),
{
    if s.len() == 0 {
    } else {
        assert(forall|i: int| 0 <= i < s.len() - 1 ==> s.drop_last()[i] == s[i]);
        lemma_ids_in_range_props(s.drop_last(), lo, hi);
        let head = ids_in_range(s.drop_last(), lo, hi);
        assert forall|x: u64| ids_in_range(s, lo, hi).contains(x) implies (s.contains(x) && lo <= x
            <= hi) by {
            if head.contains(x) {
                assert(s.drop_last().contains(x));
                let w = choose|w: int| 0 <= w < s.drop_last().len() && s.drop_last()[w] == x;
                assert(s[w] == x);
            } else {
                let w = choose|w: int|
                    0 <= w < ids_in_range(s, lo, hi).len() && ids_in_range(s, lo, hi)[w] == x;
                assert(x == s.last());
                assert(s[s.len() - 1] == x);
            }
        }
        assert forall|x: u64| s.contains(x) && lo <= x <= hi implies ids_in_range(
            s,
            lo,
            hi,
        ).contains(x) by {
            let w = choose|w: int| 0 <= w < s.len() && s[w] == x;
            if w < s.len() - 1 {
                assert(s.drop_last()[w] == x);
                assert(s.drop_last().contains(x));
                assert(head.contains(x));
                let v = choose|v: int| 0 <= v < head.len() && head[v] == x;
                assert(ids_in_range(s, lo, hi)[v] == x);
            } else {
                assert(ids_in_range(s, lo, hi).last() == x);
            }
        }
        if lo <= s.last() <= hi {
            assert forall|a: int, b: int|
                0 <= a < b < ids_in_range(s, lo, hi).len() implies ids_in_range(s, lo, hi)[a]
                < ids_in_range(s, lo, hi)[b] by {
                if b == ids_in_range(s, lo, hi).len() - 1 {
                    let x = ids_in_range(s, lo, hi)[a];
                    assert(head[a] == x);
                    assert(head.contains(x));
                    assert(s.drop_last().contains(x));
                    let w = choose|w: int| 0 <= w < s.drop_last().len() && s.drop_last()[w] == x;
                    assert(s[w] == x);
                    assert(s[w] < s[s.len() - 1]);
                }
            }
        }
    }
}

/// How many of the fetched rows were present.
pub open spec fn present_count(s: Seq<(u64, Option<Item>)>) -> int
    decreases s.len(),
{
    if s.len() == 0 {
        0
    } else {
        present_count(s.drop_last()) + if s.last().1 is Some {
            1int
        } else {
            0int
        }
    }
}

/// The page the unsorted path returns: walk the fetched rows in id order,
/// keep the rows that were present and whose present-rank falls in
/// `[lo, hi)`.
pub open spec fn unsorted_page(s: Seq<(u64, Option<Item>)>, lo: int, hi: int) -> Seq<(u64, Item)>
    decreases s.len(),
{
    if s.len() == 0 {
        Seq::empty()
    } else {
        let head = unsorted_page(s.drop_last(), lo, hi);
        match s.last().1 {
            Some(itm) => if lo <= present_count(s.drop_last()) < hi {
                head.push((s.last().0, itm))
            } else {
                head
            },
            None => head,
        }
    }
}

/// Rows with pairwise distinct ids page into entries with pairwise
/// distinct ids, each taken from some row.
proof fn lemma_page_keys(s: Seq<(u64, Option<Item>)>, lo: int, hi: int)
    requires
        forall|a: int, b: int| 0 <= a < b < s.len() ==> s[a].0 != s[b].0,
    ensures
        forall|a: int|
            0 <= a < unsorted_page(s, lo, hi).len() ==> exists|i: int|
                0 <= i < s.len() && s[i].0 == #[trigger] unsorted_page(s, lo, hi)[a].0,
        pair_keys_unique(unsorted_page(s, lo, hi)),
    decreases s.len(),
{
    if s.len() == 0 {
    } else {
        assert(forall|i: int| 0 <= i < s.len() - 1 ==> s.drop_last()[i] == s[i]);
        lemma_page_keys(s.drop_last(), lo, hi);
        let head = unsorted_page(s.drop_last(), lo, hi);
        let page = unsorted_page(s, lo, hi);
        assert forall|a: int| 0 <= a < page.len() implies exists|i: int|
            0 <= i < s.len() && s[i].0 == #[trigger] page[a].0 by {
            if a < head.len() {
                assert(page[a] == head[a]);
                let i = choose|i: int| 0 <= i < s.drop_last().len() && s.drop_last()[i].0 == head[a].0;
                assert(s[i].0 == page[a].0);
            } else {
                assert(s[s.len() - 1].0 == page[a].0);
            }
        }
        assert forall|a: int, b: int| 0 <= a < b < page.len() implies page[a].0 != page[b].0 by {
            if b == page.len() - 1 && page.len() > head.len() {
                let i = choose|i: int| 0 <= i < s.drop_last().len() && s.drop_last()[i].0 == head[a].0;
                assert(s[i].0 == page[a].0);
                assert(s[i].0 != s[s.len() - 1].0);
            } else {
                assert(page[a] == head[a] && page[b] == head[b]);
            }
        }
    }
}

/// Assemble the unsorted-path result from the rows fetched for the planned
/// ids: present rows are paged by skip and limit; `total_count` is the
/// number of planned ids — the size of the tracked id set in range, not a
/// filter count.
pub fn get_items_finish_unsorted(fetched: Vec<(u64, Option<Item>)>, skip: u64, limit: u64) -> (lr:
    ListResult)
    requires
        forall|a: int, b: int| 0 <= a < b < fetched@.len() ==> fetched@[a].0 != fetched@[b].0,
    ensures
        lr.wf(),
        lr.total_count as int == fetched@.len() as int,
        lr.map@ == unsorted_page(fetched@, eff_skip(skip) as int, page_end(skip, limit)),
{
    let ghost all = fetched@;
    let eff_s: u64 = if skip == u64::MAX {
        0
    } else {
        skip
    };
    let eff_l: u64 = if limit > 0x7fff_ffff_ffff_ffff {
        0x7fff_ffff_ffff_ffff
    } else {
        limit
    };
    let total: u64 = fetched.len() as u64;
    let mut rest = fetched;
    let mut out: Vec<(u64, Item)> = Vec::new();
    let mut count: u64 = 0;
    while rest.len() > 0
        invariant
            rest@.len() <= all.len(),
            total as int == all.len(),
            rest@ =~= all.subrange(all.len() - rest@.len(), all.len() as int),
            count as int == present_count(all.take(all.len() - rest@.len())),
            count as int <= all.len() - rest@.len(),
            eff_s == eff_skip(skip),
            eff_l == eff_limit(limit),
            out@ == unsorted_page(
                all.take(all.len() - rest@.len()),
                eff_s as int,
                page_end(skip, limit),
            ),
        decreases rest@.len(),
    {
        let ghost j = all.len() - rest@.len();
        proof {
            assert(all.take(j + 1).drop_last() =~= all.take(j));
            assert(all.take(j + 1).last() == all[j]);
            assert(all[j] == rest@[0]);
        }
        let (id, opt) = rest.remove(0);
        match opt {
            Some(itm) => {
                let insert_now: bool = if eff_l == 0 {
                    eff_s == 0 && count == 0
                } else {
                    count >= eff_s && count - eff_s < eff_l
                };
                proof {
                    assert(insert_now == (eff_s as int <= count as int && (count as int) < page_end(skip, limit)));
                }
                if insert_now {
                    out.push((id, itm));
                }
                proof {
                    assert(count as int <= j);
                    assert(j <= all.len() - 1);
                }
                count = count + 1;
            },
            None => {},
        }
    }
    proof {
        assert(all.take(all.len() as int) =~= all);
        lemma_page_keys(all, eff_s as int, page_end(skip, limit));
    }
    ListResult { map: out, total_count: total }
}

/// Assemble the sorted-path result: the rows the remote engine returned,
/// keyed by id (a repeated id keeps the later row), and the remote match
/// count as `total_count` — whatever was actually returned after skip and
/// limit.
pub fn get_items_finish_sorted(count: u64, fetched: Vec<Item>) -> (lr: ListResult)
    ensures
        lr.wf(),
        lr.total_count == count,
        lr.as_map() == items_by_id(fetched@),
{
    let ghost all = fetched@;
    let mut rest = fetched;
    let mut out: Vec<(u64, Item)> = Vec::new();
    while rest.len() > 0
        invariant
            rest@.len() <= all.len(),
            rest@ =~= all.subrange(all.len() - rest@.len(), all.len() as int),
            pair_keys_unique(out@),
            pairs_map(out@) == items_by_id(all.take(all.len() - rest@.len())),
        decreases rest@.len(),
    {
        let ghost j = all.len() - rest@.len();
        proof {
            assert(all.take(j + 1).drop_last() =~= all.take(j));
            assert(all.take(j + 1).last() == all[j]);
            assert(all[j] == rest@[0]);
        }
        let itm = rest.remove(0);
        put_by_id(&mut out, itm);
    }
    proof {
        assert(all.take(all.len() as int) =~= all);
    }
    ListResult { map: out, total_count: count }
}

/// How a `get_items` call is served: what must be pushed down to the
/// remote engine, or which ids must be fetched one by one.
pub enum ItemsPlan {
    /// Sorted mode: push the filter document, the ascending sort, skip and
    /// limit down to the remote engine, and count the documents matching
    /// the filter alone for `total_count`.
    Sorted { filter: Document, filter_parsed: bool, skip: u64, limit: i64 },
    /// Unsorted mode: fetch these ids — the tracked ids in range, in
    /// ascending order. The filter plays no part here.
    Unsorted { ids: Vec<u64> },
}

impl StoreMongo {
    /// Decide how a `get_items` call is served. Sorted mode is taken
    /// exactly when the lower id bound is the sentinel and a sort key was
    /// given; there the filter text is parsed, and a malformed or empty
    /// filter degrades to match-all. Unsorted mode walks the local index
    /// restricted to the id range; the filter argument is ignored there,
    /// and an unregistered collection yields no ids.
    pub fn get_items_plan(
        &mut self,
        collection: &str,
        id_min: u64,
        id_max: u64,
        sort_key: &str,
        filter: &str,
        skip: u64,
        limit: u64,
    ) -> (p: ItemsPlan)
        requires
            old(self).wf(),
        ensures
            *final(self) == *old(self),
            match p {
                ItemsPlan::Sorted { filter: _, filter_parsed, skip: s, limit: l } => {
                    &&& sorted_mode(id_min, sort_key@)
                    &&& filter_parsed == (filter@.len() != 0 && json_doc_ok(filter@))
                    &&& s == eff_skip(skip)
                    &&& l as int == eff_limit(limit) as int
                },
                ItemsPlan::Unsorted { ids } => {
                    &&& !sorted_mode(id_min, sort_key@)
                    &&& old(self).registered(collection@) ==> ids@ == ids_in_range(
                        old(self).ids_of(collection@),
                        eff_id_min(id_min),
                        id_max,
                    )
                    &&& !old(self).registered(collection@) ==> ids@ == Seq::<u64>::empty()
                },
            },
    {
        let eff_s: u64 = if skip == u64::MAX {
            0
        } else {
            skip
        };
        let eff_l: i64 = if limit > 0x7fff_ffff_ffff_ffff {
            i64::MAX
        } else {
            limit as i64
        };
        if id_min == u64::MAX && !sort_key.is_empty() {
            if !filter.is_empty() {
                match self.json_to_bson(filter) {
                    Ok(d) => {
                        return ItemsPlan::Sorted {
                            filter: d,
                            filter_parsed: true,
                            skip: eff_s,
                            limit: eff_l,
                        };
                    },
                    Err(_e) => {
                        return ItemsPlan::Sorted {
                            filter: empty_document(),
                            filter_parsed: false,
                            skip: eff_s,
                            limit: eff_l,
                        };
                    },
                }
            }
            return ItemsPlan::Sorted {
                filter: empty_document(),
                filter_parsed: false,
                skip: eff_s,
                limit: eff_l,
            };
        }
        let lo: u64 = if id_min == u64::MAX {
            0
        } else {
            id_min
        };
        match self.find_coll(collection) {
            Some(ci) => {
                let src_ids = &self.items[ci];
                let mut out: Vec<u64> = Vec::new();
                let mut k: usize = 0;
                while k < src_ids.len()
                    invariant
                        k <= src_ids@.len(),
                        out@ == ids_in_range(src_ids@.take(k as int), lo, id_max),
                    decreases src_ids@.len() - k,
                {
                    proof {
                        assert(src_ids@.take(k as int + 1).drop_last() =~= src_ids@.take(k as int));
                        assert(src_ids@.take(k as int + 1).last() == src_ids@[k as int]);
                    }
                    let v = src_ids[k];
                    if lo <= v && v <= id_max {
                        out.push(v);
                    }
                    k = k + 1;
                }
                proof {
                    assert(src_ids@.take(src_ids@.len() as int) =~= src_ids@);
                }
                ItemsPlan::Unsorted { ids: out }
            },
            None => ItemsPlan::Unsorted { ids: Vec::new() },
        }
    }

    /// The read-everything call: `get_items` with every bound at its
    /// sentinel, so the whole collection comes back through whichever read
    /// path the sort key selects.
    pub fn get_all_items_plan(&mut self, collection: &str, sort_key: &str, filter: &str) -> (p:
        ItemsPlan)
        requires
            old(self).wf(),
        ensures
            *final(self) == *old(self),
            match p {
                ItemsPlan::Sorted { filter: _, filter_parsed, skip: s, limit: l } => {
                    &&& sorted_mode(UNBOUNDED, sort_key@)
                    &&& filter_parsed == (filter@.len() != 0 && json_doc_ok(filter@))
                    &&& s == 0
                    &&& l == i64::MAX
                },
                ItemsPlan::Unsorted { ids } => {
                    &&& !sorted_mode(UNBOUNDED, sort_key@)
                    &&& old(self).registered(collection@) ==> ids@ == ids_in_range(
                        old(self).ids_of(collection@),
                        0,
                        UNBOUNDED,
                    )
                    &&& !old(self).registered(collection@) ==> ids@ == Seq::<u64>::empty()
                },
            },
    {
        self.get_items_plan(collection, u64::MAX, u64::MAX, sort_key, filter, u64::MAX, u64::MAX)
    }
}


} // verus!
