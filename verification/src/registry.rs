//! The shared user registry: connection identity -> display name.
//!
//! The registry is the single piece of state shared by all sessions; the
//! shell around the library serialises access to it (one lock), so the
//! verified model here is sequential.  Its view is the sequence of
//! `(id, name)` entries in insertion order, with ids unique.

use vstd::prelude::*;
use vstd::pervasive::VecAdditionalExecFns;

verus! {

/// Index of the first entry with key `id`, or `-1`.
pub open spec fn reg_idx(es: Seq<(u64, Seq<u8>)>, id: u64) -> int
    decreases es.len(),
{
    if es.len() == 0 {
        -1
    } else if es[0].0 == id {
        0
    } else {
        let r = reg_idx(es.skip(1), id);
        if r == -1 {
            -1
        } else {
            r + 1
        }
    }
}

/// The name registered under `id`, if any.
pub open spec fn reg_lookup(es: Seq<(u64, Seq<u8>)>, id: u64) -> Option<Seq<u8>> {
    if reg_idx(es, id) >= 0 {
        Some(es[reg_idx(es, id)].1)
    } else {
        None
    }
}

/// Insert-or-overwrite: an existing entry keeps its position, a new one is
/// appended.
pub open spec fn reg_insert(es: Seq<(u64, Seq<u8>)>, id: u64, name: Seq<u8>) -> Seq<
    (u64, Seq<u8>),
> {
    if reg_idx(es, id) >= 0 {
        es.update(reg_idx(es, id), (id, name))
    } else {
        es.push((id, name))
    }
}

/// Removal of the entry for `id`, if present.
pub open spec fn reg_remove(es: Seq<(u64, Seq<u8>)>, id: u64) -> Seq<(u64, Seq<u8>)> {
    if reg_idx(es, id) >= 0 {
        es.remove(reg_idx(es, id))
    } else {
        es
    }
}

/// The roster: the names, in registry order.
pub open spec fn reg_names(es: Seq<(u64, Seq<u8>)>) -> Seq<Seq<u8>> {
    es.map_values(|p: (u64, Seq<u8>)| p.1)
}

/// Well-formedness: ids are unique.
pub open spec fn reg_wf(es: Seq<(u64, Seq<u8>)>) -> bool {
    forall|i: int, j: int| 0 <= i < j < es.len() ==> (#[trigger] es[i]).0 != (#[trigger] es[j]).0
}

/// `reg_idx` finds the first occurrence, within bounds, and `-1` means no
/// occurrence.
pub proof fn lemma_reg_idx(es: Seq<(u64, Seq<u8>)>, id: u64)
    ensures
        -1 <= reg_idx(es, id) < es.len(),
        reg_idx(es, id) >= 0 ==> es[reg_idx(es, id)].0 == id,
        reg_idx(es, id) >= 0 ==> forall|m: int|
            0 <= m < reg_idx(es, id) ==> (#[trigger] es[m]).0 != id,
        reg_idx(es, id) == -1 ==> forall|m: int| 0 <= m < es.len() ==> (#[trigger] es[m]).0 != id,
    decreases es.len(),
{
    if es.len() > 0 && es[0].0 != id {
        lemma_reg_idx(es.skip(1), id);
        if reg_idx(es, id) >= 0 {
            assert forall|m: int| 0 <= m < reg_idx(es, id) implies (#[trigger] es[m]).0 != id by {
                if m > 0 {
                    assert(es.skip(1)[m - 1] == es[m]);
                }
            }
        }
        if reg_idx(es, id) == -1 {
            assert forall|m: int| 0 <= m < es.len() implies (#[trigger] es[m]).0 != id by {
                if m > 0 {
                    assert(es.skip(1)[m - 1] == es[m]);
                }
            }
        }
    }
}

/// A witness at the first position pins `reg_idx` down.
pub proof fn lemma_reg_idx_is_first(es: Seq<(u64, Seq<u8>)>, id: u64, k: int)
    requires
        0 <= k < es.len(),
        es[k].0 == id,
        forall|m: int| 0 <= m < k ==> (#[trigger] es[m]).0 != id,
    ensures
        reg_idx(es, id) == k,
    decreases k,
{
    if k > 0 {
        assert(forall|m: int| 0 <= m < es.skip(1).len() ==> #[trigger] es.skip(1)[m] == es[m + 1]);
        lemma_reg_idx_is_first(es.skip(1), id, k - 1);
    }
}

pub proof fn lemma_reg_idx_none(es: Seq<(u64, Seq<u8>)>, id: u64)
    requires
        forall|m: int| 0 <= m < es.len() ==> (#[trigger] es[m]).0 != id,
    ensures
        reg_idx(es, id) == -1,
{
    lemma_reg_idx(es, id);
    if reg_idx(es, id) >= 0 {
        assert(es[reg_idx(es, id)].0 == id);
    }
}

/// What one insert does to every lookup, and that it keeps well-formedness.
pub proof fn lemma_insert_lookup(es: Seq<(u64, Seq<u8>)>, id: u64, name: Seq<u8>)
    requires
        reg_wf(es),
    ensures
        reg_wf(reg_insert(es, id, name)),
        reg_lookup(reg_insert(es, id, name), id) == Some(name),
        forall|o: u64| o != id ==> #[trigger] reg_lookup(reg_insert(es, id, name), o)
            == reg_lookup(es, o),
{
    lemma_reg_idx(es, id);
    let es2 = reg_insert(es, id, name);
    let k = reg_idx(es, id);
    if k >= 0 {
        assert(forall|i: int| 0 <= i < es.len() ==> (#[trigger] es2[i]).0 == es[i].0);
        lemma_reg_idx_is_first(es2, id, k);
        assert forall|o: u64| o != id implies #[trigger] reg_lookup(es2, o) == reg_lookup(
            es,
            o,
        ) by {
            lemma_reg_idx(es, o);
            let j = reg_idx(es, o);
            if j >= 0 {
                lemma_reg_idx_is_first(es2, o, j);
                assert(es2[j].1 == es[j].1);
            } else {
                lemma_reg_idx_none(es2, o);
            }
        }
    } else {
        assert(forall|i: int| 0 <= i < es.len() ==> (#[trigger] es2[i]).0 == es[i].0);
        assert(es2[es.len() as int].0 == id);
        lemma_reg_idx_is_first(es2, id, es.len() as int);
        assert forall|o: u64| o != id implies #[trigger] reg_lookup(es2, o) == reg_lookup(
            es,
            o,
        ) by {
            lemma_reg_idx(es, o);
            let j = reg_idx(es, o);
            if j >= 0 {
                lemma_reg_idx_is_first(es2, o, j);
                assert(es2[j].1 == es[j].1);
            } else {
                lemma_reg_idx_none(es2, o);
            }
        }
    }
}

/// What one removal does to every lookup, and that it keeps well-formedness.
pub proof fn lemma_remove_lookup(es: Seq<(u64, Seq<u8>)>, id: u64)
    requires
        reg_wf(es),
    ensures
        reg_wf(reg_remove(es, id)),
        reg_lookup(reg_remove(es, id), id) == None::<Seq<u8>>,
        forall|o: u64| o != id ==> #[trigger] reg_lookup(reg_remove(es, id), o) == reg_lookup(
            es,
            o,
        ),
{
    lemma_reg_idx(es, id);
    let k = reg_idx(es, id);
    let es2 = reg_remove(es, id);
    if k >= 0 {
        assert(forall|i: int| 0 <= i < k ==> #[trigger] es2[i] == es[i]);
        assert(forall|i: int| k <= i < es2.len() ==> #[trigger] es2[i] == es[i + 1]);
        assert forall|m: int| 0 <= m < es2.len() implies (#[trigger] es2[m]).0 != id by {
            if m < k {
                assert(es2[m] == es[m]);
            } else {
                assert(es2[m] == es[m + 1]);
            }
        }
        lemma_reg_idx_none(es2, id);
        assert forall|o: u64| o != id implies #[trigger] reg_lookup(es2, o) == reg_lookup(
            es,
            o,
        ) by {
            lemma_reg_idx(es, o);
            let j = reg_idx(es, o);
            if j >= 0 {
                if j < k {
                    lemma_reg_idx_is_first(es2, o, j);
                } else {
                    assert(j != k);
                    assert(es2[j - 1] == es[j]);
                    assert forall|m: int| 0 <= m < j - 1 implies (#[trigger] es2[m]).0 != o by {
                        if m < k {
                            assert(es2[m] == es[m]);
                        } else {
                            assert(es2[m] == es[m + 1]);
                        }
                    }
                    lemma_reg_idx_is_first(es2, o, j - 1);
                }
            } else {
                assert forall|m: int| 0 <= m < es2.len() implies (#[trigger] es2[m]).0 != o by {
                    if m < k {
                        assert(es2[m] == es[m]);
                    } else {
                        assert(es2[m] == es[m + 1]);
                    }
                }
                lemma_reg_idx_none(es2, o);
            }
        }
    }
}

/// One registry mutation, for stating what a whole history leads to.
pub ghost enum RegEvent {
    Register(u64, Seq<u8>),
    Disconnect(u64),
}

/// The registry state after a history of events, starting empty.
pub open spec fn apply_events(evs: Seq<RegEvent>) -> Seq<(u64, Seq<u8>)>
    decreases evs.len(),
{
    if evs.len() == 0 {
        Seq::empty()
    } else {
        let prev = apply_events(evs.take(evs.len() - 1));
        match evs[evs.len() - 1] {
            RegEvent::Register(id, name) => reg_insert(prev, id, name),
            RegEvent::Disconnect(id) => reg_remove(prev, id),
        }
    }
}

/// The name a connection should carry after a history: the name of its last
/// registration, unless a later disconnect erased it.
pub open spec fn live_name(evs: Seq<RegEvent>, id: u64) -> Option<Seq<u8>>
    decreases evs.len(),
{
    if evs.len() == 0 {
        None
    } else {
        match evs[evs.len() - 1] {
            RegEvent::Register(i, name) => if i == id {
                Some(name)
            } else {
                live_name(evs.take(evs.len() - 1), id)
            },
            RegEvent::Disconnect(i) => if i == id {
                None
            } else {
                live_name(evs.take(evs.len() - 1), id)
            },
        }
    }
}

/// Roster consistency: after any finished history of register/disconnect
/// events, the registry maps exactly the connections that registered and
/// have not since disconnected, each to its latest name.
pub proof fn lemma_roster_consistency(evs: Seq<RegEvent>)
    ensures
        reg_wf(apply_events(evs)),
        forall|id: u64| #[trigger] reg_lookup(apply_events(evs), id) == live_name(evs, id),
    decreases evs.len(),
{
    if evs.len() == 0 {
        assert forall|id: u64| #[trigger] reg_lookup(apply_events(evs), id) == live_name(
            evs,
            id,
        ) by {
            assert(reg_idx(apply_events(evs), id) == -1);
        }
    } else {
        let prev = evs.take(evs.len() - 1);
        lemma_roster_consistency(prev);
        let ep = apply_events(prev);
        match evs[evs.len() - 1] {
            RegEvent::Register(id, name) => {
                lemma_insert_lookup(ep, id, name);
            },
            RegEvent::Disconnect(id) => {
                lemma_remove_lookup(ep, id);
            },
        }
    }
}

/// The roster holds exactly the registered names: a name stands in
/// `reg_names` if and only if some connection is mapped to it.
pub proof fn lemma_names_are_lookups(es: Seq<(u64, Seq<u8>)>, n: Seq<u8>)
    requires
        reg_wf(es),
    ensures
        reg_names(es).contains(n) <==> exists|id: u64| #[trigger] reg_lookup(es, id) == Some(n),
{
    if reg_names(es).contains(n) {
        let i = choose|i: int| 0 <= i < reg_names(es).len() && reg_names(es)[i] == n;
        let id = es[i].0;
        assert(es[i].1 == n);
        lemma_reg_idx_is_first(es, id, i);
        assert(reg_lookup(es, id) == Some(n));
    }
    if exists|id: u64| #[trigger] reg_lookup(es, id) == Some(n) {
        let id = choose|id: u64| #[trigger] reg_lookup(es, id) == Some(n);
        let i = reg_idx(es, id);
        lemma_reg_idx(es, id);
        assert(reg_names(es)[i] == n);
    }
}

/// The executable registry.
pub struct Registry {
    entries: Vec<(u64, Vec<u8>)>,
}

impl View for Registry {
    type V = Seq<(u64, Seq<u8>)>;

    closed spec fn view(&self) -> Seq<(u64, Seq<u8>)> {
        self.entries.deep_view()
    }
}

/// Byte-for-byte copy of a name.
pub fn copy_bytes(v: &Vec<u8>) -> (r: Vec<u8>)
    ensures
        r@ == v@,
{
    let mut r: Vec<u8> = Vec::new();
    let mut k: usize = 0;
    while k < v.len()
        invariant
            0 <= k <= v@.len(),
            r@ == v@.take(k as int),
        decreases v@.len() - k,
    {
        r.push(v[k]);
        proof {
            assert(v@.take(k as int) + seq![v@[k as int]] =~= v@.take(k + 1));
        }
        k += 1;
    }
    proof {
        assert(v@.take(v@.len() as int) =~= v@);
    }
    r
}

impl Registry {
    /// Fresh, empty registry.
    pub fn new() -> (r: Registry)
        ensures
            r@ == Seq::<(u64, Seq<u8>)>::empty(),
            reg_wf(r@),
    {
        let r = Registry { entries: Vec::new() };
        proof {
            assert(r@ =~= Seq::<(u64, Seq<u8>)>::empty());
        }
        r
    }

    fn find(&self, id: u64) -> (r: Option<usize>)
        ensures
            match r {
                Some(k) => k < self@.len() && reg_idx(self@, id) == k,
                None => reg_idx(self@, id) == -1,
            },
    {
        let mut k: usize = 0;
        while k < self.entries.len()
            invariant
                0 <= k <= self@.len(),
                self@.len() == self.entries@.len(),
                forall|m: int| 0 <= m < k ==> (#[trigger] self@[m]).0 != id,
            decreases self@.len() - k,
        {
            proof {
                assert(self@[k as int] == self.entries@[k as int].deep_view());
            }
            if self.entries[k].0 == id {
                proof {
                    lemma_reg_idx_is_first(self@, id, k as int);
                }
                return Some(k);
            }
            k += 1;
        }
        proof {
            lemma_reg_idx_none(self@, id);
        }
        None
    }

    /// Read-only roster fetch: the names, in registry order.
    pub fn snapshot(&self) -> (r: Vec<Vec<u8>>)
        ensures
            r.deep_view() == reg_names(self@),
    {
        let mut r: Vec<Vec<u8>> = Vec::new();
        let mut k: usize = 0;
        while k < self.entries.len()
            invariant
                0 <= k <= self@.len(),
                self@.len() == self.entries@.len(),
                r.deep_view().len() == k,
                forall|m: int| 0 <= m < k ==> #[trigger] r.deep_view()[m] == self@[m].1,
            decreases self@.len() - k,
        {
            let name = copy_bytes(&self.entries[k].1);
            proof {
                assert(self@[k as int] == self.entries@[k as int].deep_view());
                assert(self.entries@[k as int].1.deep_view() =~= self.entries@[k as int].1@);
            }
            let ghost rprev = r.deep_view();
            r.push(name);
            proof {
                assert(r.deep_view() =~~= rprev.push(name@));
            }
            k += 1;
        }
        proof {
            assert(r.deep_view() =~~= reg_names(self@));
        }
        r
    }

    /// Inserts or overwrites the mapping for `id` and returns the new
    /// roster, which the caller broadcasts.
    pub fn register(&mut self, id: u64, name: Vec<u8>) -> (roster: Vec<Vec<u8>>)
        requires
            reg_wf(old(self)@),
        ensures
            final(self)@ == reg_insert(old(self)@, id, name@),
            reg_wf(final(self)@),
            roster.deep_view() == reg_names(final(self)@),
    {
        proof {
            lemma_insert_lookup(old(self)@, id, name@);
        }
        match self.find(id) {
            Some(k) => {
                self.entries.set(k, (id, name));
                proof {
                    assert(self@ =~~= reg_insert(old(self)@, id, name@));
                }
            },
            None => {
                self.entries.push((id, name));
                proof {
                    assert(self@ =~~= reg_insert(old(self)@, id, name@));
                }
            },
        }
        self.snapshot()
    }

    /// Removes the mapping for `id` if present; returns the new roster
    /// (for the caller to broadcast) only when a removal happened.
    pub fn remove(&mut self, id: u64) -> (r: Option<Vec<Vec<u8>>>)
        requires
            reg_wf(old(self)@),
        ensures
            final(self)@ == reg_remove(old(self)@, id),
            reg_wf(final(self)@),
            reg_idx(old(self)@, id) >= 0 ==> r is Some && (r->0).deep_view() == reg_names(
                final(self)@,
            ),
            reg_idx(old(self)@, id) == -1 ==> r is None && final(self)@ == old(self)@,
    {
        proof {
            lemma_remove_lookup(old(self)@, id);
        }
        match self.find(id) {
            Some(k) => {
                self.entries.remove(k);
                proof {
                    assert(self@ =~~= reg_remove(old(self)@, id));
                }
                Some(self.snapshot())
            },
            None => {
                None
            },
        }
    }

    /// Number of registered connections.
    pub fn len(&self) -> (n: usize)
        ensures
            n == self@.len(),
    {
        self.entries.len()
    }
}

} // verus!
