use vstd::hash_map::HashMapWithView;
use vstd::prelude::*;

verus! {

broadcast use vstd::std_specs::hash::group_hash_axioms;

/// Whether some entry of `s` carries the sequence id `id`.
pub open spec fn has_id(s: Seq<(u64, u64)>, id: u64) -> bool {
    exists|i: int| 0 <= i < s.len() && (#[trigger] s[i]).0 == id
}

/// The entries of a ledger read as a map from sequence id to instant.
pub open spec fn ledger_map(s: Seq<(u64, u64)>) -> Map<u64, u64>
    decreases s.len(),
{
    if s.len() == 0 {
        Map::empty()
    } else {
        ledger_map(s.drop_last()).insert(s.last().0, s.last().1)
    }
}

/// Instants strictly increase in insertion order.
pub open spec fn instants_increasing(s: Seq<(u64, u64)>) -> bool {
    forall|i: int, j: int| 0 <= i < j < s.len() ==> (#[trigger] s[i]).1 < (#[trigger] s[j]).1
}

/// No sequence id occurs twice.
pub open spec fn ids_unique(s: Seq<(u64, u64)>) -> bool {
    forall|i: int, j: int| 0 <= i < j < s.len() ==> (#[trigger] s[i]).0 != (#[trigger] s[j]).0
}

/// Whether `(id, instant)` may be appended to a ledger holding `s`.
pub open spec fn accepts(s: Seq<(u64, u64)>, id: u64, instant: u64) -> bool {
    (s.len() == 0 || s.last().1 < instant) && !has_id(s, id)
}

/// The instant recorded for `id`, if any.
pub open spec fn instant_of(s: Seq<(u64, u64)>, id: u64) -> Option<u64> {
    if ledger_map(s).contains_key(id) {
        Some(ledger_map(s)[id])
    } else {
        None
    }
}

/// Why an entry was refused by a ledger.
#[derive(Clone, Copy, Debug, PartialEq, Eq, Structural)]
pub enum LedgerError {
    /// The instant is not strictly after the last recorded one.
    NonMonotonic { id: u64, previous: u64, attempted: u64 },
    /// The sequence id is already recorded.
    DuplicateId { id: u64 },
}

/// The error that `insert` reports for an entry that `accepts` refuses.
pub open spec fn refusal(s: Seq<(u64, u64)>, id: u64, instant: u64) -> LedgerError {
    if s.len() != 0 && s.last().1 >= instant {
        LedgerError::NonMonotonic { id, previous: s.last().1, attempted: instant }
    } else {
        LedgerError::DuplicateId { id }
    }
}

/// An append-only record of `(sequence id, instant)` pairs, in insertion
/// order, with strictly increasing instants and distinct ids. Instants are
/// microseconds on one monotonic clock.
pub struct Ledger {
    entries: Vec<(u64, u64)>,
    index: HashMapWithView<u64, u64>,
}

impl View for Ledger {
    type V = Seq<(u64, u64)>;

    closed spec fn view(&self) -> Seq<(u64, u64)> {
        self.entries@
    }
}

/// Membership in the map view is membership of an entry.
pub proof fn lemma_ledger_map_keys(s: Seq<(u64, u64)>, id: u64)
    ensures
        ledger_map(s).contains_key(id) <==> has_id(s, id),
    decreases s.len(),
{
    if s.len() > 0 {
        let p = s.drop_last();
        lemma_ledger_map_keys(p, id);
        if has_id(p, id) {
            let i = choose|i: int| 0 <= i < p.len() && (#[trigger] p[i]).0 == id;
            assert(s[i] == p[i]);
        }
        if has_id(s, id) && s.last().0 != id {
            let i = choose|i: int| 0 <= i < s.len() && (#[trigger] s[i]).0 == id;
            assert(p[i] == s[i]);
        }
    }
}

/// With distinct ids, the map view gives each entry's own instant.
pub proof fn lemma_ledger_map_values(s: Seq<(u64, u64)>, i: int)
    requires
        ids_unique(s),
        0 <= i < s.len(),
    ensures
        ledger_map(s).contains_key(s[i].0),
        ledger_map(s)[s[i].0] == s[i].1,
        instant_of(s, s[i].0) == Some(s[i].1),
    decreases s.len(),
{
    if i < s.len() - 1 {
        let p = s.drop_last();
        assert(p[i] == s[i]);
        assert(ids_unique(p)) by {
            assert forall|a: int, b: int| 0 <= a < b < p.len() implies (#[trigger] p[a]).0 != (
            #[trigger] p[b]).0 by {
                assert(p[a] == s[a] && p[b] == s[b]);
            }
        }
        lemma_ledger_map_values(p, i);
        assert(s[i].0 != s.last().0);
    }
}

impl Ledger {
    /// Increasing instants, distinct ids, and an index that agrees with the
    /// entries.
    pub closed spec fn wf(&self) -> bool {
        &&& instants_increasing(self.entries@)
        &&& ids_unique(self.entries@)
        &&& self.index@ == ledger_map(self.entries@)
    }

    /// An empty ledger.
    pub fn new() -> (r: Ledger)
        ensures
            r.wf(),
            r@ == Seq::<(u64, u64)>::empty(),
    {
        Ledger { entries: Vec::new(), index: HashMapWithView::new() }
    }

    /// Number of entries.
    pub fn len(&self) -> (r: usize)
        ensures
            r == self@.len(),
    {
        self.entries.len()
    }

    /// The entry at position `i` in insertion order.
    pub fn entry(&self, i: usize) -> (r: (u64, u64))
        requires
            i < self@.len(),
        ensures
            r == self@[i as int],
    {
        self.entries[i]
    }

    /// The instant of the most recent entry.
    pub fn last_instant(&self) -> (r: Option<u64>)
        ensures
            self@.len() == 0 ==> r.is_none(),
            self@.len() > 0 ==> r == Some(self@.last().1),
    {
        let n = self.entries.len();
        if n == 0 {
            None
        } else {
            Some(self.entries[n - 1].1)
        }
    }

    /// The instant recorded for `id`.
    pub fn get(&self, id: u64) -> (r: Option<u64>)
        requires
            self.wf(),
        ensures
            r == instant_of(self@, id),
            r.is_some() == has_id(self@, id),
    {
        proof {
            lemma_ledger_map_keys(self@, id);
        }
        match self.index.get(&id) {
            Some(t) => Some(*t),
            None => None,
        }
    }

    /// Appends `(id, instant)` when the instant is strictly after the last
    /// one and `id` is new; otherwise leaves the ledger as it was.
    pub fn insert(&mut self, id: u64, instant: u64) -> (r: Result<(), LedgerError>)
        requires
            old(self).wf(),
        ensures
            final(self).wf(),
            r.is_ok() == accepts(old(self)@, id, instant),
            r.is_ok() ==> final(self)@ == old(self)@.push((id, instant)),
            r.is_err() ==> final(self)@ == old(self)@,
            r.is_err() ==> r == Err::<(), LedgerError>(refusal(old(self)@, id, instant)),
    {
        let n = self.entries.len();
        if n > 0 && self.entries[n - 1].1 >= instant {
            return Err(LedgerError::NonMonotonic { id, previous: self.entries[n - 1].1, attempted: instant });
        }
        proof {
            lemma_ledger_map_keys(self@, id);
        }
        if self.index.contains_key(&id) {
            return Err(LedgerError::DuplicateId { id });
        }
        let ghost before = self@;
        self.entries.push((id, instant));
        self.index.insert(id, instant);
        proof {
            let s = self@;
            assert(s.drop_last() == before);
            assert forall|i: int, j: int| 0 <= i < j < s.len() implies (#[trigger] s[i]).1 < (
            #[trigger] s[j]).1 by {
                if j == s.len() - 1 && i < j - 1 {
                    assert(before[i].1 < before[j - 1].1);
                }
            }
            assert forall|i: int, j: int| 0 <= i < j < s.len() implies (#[trigger] s[i]).0 != (
            #[trigger] s[j]).0 by {
                if j == s.len() - 1 {
                    assert(before[i] == s[i]);
                    if before[i].0 == id {
                        assert(has_id(before, id));
                    }
                }
            }
        }
        Ok(())
    }
}

/// A ledger's instants strictly increase in insertion order, whatever was
/// inserted into it.
pub proof fn lemma_ledger_monotonic_all(l: &Ledger)
    requires
        l.wf(),
    ensures
        instants_increasing(l@),
{
}

} // verus!
