//! The shared store: a mapping from text keys to byte values.
//!
//! Its model is a `Map<Seq<char>, Seq<u8>>`; `set` is exactly `Map::insert`
//! and `get` is exactly lookup, so last-write-wins and the independence of
//! distinct keys are consequences callers can rely on (see the lemmas at the
//! end).  Exclusion among concurrent callers is the embedding program's
//! duty: each operation assumes it holds the store alone for its duration.

use vstd::prelude::*;

verus! {

/// A mapping from key to value.
pub struct Store {
    entries: Vec<(String, Vec<u8>)>,
}

impl View for Store {
    type V = Map<Seq<char>, Seq<u8>>;

    closed spec fn view(&self) -> Map<Seq<char>, Seq<u8>> {
        entries_map(self.entries@)
    }
}

/// The mapping an entry list means: later entries win.
pub closed spec fn entries_map(s: Seq<(String, Vec<u8>)>) -> Map<Seq<char>, Seq<u8>>
    decreases s.len(),
{
    if s.len() == 0 {
        Map::empty()
    } else {
        entries_map(s.drop_last()).insert(s.last().0@, s.last().1@)
    }
}

/// No two entries share a key.
spec fn keys_distinct(s: Seq<(String, Vec<u8>)>) -> bool {
    forall|i: int, j: int| 0 <= i < j < s.len() ==> (#[trigger] s[i]).0@ != (#[trigger] s[j]).0@
}

/// What the entry list says, entrywise, about the mapping.
proof fn lemma_entries_map(s: Seq<(String, Vec<u8>)>)
    requires
        keys_distinct(s),
    ensures
        forall|k: Seq<char>|
            #[trigger] entries_map(s).contains_key(k) <==> (exists|i: int|
                0 <= i < s.len() && (#[trigger] s[i]).0@ == k),
        forall|i: int|
            0 <= i < s.len() ==> entries_map(s)[(#[trigger] s[i]).0@] == s[i].1@,
    decreases s.len(),
{
    if s.len() > 0 {
        let pre = s.drop_last();
        assert(keys_distinct(pre)) by {
            assert(forall|i: int, j: int|
                0 <= i < j < pre.len() ==> (#[trigger] pre[i]).0@ != (#[trigger] pre[j]).0@)
                by {
                assert(forall|i: int| 0 <= i < pre.len() ==> pre[i] == s[i]);
            }
        }
        lemma_entries_map(pre);
        assert(forall|i: int| 0 <= i < pre.len() ==> pre[i] == s[i]);
        assert(entries_map(s) == entries_map(pre).insert(s.last().0@, s.last().1@));
        assert forall|k: Seq<char>|
            #[trigger] entries_map(s).contains_key(k) implies (exists|i: int|
            0 <= i < s.len() && (#[trigger] s[i]).0@ == k) by {
            if k == s.last().0@ {
                assert(s[s.len() - 1].0@ == k);
            } else {
                assert(entries_map(pre).contains_key(k));
                let i = choose|i: int| 0 <= i < pre.len() && (#[trigger] pre[i]).0@ == k;
                assert(s[i].0@ == k);
            }
        }
        assert forall|k: Seq<char>|
            (exists|i: int| 0 <= i < s.len() && (#[trigger] s[i]).0@ == k)
            implies #[trigger] entries_map(s).contains_key(k) by {
            let i = choose|i: int| 0 <= i < s.len() && (#[trigger] s[i]).0@ == k;
            if i < s.len() - 1 {
                assert(pre[i].0@ == k);
                assert(entries_map(pre).contains_key(k));
            }
        }
        assert forall|i: int|
            0 <= i < s.len() implies entries_map(s)[(#[trigger] s[i]).0@] == s[i].1@ by {
            if i < s.len() - 1 {
                assert(s[i].0@ != s[s.len() - 1].0@);
                assert(pre[i] == s[i]);
            }
        }
    }
}

/// Overwriting the entry that holds a key inserts into the mapping.
proof fn lemma_entries_map_update(s: Seq<(String, Vec<u8>)>, i: int, p: (String, Vec<u8>))
    requires
        keys_distinct(s),
        0 <= i < s.len(),
        p.0@ == s[i].0@,
    ensures
        entries_map(s.update(i, p)) == entries_map(s).insert(p.0@, p.1@),
        keys_distinct(s.update(i, p)),
    decreases s.len(),
{
    let s2 = s.update(i, p);
    assert(keys_distinct(s2)) by {
        assert(forall|a: int| 0 <= a < s.len() ==> (#[trigger] s2[a]).0@ == s[a].0@);
    }
    if i == s.len() - 1 {
        assert(s2.drop_last() =~= s.drop_last());
        assert(s2.last() == p);
        assert(entries_map(s.drop_last()).insert(p.0@, p.1@) =~= entries_map(s).insert(
            p.0@,
            p.1@,
        ));
    } else {
        let pre = s.drop_last();
        assert(keys_distinct(pre)) by {
            assert(forall|a: int| 0 <= a < pre.len() ==> pre[a] == s[a]);
        }
        assert(pre[i] == s[i]);
        lemma_entries_map_update(pre, i, p);
        assert(s2.drop_last() =~= pre.update(i, p));
        assert(s2.last() == s.last());
        assert(p.0@ != s.last().0@);
        assert(entries_map(s2) == entries_map(pre).insert(p.0@, p.1@).insert(
            s.last().0@,
            s.last().1@,
        ));
        assert(entries_map(pre).insert(p.0@, p.1@).insert(s.last().0@, s.last().1@)
            =~= entries_map(pre).insert(s.last().0@, s.last().1@).insert(p.0@, p.1@));
    }
}

impl Store {
    /// Well-formedness: no two entries share a key.  `new` establishes it
    /// and every method preserves it.
    pub closed spec fn wf(self) -> bool {
        keys_distinct(self.entries@)
    }

    /// An empty store.
    pub fn new() -> (s: Store)
        ensures
            s@ == Map::<Seq<char>, Seq<u8>>::empty(),
            s.wf(),
    {
        Store { entries: Vec::new() }
    }

    /// The value under `key`, if one was ever set.  No side effects.
    #[verifier::loop_isolation(false)]
    pub fn get(&self, key: &String) -> (r: Option<Vec<u8>>)
        requires
            self.wf(),
        ensures
            match r {
                Option::Some(v) => self@.contains_key(key@) && v@ == self@[key@],
                Option::None => !self@.contains_key(key@),
            },
    {
        proof {
            lemma_entries_map(self.entries@);
        }
        let mut i: usize = 0;
        while i < self.entries.len()
            invariant
                0 <= i <= self.entries@.len(),
                forall|j: int| 0 <= j < i ==> (#[trigger] self.entries@[j]).0@ != key@,
            decreases self.entries@.len() - i,
        {
            if self.entries[i].0 == *key {
                let v = vstd::slice::slice_to_vec(self.entries[i].1.as_slice());
                return Option::Some(v);
            }
            i += 1;
        }
        Option::None
    }

    /// Stores `value` under `key`, overwriting any previous value: exactly
    /// `insert` on the mapping.  Always succeeds.
    #[verifier::loop_isolation(false)]
    pub fn set(&mut self, key: String, value: Vec<u8>)
        requires
            old(self).wf(),
        ensures
            final(self)@ == old(self)@.insert(key@, value@),
            final(self).wf(),
    {
        let ghost s0 = self.entries@;
        let mut i: usize = 0;
        while i < self.entries.len()
            invariant
                0 <= i <= self.entries@.len(),
                self.entries@ == s0,
                forall|j: int| 0 <= j < i ==> (#[trigger] s0[j]).0@ != key@,
            decreases self.entries@.len() - i,
        {
            if self.entries[i].0 == *(&key) {
                proof {
                    lemma_entries_map_update(s0, i as int, (key, value));
                }
                self.entries.set(i, (key, value));
                return ;
            }
            i += 1;
        }
        proof {
            assert(s0.push((key, value)).drop_last() =~= s0);
            assert(keys_distinct(s0.push((key, value)))) by {
                assert(forall|j: int| 0 <= j < s0.len() ==> (#[trigger] s0.push(
                    (key, value),
                )[j]) == s0[j]);
                assert(s0.push((key, value))[s0.len() as int].0@ == key@);
            }
        }
        self.entries.push((key, value));
    }
}

/// Setting a key and then reading it yields exactly the value set; a key
/// never set is absent.
pub proof fn lemma_set_then_get(
    m: Map<Seq<char>, Seq<u8>>,
    k: Seq<char>,
    v: Seq<u8>,
    other: Seq<char>,
)
    ensures
        m.insert(k, v).contains_key(k),
        m.insert(k, v)[k] == v,
        !Map::<Seq<char>, Seq<u8>>::empty().contains_key(other),
{
}

/// The last write to a key wins: two sets to one key leave exactly the
/// second value, with no merging of histories.
pub proof fn lemma_last_write_wins(
    m: Map<Seq<char>, Seq<u8>>,
    k: Seq<char>,
    v1: Seq<u8>,
    v2: Seq<u8>,
)
    ensures
        m.insert(k, v1).insert(k, v2) == m.insert(k, v2),
{
    assert(m.insert(k, v1).insert(k, v2) =~= m.insert(k, v2));
}

/// Sets to distinct keys commute: whichever interleaving order concurrent
/// connections' operations take, the store ends the same.
pub proof fn lemma_distinct_sets_commute(
    m: Map<Seq<char>, Seq<u8>>,
    k1: Seq<char>,
    v1: Seq<u8>,
    k2: Seq<char>,
    v2: Seq<u8>,
)
    requires
        k1 != k2,
    ensures
        m.insert(k1, v1).insert(k2, v2) == m.insert(k2, v2).insert(k1, v1),
{
    assert(m.insert(k1, v1).insert(k2, v2) =~= m.insert(k2, v2).insert(k1, v1));
}

/// The mapping after a sequence of sets, applied in order.
pub open spec fn apply_sets(
    m: Map<Seq<char>, Seq<u8>>,
    ops: Seq<(Seq<char>, Seq<u8>)>,
) -> Map<Seq<char>, Seq<u8>>
    decreases ops.len(),
{
    if ops.len() == 0 {
        m
    } else {
        apply_sets(m, ops.drop_last()).insert(ops.last().0, ops.last().1)
    }
}

/// After sets to pairwise distinct keys, in any one order, every key holds
/// exactly the value set for it: no update is lost.
pub proof fn lemma_no_lost_updates(m: Map<Seq<char>, Seq<u8>>, ops: Seq<(Seq<char>, Seq<u8>)>)
    requires
        forall|i: int, j: int|
            0 <= i < j < ops.len() ==> (#[trigger] ops[i]).0 != (#[trigger] ops[j]).0,
    ensures
        forall|i: int|
            0 <= i < ops.len() ==> apply_sets(m, ops).contains_key((#[trigger] ops[i]).0)
                && apply_sets(m, ops)[ops[i].0] == ops[i].1,
    decreases ops.len(),
{
    if ops.len() > 0 {
        let pre = ops.drop_last();
        assert(forall|i: int| 0 <= i < pre.len() ==> pre[i] == ops[i]);
        lemma_no_lost_updates(m, pre);
        assert forall|i: int|
            0 <= i < ops.len() implies apply_sets(m, ops).contains_key((#[trigger] ops[i]).0)
            && apply_sets(m, ops)[ops[i].0] == ops[i].1 by {
            if i < ops.len() - 1 {
                assert(ops[i].0 != ops[ops.len() - 1].0);
                assert(pre[i] == ops[i]);
            }
        }
    }
}

} // verus!
