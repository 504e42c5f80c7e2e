//! The label table of a module: a mapping from label names to block
//! indices, kept as a vector of entries so that iteration order is
//! deterministic.  Keys are unique; several labels may name one block.

use vstd::prelude::*;

verus! {

/// Label table: maps each label name to the index of the block it starts.
///
/// The entry order is the order of first definition, which makes every pass
/// over the table deterministic.  Well-formed tables ([`LabelMap::wf`]) have
/// pairwise distinct keys.
#[derive(Debug)]
pub struct LabelMap {
    pub entries: Vec<(String, usize)>,
}

impl View for LabelMap {
    type V = Seq<(Seq<char>, usize)>;

    open spec fn view(&self) -> Seq<(Seq<char>, usize)> {
        self.entries.deep_view()
    }
}

/// Whether an entry sequence has pairwise distinct keys.
pub open spec fn entries_wf(entries: Seq<(Seq<char>, usize)>) -> bool {
    forall|i: int, j: int|
        0 <= i < j < entries.len() ==> entries[i].0 != entries[j].0
}

/// Whether an entry sequence holds the given key.
pub open spec fn entries_contain(entries: Seq<(Seq<char>, usize)>, k: Seq<char>) -> bool {
    exists|i: int| 0 <= i < entries.len() && entries[i].0 == k
}

/// The value recorded for a key of an entry sequence (meaningful when the
/// keys are distinct and the key is present).
pub open spec fn entries_value(entries: Seq<(Seq<char>, usize)>, k: Seq<char>) -> usize {
    let i = choose|i: int| 0 <= i < entries.len() && entries[i].0 == k;
    entries[i].1
}

impl LabelMap {
    /// Well-formed: keys are pairwise distinct.
    pub open spec fn wf(self) -> bool {
        entries_wf(self@)
    }

    /// Whether the table holds the given key.
    pub open spec fn spec_contains(self, k: Seq<char>) -> bool {
        entries_contain(self@, k)
    }

    /// The value recorded for a key (meaningful when `wf` and the key is
    /// present).
    pub open spec fn spec_get(self, k: Seq<char>) -> usize {
        entries_value(self@, k)
    }

    /// An empty table.
    pub fn new() -> (r: Self)
        ensures
            r@ == Seq::<(Seq<char>, usize)>::empty(),
            r.wf(),
    {
        let r = LabelMap { entries: Vec::new() };
        proof {
            assert(r@ =~= Seq::<(Seq<char>, usize)>::empty());
        }
        r
    }

    /// The number of labels in the table.
    pub fn len(&self) -> (r: usize)
        ensures
            r == self@.len(),
    {
        self.entries.len()
    }

    /// The block index a label maps to, or `None` for an unknown label.
    pub fn get(&self, k: &String) -> (r: Option<usize>)
        requires
            self.wf(),
        ensures
            (match r {
                Some(v) => self.spec_contains(k@) && v == self.spec_get(k@),
                None => !self.spec_contains(k@),
            }),
    {
        let n = self.entries.len();
        let mut i: usize = 0;
        while i < n
            invariant
                n == self@.len(),
                0 <= i <= n,
                self.wf(),
                forall|j: int| 0 <= j < i ==> self@[j].0 != k@,
            decreases n - i,
        {
            if self.entries[i].0 == *k {
                proof {
                    assert(self@[i as int].0 == k@);
                    let w = choose|w: int| 0 <= w < self@.len() && self@[w].0 == k@;
                    assert(self@[w].0 == k@ && self@[i as int].0 == k@);
                    assert(w == i as int);
                }
                return Some(self.entries[i].1);
            }
            i += 1;
        }
        None
    }

    /// Record a label.  A fresh key is appended; an existing key has its
    /// value replaced in place.
    pub fn insert(&mut self, k: String, v: usize)
        requires
            old(self).wf(),
        ensures
            final(self).wf(),
            !old(self).spec_contains(k@) ==> final(self)@ == old(self)@.push((k@, v)),
            old(self).spec_contains(k@) ==> exists|i: int|
                0 <= i < old(self)@.len() && old(self)@[i].0 == k@ && final(self)@ == old(
                    self,
                )@.update(i, (k@, v)),
            final(self).spec_contains(k@),
            final(self).spec_get(k@) == v,
            forall|k2: Seq<char>|
                k2 != k@ ==> (final(self).spec_contains(k2) == old(self).spec_contains(k2)
                    && (old(self).spec_contains(k2) ==> final(self).spec_get(k2) == old(
                    self,
                ).spec_get(k2))),
    {
        let ghost old_entries = self@;
        let n = self.entries.len();
        let mut i: usize = 0;
        while i < n
            invariant
                n == self@.len(),
                0 <= i <= n,
                self@ == old_entries,
                old_entries == old(self)@,
                entries_wf(old_entries),
                forall|j: int| 0 <= j < i ==> self@[j].0 != k@,
            decreases n - i,
        {
            if self.entries[i].0 == k {
                let ghost kv = k@;
                self.entries.set(i, (k, v));
                proof {
                    assert(self@ =~= old_entries.update(i as int, (kv, v)));
                    lemma_update_keeps_wf(old_entries, i as int, kv, v);
                    assert(self@[i as int].0 == kv);
                    lemma_unique_key_get(self@, i as int, kv);
                    assert forall|k2: Seq<char>| k2 != kv implies (entries_contain(self@, k2)
                        == entries_contain(old_entries, k2) && (entries_contain(old_entries, k2)
                        ==> entries_value(self@, k2) == entries_value(old_entries, k2))) by {
                        lemma_update_other_keys(old_entries, i as int, kv, v, k2);
                    }
                }
                return ;
            }
            i += 1;
        }
        let ghost kv = k@;
        self.entries.push((k, v));
        proof {
            assert(self@ =~= old_entries.push((kv, v)));
            assert(forall|j: int| 0 <= j < old_entries.len() ==> self@[j] == old_entries[j]);
            assert(entries_wf(self@));
            assert(self@[old_entries.len() as int].0 == kv);
            lemma_unique_key_get(self@, old_entries.len() as int, kv);
            assert forall|k2: Seq<char>| k2 != kv implies (entries_contain(self@, k2)
                == entries_contain(old_entries, k2) && (entries_contain(old_entries, k2)
                ==> entries_value(self@, k2) == entries_value(old_entries, k2))) by {
                lemma_push_other_keys(old_entries, kv, v, k2);
            }
        }
    }
}

/// Updating the entry that already holds key `k` keeps the keys distinct.
proof fn lemma_update_keeps_wf(entries: Seq<(Seq<char>, usize)>, i: int, k: Seq<char>, v: usize)
    requires
        entries_wf(entries),
        0 <= i < entries.len(),
        entries[i].0 == k,
    ensures
        entries_wf(entries.update(i, (k, v))),
{
}

/// In a table with distinct keys, the value looked up for the key of entry
/// `i` is the value of entry `i`.
pub proof fn lemma_unique_key_get(entries: Seq<(Seq<char>, usize)>, i: int, k: Seq<char>)
    requires
        entries_wf(entries),
        0 <= i < entries.len(),
        entries[i].0 == k,
    ensures
        entries_contain(entries, k),
        entries_value(entries, k) == entries[i].1,
{
    let w = choose|w: int| 0 <= w < entries.len() && entries[w].0 == k;
    assert(0 <= w < entries.len() && entries[w].0 == k);
    if w != i {
        assert(false);
    }
}

proof fn lemma_update_other_keys(
    entries: Seq<(Seq<char>, usize)>,
    i: int,
    k: Seq<char>,
    v: usize,
    k2: Seq<char>,
)
    requires
        entries_wf(entries),
        0 <= i < entries.len(),
        entries[i].0 == k,
        k2 != k,
    ensures
        entries_contain(entries.update(i, (k, v)), k2) == entries_contain(entries, k2),
        entries_contain(entries, k2) ==> entries_value(entries.update(i, (k, v)), k2)
            == entries_value(entries, k2),
{
    let upd = entries.update(i, (k, v));
    if entries_contain(entries, k2) {
        let w = choose|w: int| 0 <= w < entries.len() && entries[w].0 == k2;
        assert(upd[w].0 == k2);
        lemma_update_keeps_wf(entries, i, k, v);
        lemma_unique_key_get(upd, w, k2);
        lemma_unique_key_get(entries, w, k2);
    }
    if entries_contain(upd, k2) {
        let w = choose|w: int| 0 <= w < upd.len() && upd[w].0 == k2;
        assert(entries[w].0 == k2);
    }
}

proof fn lemma_push_other_keys(
    entries: Seq<(Seq<char>, usize)>,
    k: Seq<char>,
    v: usize,
    k2: Seq<char>,
)
    requires
        entries_wf(entries),
        entries_wf(entries.push((k, v))),
        k2 != k,
    ensures
        entries_contain(entries.push((k, v)), k2) == entries_contain(entries, k2),
        entries_contain(entries, k2) ==> entries_value(entries.push((k, v)), k2)
            == entries_value(entries, k2),
{
    let pushed = entries.push((k, v));
    if entries_contain(entries, k2) {
        let w = choose|w: int| 0 <= w < entries.len() && entries[w].0 == k2;
        assert(pushed[w].0 == k2);
        let w2 = choose|w2: int| 0 <= w2 < pushed.len() && pushed[w2].0 == k2;
        assert(entries_value(pushed, k2) == pushed[w2].1);
        assert(w2 < entries.len());
        assert(entries[w2].0 == k2);
    }
    if entries_contain(pushed, k2) {
        let w = choose|w: int| 0 <= w < pushed.len() && pushed[w].0 == k2;
        assert(w < entries.len());
        assert(entries[w].0 == k2);
    }
}

} // verus!
