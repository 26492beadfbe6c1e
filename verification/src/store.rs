//! The document store: a durable key-value map from identifiers to encoded
//! records, written only through atomic batch commits. Records are
//! write-once: a commit may not overwrite an existing key.
use vstd::prelude::*;

verus! {

/// One stored pair: identifier and encoded record.
pub type StoreEntry = (u32, Seq<u8>);

/// Entries sorted strictly by identifier: each key occurs once and
/// iteration yields key order.
pub open spec fn entries_sorted(s: Seq<StoreEntry>) -> bool {
    forall|i: int, j: int| 0 <= i < j < s.len() ==> s[i].0 < s[j].0
}

/// The map an entry sequence denotes.
pub open spec fn map_of(s: Seq<StoreEntry>) -> Map<u32, Seq<u8>>
    decreases s.len(),
{
    if s.len() == 0 {
        Map::empty()
    } else {
        map_of(s.drop_first()).insert(s[0].0, s[0].1)
    }
}

/// No key of `b` occurs in `a`.
pub open spec fn keys_disjoint(a: Seq<StoreEntry>, b: Seq<StoreEntry>) -> bool {
    forall|i: int, j: int| 0 <= i < a.len() && 0 <= j < b.len() ==> a[i].0 != b[j].0
}

/// Two sorted entry sequences merged into one sorted sequence.
pub open spec fn merge_entries(a: Seq<StoreEntry>, b: Seq<StoreEntry>) -> Seq<StoreEntry>
    decreases a.len() + b.len(),
{
    if a.len() == 0 {
        b
    } else if b.len() == 0 {
        a
    } else if a[0].0 <= b[0].0 {
        seq![a[0]] + merge_entries(a.drop_first(), b)
    } else {
        seq![b[0]] + merge_entries(a, b.drop_first())
    }
}

pub proof fn lemma_map_of_contains(s: Seq<StoreEntry>, k: u32)
    ensures
        map_of(s).contains_key(k) <==> exists|l: int| 0 <= l < s.len() && s[l].0 == k,
    decreases s.len(),
{
    if s.len() > 0 {
        lemma_map_of_contains(s.drop_first(), k);
        if map_of(s).contains_key(k) {
            if s[0].0 == k {
                assert(s[0].0 == k && 0 < s.len());
            } else {
                let l = choose|l: int| 0 <= l < s.drop_first().len() && s.drop_first()[l].0 == k;
                assert(s[l + 1].0 == k);
            }
        }
        if exists|l: int| 0 <= l < s.len() && s[l].0 == k {
            let l = choose|l: int| 0 <= l < s.len() && s[l].0 == k;
            if l > 0 {
                assert(s.drop_first()[l - 1].0 == k);
            }
        }
    }
}

pub proof fn lemma_map_of_index(s: Seq<StoreEntry>, l: int)
    requires
        entries_sorted(s),
        0 <= l < s.len(),
    ensures
        map_of(s).contains_key(s[l].0),
        map_of(s)[s[l].0] == s[l].1,
    decreases s.len(),
{
    if l == 0 {
        if map_of(s.drop_first()).contains_key(s[0].0) {
            lemma_map_of_contains(s.drop_first(), s[0].0);
            let m = choose|m: int|
                0 <= m < s.drop_first().len() && s.drop_first()[m].0 == s[0].0;
            assert(s[m + 1].0 == s[0].0);
            assert(false);
        }
    } else {
        assert(entries_sorted(s.drop_first())) by {
            assert(forall|i: int, j: int|
                0 <= i < j < s.drop_first().len() ==> s.drop_first()[i].0 == s[i + 1].0
                    && s.drop_first()[j].0 == s[j + 1].0);
        }
        lemma_map_of_index(s.drop_first(), l - 1);
        assert(s.drop_first()[l - 1] == s[l]);
        assert(s[0].0 < s[l].0);
    }
}

/// A merge of sorted, key-disjoint entry sequences denotes the map union,
/// and is itself sorted.
pub proof fn lemma_merge_entries(a: Seq<StoreEntry>, b: Seq<StoreEntry>)
    requires
        entries_sorted(a),
        entries_sorted(b),
        keys_disjoint(a, b),
    ensures
        entries_sorted(merge_entries(a, b)),
        map_of(merge_entries(a, b)) == map_of(a).union_prefer_right(map_of(b)),
        merge_entries(a, b).len() == a.len() + b.len(),
        forall|l: int|
            0 <= l < merge_entries(a, b).len() ==> (exists|i: int|
                0 <= i < a.len() && a[i] == #[trigger] merge_entries(a, b)[l]) || (exists|j: int|
                0 <= j < b.len() && b[j] == merge_entries(a, b)[l]),
    decreases a.len() + b.len(),
{
    if a.len() == 0 {
        assert(map_of(a).union_prefer_right(map_of(b)) =~= map_of(b));
    } else if b.len() == 0 {
        assert(map_of(a).union_prefer_right(map_of(b)) =~= map_of(a));
    } else {
        let m = merge_entries(a, b);
        if a[0].0 <= b[0].0 {
            assert(entries_sorted(a.drop_first()));
            assert(keys_disjoint(a.drop_first(), b));
            lemma_merge_entries(a.drop_first(), b);
            let rest = merge_entries(a.drop_first(), b);
            assert(m == seq![a[0]] + rest);
            // every later entry carries a key above the head's
            assert forall|l: int| 0 < l < m.len() implies m[0].0 < (#[trigger] m[l]).0 by {
                assert(m[l] == rest[l - 1]);
                if exists|i: int| 0 <= i < a.drop_first().len() && a.drop_first()[i] == rest[l
                    - 1] {
                    let i = choose|i: int|
                        0 <= i < a.drop_first().len() && a.drop_first()[i] == rest[l - 1];
                    assert(a[i + 1] == rest[l - 1]);
                } else {
                    let j = choose|j: int| 0 <= j < b.len() && b[j] == rest[l - 1];
                    assert(a[0].0 != b[j].0);
                    assert(b[0].0 <= b[j].0);
                }
            }
            assert(entries_sorted(m)) by {
                assert(forall|i: int, j: int|
                    0 < i < j < m.len() ==> m[i] == rest[i - 1] && m[j] == rest[j - 1]);
            }
            assert(m.drop_first() =~= rest);
            assert(map_of(m) == map_of(rest).insert(a[0].0, a[0].1));
            assert(map_of(a) == map_of(a.drop_first()).insert(a[0].0, a[0].1));
            lemma_map_of_contains(b, a[0].0);
            assert(!map_of(b).contains_key(a[0].0));
            assert(map_of(a.drop_first()).union_prefer_right(map_of(b)).insert(a[0].0, a[0].1)
                =~= map_of(a.drop_first()).insert(a[0].0, a[0].1).union_prefer_right(map_of(b)));
        } else {
            assert(entries_sorted(b.drop_first()));
            assert(keys_disjoint(a, b.drop_first()));
            lemma_merge_entries(a, b.drop_first());
            let rest = merge_entries(a, b.drop_first());
            assert(m == seq![b[0]] + rest);
            assert forall|l: int| 0 < l < m.len() implies m[0].0 < (#[trigger] m[l]).0 by {
                assert(m[l] == rest[l - 1]);
                if exists|j: int| 0 <= j < b.drop_first().len() && b.drop_first()[j] == rest[l
                    - 1] {
                    let j = choose|j: int|
                        0 <= j < b.drop_first().len() && b.drop_first()[j] == rest[l - 1];
                    assert(b[j + 1] == rest[l - 1]);
                } else {
                    let i = choose|i: int| 0 <= i < a.len() && a[i] == rest[l - 1];
                    assert(a[i].0 != b[0].0);
                    assert(a[0].0 <= a[i].0);
                }
            }
            assert(entries_sorted(m)) by {
                assert(forall|i: int, j: int|
                    0 < i < j < m.len() ==> m[i] == rest[i - 1] && m[j] == rest[j - 1]);
            }
            assert(m.drop_first() =~= rest);
            assert(map_of(m) == map_of(rest).insert(b[0].0, b[0].1));
            assert(map_of(b) == map_of(b.drop_first()).insert(b[0].0, b[0].1));
            lemma_map_of_contains(a, b[0].0);
            assert(!map_of(a).contains_key(b[0].0));
            assert(map_of(a).union_prefer_right(map_of(b.drop_first())).insert(b[0].0, b[0].1)
                =~= map_of(a).union_prefer_right(
                map_of(b.drop_first()).insert(b[0].0, b[0].1),
            ));
        }
    }
}

/// A verified copy of a byte vector.
pub(crate) fn copy_bytes(v: &Vec<u8>) -> (r: Vec<u8>)
    ensures
        r@ == v@,
{
    let mut r: Vec<u8> = Vec::new();
    let mut i: usize = 0;
    while i < v.len()
        invariant
            i <= v.len(),
            r@ == v@.take(i as int),
        decreases v.len() - i,
    {
        r.push(v[i]);
        i = i + 1;
        proof {
            assert(v@.take(i as int) =~= v@.take(i - 1).push(v@[i - 1]));
        }
    }
    proof {
        assert(v@.take(v@.len() as int) =~= v@);
    }
    r
}

/// The error a failed batch commit surfaces; ingestion treats it as fatal.
#[derive(Debug, PartialEq, Eq, Structural)]
pub enum StoreError {
    CommitFailed,
}

/// The in-process document store: entries sorted by identifier, mutated
/// only by `batch_commit`, plus a fault hook so a commit failure can be
/// exercised.
pub struct Store {
    entries: Vec<(u32, Vec<u8>)>,
    fail_next_commit: bool,
}

impl View for Store {
    type V = Map<u32, Seq<u8>>;

    /// The map this store holds.
    open spec fn view(&self) -> Map<u32, Seq<u8>> {
        map_of(self.entries_seq())
    }
}

impl Store {
    /// The stored entries in key order.
    pub closed spec fn entries_seq(&self) -> Seq<StoreEntry> {
        self.entries.deep_view()
    }

    /// Whether the next commit has been set up to fail.
    pub closed spec fn fault_pending(&self) -> bool {
        self.fail_next_commit
    }

    pub open spec fn wf(&self) -> bool {
        entries_sorted(self.entries_seq())
    }

    /// An empty store.
    pub fn new() -> (s: Store)
        ensures
            s.wf(),
            s@ == Map::<u32, Seq<u8>>::empty(),
            s.entries_seq() == Seq::<StoreEntry>::empty(),
            !s.fault_pending(),
    {
        let s = Store { entries: Vec::new(), fail_next_commit: false };
        proof {
            assert(s.entries.deep_view() =~= Seq::<StoreEntry>::empty());
        }
        s
    }

    /// Arms the fault hook: the next batch commit fails.
    pub fn inject_commit_fault(&mut self)
        ensures
            final(self).fault_pending(),
            final(self).entries_seq() == old(self).entries_seq(),
            final(self)@ == old(self)@,
            final(self).wf() == old(self).wf(),
    {
        self.fail_next_commit = true;
    }

    /// How many records the store holds.
    pub fn record_count(&self) -> (n: usize)
        requires
            self.wf(),
        ensures
            n == self.entries_seq().len(),
            n == self@.dom().len(),
    {
        proof {
            lemma_entry_count(self.entries.deep_view());
        }
        self.entries.len()
    }

    /// The existence check the dedup controller uses.
    #[verifier::loop_isolation(false)]
    pub fn contains(&self, id: u32) -> (b: bool)
        requires
            self.wf(),
        ensures
            b == self@.contains_key(id),
    {
        proof {
            lemma_map_of_contains(self.entries.deep_view(), id);
        }
        let mut i: usize = 0;
        while i < self.entries.len()
            invariant
                i <= self.entries.len(),
                forall|l: int| 0 <= l < i ==> self.entries.deep_view()[l].0 != id,
            decreases self.entries.len() - i,
        {
            if self.entries[i].0 == id {
                proof {
                    assert(self.entries.deep_view()[i as int].0 == id);
                }
                return true;
            }
            i = i + 1;
        }
        false
    }

    /// Point lookup of an encoded record.
    #[verifier::loop_isolation(false)]
    pub fn get(&self, id: u32) -> (r: Option<Vec<u8>>)
        requires
            self.wf(),
        ensures
            r is Some <==> self@.contains_key(id),
            r matches Some(v) ==> self@.contains_key(id) && v@ == self@[id],
    {
        proof {
            lemma_map_of_contains(self.entries.deep_view(), id);
        }
        let mut i: usize = 0;
        while i < self.entries.len()
            invariant
                i <= self.entries.len(),
                forall|l: int| 0 <= l < i ==> self.entries.deep_view()[l].0 != id,
            decreases self.entries.len() - i,
        {
            if self.entries[i].0 == id {
                proof {
                    assert(self.entries.deep_view()[i as int].0 == id);
                    lemma_map_of_index(self.entries.deep_view(), i as int);
                }
                let v = copy_bytes(&self.entries[i].1);
                proof {
                    assert(v@ =~= self.entries.deep_view()[i as int].1);
                }
                return Some(v);
            }
            i = i + 1;
        }
        None
    }

    /// The entry at a position of the key order, for full scans.
    pub fn entry_at(&self, i: usize) -> (r: (u32, Vec<u8>))
        requires
            self.wf(),
            i < self.entries_seq().len(),
        ensures
            r.0 == self.entries_seq()[i as int].0,
            r.1@ == self.entries_seq()[i as int].1,
    {
        let id = self.entries[i].0;
        let v = copy_bytes(&self.entries[i].1);
        proof {
            assert(v@ =~= self.entries_seq()[i as int].1);
        }
        (id, v)
    }

    /// Atomic batch commit: all of the batch becomes visible, or none of it.
    /// The store is write-once, so a batch may not touch existing keys.
    pub fn batch_commit(&mut self, batch: Vec<(u32, Vec<u8>)>) -> (r: Result<(), StoreError>)
        requires
            old(self).wf(),
            entries_sorted(batch.deep_view()),
            keys_disjoint(old(self).entries_seq(), batch.deep_view()),
        ensures
            final(self).wf(),
            final(self).fault_pending() == false,
            r matches Err(e) ==> e == StoreError::CommitFailed && old(self).fault_pending()
                && final(self).entries_seq() == old(self).entries_seq() && final(self)@ == old(
                self,
            )@,
            r is Ok ==> !old(self).fault_pending() && final(self).entries_seq() == merge_entries(
                old(self).entries_seq(),
                batch.deep_view(),
            ) && final(self)@ == old(self)@.union_prefer_right(map_of(batch.deep_view())),
            r is Ok <==> !old(self).fault_pending(),
    {
        if self.fail_next_commit {
            self.fail_next_commit = false;
            return Err(StoreError::CommitFailed);
        }
        let ghost ga = self.entries.deep_view();
        let ghost gb = batch.deep_view();
        proof {
            lemma_merge_entries(ga, gb);
        }
        let mut merged: Vec<(u32, Vec<u8>)> = Vec::new();
        let mut i: usize = 0;
        let mut j: usize = 0;
        proof {
            assert(ga.skip(0) =~= ga);
            assert(gb.skip(0) =~= gb);
        }
        while i < self.entries.len() || j < batch.len()
            invariant
                i <= self.entries.len(),
                j <= batch.len(),
                ga == self.entries.deep_view(),
                gb == batch.deep_view(),
                merged.deep_view() + merge_entries(ga.skip(i as int), gb.skip(j as int))
                    =~= merge_entries(ga, gb),
            decreases self.entries.len() - i + batch.len() - j,
        {
            let ghost pre = merged.deep_view();
            let take_left: bool = if j >= batch.len() {
                true
            } else if i >= self.entries.len() {
                false
            } else {
                self.entries[i].0 <= batch[j].0
            };
            if take_left {
                let id = self.entries[i].0;
                let v = copy_bytes(&self.entries[i].1);
                proof {
                    assert((id, v@) == ga.skip(i as int)[0]);
                    lemma_skip_one(ga, i as int);
                }
                merged.push((id, v));
                i = i + 1;
                proof {
                    assert(merged.deep_view() =~= pre.push(ga[i - 1]));
                    if j < gb.len() {
                        assert(merge_entries(ga.skip(i - 1), gb.skip(j as int)) == seq![
                            ga[i - 1],
                        ] + merge_entries(ga.skip(i as int), gb.skip(j as int)));
                    } else {
                        assert(gb.skip(j as int) =~= Seq::<StoreEntry>::empty());
                        assert(ga.skip(i - 1) =~= seq![ga[i - 1]] + ga.skip(i as int));
                    }
                    assert(pre.push(ga[i - 1]) + merge_entries(ga.skip(i as int), gb.skip(j as int))
                        =~= pre + (seq![ga[i - 1]] + merge_entries(
                        ga.skip(i as int),
                        gb.skip(j as int),
                    )));
                }
            } else {
                let id = batch[j].0;
                let v = copy_bytes(&batch[j].1);
                proof {
                    assert((id, v@) == gb.skip(j as int)[0]);
                    lemma_skip_one(gb, j as int);
                }
                merged.push((id, v));
                j = j + 1;
                proof {
                    assert(merged.deep_view() =~= pre.push(gb[j - 1]));
                    if i < ga.len() {
                        assert(merge_entries(ga.skip(i as int), gb.skip(j - 1)) == seq![
                            gb[j - 1],
                        ] + merge_entries(ga.skip(i as int), gb.skip(j as int)));
                    } else {
                        assert(ga.skip(i as int) =~= Seq::<StoreEntry>::empty());
                        assert(gb.skip(j - 1) =~= seq![gb[j - 1]] + gb.skip(j as int));
                    }
                    assert(pre.push(gb[j - 1]) + merge_entries(ga.skip(i as int), gb.skip(j as int))
                        =~= pre + (seq![gb[j - 1]] + merge_entries(
                        ga.skip(i as int),
                        gb.skip(j as int),
                    )));
                }
            }
        }
        proof {
            assert(ga.skip(ga.len() as int) =~= Seq::<StoreEntry>::empty());
            assert(gb.skip(gb.len() as int) =~= Seq::<StoreEntry>::empty());
            assert(merged.deep_view() =~= merge_entries(ga, gb));
        }
        self.entries = merged;
        Ok(())
    }
}

proof fn lemma_skip_one(s: Seq<StoreEntry>, i: int)
    requires
        0 <= i < s.len(),
    ensures
        s.skip(i)[0] == s[i],
        s.skip(i).drop_first() =~= s.skip(i + 1),
        s.skip(i) =~= seq![s[i]] + s.skip(i + 1),
{
}

proof fn lemma_entry_count(s: Seq<StoreEntry>)
    requires
        entries_sorted(s),
    ensures
        map_of(s).dom().len() == s.len(),
        map_of(s).dom().finite(),
    decreases s.len(),
{
    if s.len() > 0 {
        assert(entries_sorted(s.drop_first()));
        lemma_entry_count(s.drop_first());
        lemma_map_of_contains(s.drop_first(), s[0].0);
        assert(!map_of(s.drop_first()).contains_key(s[0].0));
        assert(map_of(s).dom() =~= map_of(s.drop_first()).dom().insert(s[0].0));
        vstd::set::axiom_set_insert_finite(map_of(s.drop_first()).dom(), s[0].0);
        vstd::set::axiom_set_insert_len(map_of(s.drop_first()).dom(), s[0].0);
    }
}

/// Batch atomicity, stated over any store and batch: a failed commit leaves
/// every key and every record exactly as it was, and a successful commit
/// makes every pair of the batch visible at once.
pub proof fn lemma_batch_atomicity(
    pre: Store,
    post: Store,
    batch: Seq<StoreEntry>,
    r: Result<(), StoreError>,
)
    requires
        pre.wf(),
        entries_sorted(batch),
        keys_disjoint(pre.entries_seq(), batch),
        r matches Err(e) ==> post@ == pre@,
        r is Ok ==> post@ == pre@.union_prefer_right(map_of(batch)),
    ensures
        r is Err ==> post@ =~= pre@,
        r is Ok ==> forall|l: int|
            0 <= l < batch.len() ==> post@.contains_key(#[trigger] batch[l].0) && post@[batch[l].0]
                == batch[l].1,
{
    if r is Ok {
        assert forall|l: int| 0 <= l < batch.len() implies post@.contains_key(
            #[trigger] batch[l].0,
        ) && post@[batch[l].0] == batch[l].1 by {
            lemma_map_of_contains(batch, batch[l].0);
            lemma_map_of_index(batch, l);
        }
    }
}

} // verus!
