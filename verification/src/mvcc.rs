//! Undo images for in-place slot writes: the first image a transaction
//! overwrites is kept until the transaction ends, restored when it aborts,
//! and consulted when a snapshot asks whether a slot's value is visible.
use vstd::prelude::*;

verus! {

/// A slot of the packed store: relation, page and 1-based position.
#[derive(Clone, Copy, PartialEq, Eq, Structural, Debug)]
pub struct SlotKey {
    pub rel_oid: u32,
    pub blkno: u32,
    pub posid: u16,
}

/// A pending write: the writing transaction and the slot's image before it
/// (the bits of the old value).
#[derive(Clone, Copy, Debug)]
pub struct PendingWrite {
    pub key: SlotKey,
    pub xid: u32,
    pub old_bits: u64,
}

/// The pending writes of a backend, at most one per slot.
pub struct PendingWrites {
    entries: Vec<PendingWrite>,
}

/// The entry for `k` among `s`, searching from the back.
pub open spec fn lookup(s: Seq<PendingWrite>, k: SlotKey) -> Option<(u32, u64)>
    decreases s.len(),
{
    if s.len() == 0 {
        None
    } else if s.last().key == k {
        Some((s.last().xid, s.last().old_bits))
    } else {
        lookup(s.drop_last(), k)
    }
}

/// No slot has two entries.
pub open spec fn keys_unique(s: Seq<PendingWrite>) -> bool {
    forall|i: int, j: int| 0 <= i < j < s.len() ==> (#[trigger] s[i]).key != (#[trigger] s[j]).key
}

/// The pending writes as a map from slot to (writer, undo image).
pub open spec fn entries_map(s: Seq<PendingWrite>) -> Map<SlotKey, (u32, u64)> {
    Map::new(|k: SlotKey| lookup(s, k).is_some(), |k: SlotKey| lookup(s, k).unwrap())
}

proof fn lemma_lookup_found(s: Seq<PendingWrite>, i: int)
    requires
        keys_unique(s),
        0 <= i < s.len(),
    ensures
        lookup(s, s[i].key) == Some((s[i].xid, s[i].old_bits)),
    decreases s.len(),
{
    if i < s.len() - 1 {
        assert(s.drop_last()[i] == s[i]);
        assert(keys_unique(s.drop_last()));
        lemma_lookup_found(s.drop_last(), i);
    }
}

proof fn lemma_lookup_absent(s: Seq<PendingWrite>, k: SlotKey)
    requires
        forall|i: int| 0 <= i < s.len() ==> (#[trigger] s[i]).key != k,
    ensures
        lookup(s, k).is_none(),
    decreases s.len(),
{
    if s.len() > 0 {
        lemma_lookup_absent(s.drop_last(), k);
    }
}

proof fn lemma_lookup_some(s: Seq<PendingWrite>, k: SlotKey)
    requires
        lookup(s, k).is_some(),
    ensures
        exists|i: int| 0 <= i < s.len() && (#[trigger] s[i]).key == k,
    decreases s.len(),
{
    if s.last().key != k {
        lemma_lookup_some(s.drop_last(), k);
        let i = choose|i: int| 0 <= i < s.drop_last().len() && (#[trigger] s.drop_last()[i]).key == k;
        assert(s[i] == s.drop_last()[i]);
    } else {
        assert(s[s.len() - 1].key == k);
    }
}

impl PendingWrites {
    #[verifier::type_invariant]
    spec fn inv(self) -> bool {
        keys_unique(self.entries@)
    }

    /// The pending writes by slot.
    pub closed spec fn map(self) -> Map<SlotKey, (u32, u64)> {
        entries_map(self.entries@)
    }

    /// No pending writes.
    pub fn new() -> (r: Self)
        ensures
            r.map() == Map::<SlotKey, (u32, u64)>::empty(),
    {
        let r = PendingWrites { entries: Vec::new() };
        proof {
            assert(r.map() =~= Map::<SlotKey, (u32, u64)>::empty());
        }
        r
    }

    fn find(&self, key: SlotKey) -> (r: Option<usize>)
        ensures
            match r {
                Some(i) => i < self.entries@.len() && self.entries@[i as int].key == key,
                None => forall|i: int| 0 <= i < self.entries@.len() ==> (#[trigger] self.entries@[i]).key != key,
            },
    {
        let n = self.entries.len();
        let mut i: usize = 0;
        while i < n
            invariant
                n == self.entries@.len(),
                i <= n,
                forall|j: int| 0 <= j < i ==> (#[trigger] self.entries@[j]).key != key,
            decreases n - i,
        {
            if self.entries[i].key == key {
                return Some(i);
            }
            i = i + 1;
        }
        None
    }

    /// Records that transaction `xid` is about to overwrite the slot `key`,
    /// whose current value has the bits `old_bits`. The first write to a
    /// slot keeps its undo image: a later write of the slot, by the same or
    /// another transaction, changes nothing until the first one ends.
    pub fn record_write(&mut self, key: SlotKey, xid: u32, old_bits: u64)
        ensures
            final(self).map() == recorded(old(self).map(), key, xid, old_bits),
    {
        proof {
            use_type_invariant(&*self);
        }
        let ghost before = self.entries@;
        match self.find(key) {
            Some(i) => {
                proof {
                    lemma_lookup_found(before, i as int);
                }
            },
            None => {
                let mut entries = Vec::new();
                std::mem::swap(&mut entries, &mut self.entries);
                entries.push(PendingWrite { key, xid, old_bits });
                proof {
                    lemma_lookup_absent(before, key);
                    assert(keys_unique(entries@));
                    assert(entries_map(entries@) =~= entries_map(before).insert(key, (xid, old_bits))) by {
                        assert forall|k: SlotKey| k != key implies lookup(entries@, k) == lookup(before, k) by {
                            assert(entries@.drop_last() =~= before);
                        }
                        assert(entries@.drop_last() =~= before);
                    }
                }
                self.entries = entries;
            },
        }
    }

    /// The transaction whose write of `key` is pending, if any.
    pub fn writer_of(&self, key: SlotKey) -> (r: Option<u32>)
        ensures
            r == if self.map().contains_key(key) {
                Some(self.map()[key].0)
            } else {
                None
            },
    {
        proof {
            use_type_invariant(self);
        }
        match self.find(key) {
            Some(i) => {
                proof {
                    lemma_lookup_found(self.entries@, i as int);
                }
                Some(self.entries[i].xid)
            },
            None => {
                proof {
                    lemma_lookup_absent(self.entries@, key);
                }
                None
            },
        }
    }

    /// Ends transaction `xid`: its pending writes are dropped, and when it
    /// aborted their undo images are returned for restoring (one per slot).
    /// Without a transaction id (`xid` 0) nothing happens.
    pub fn finish_transaction(&mut self, xid: u32, aborted: bool) -> (r: Vec<(SlotKey, u64)>)
        ensures
            xid == 0 ==> final(self).map() == old(self).map() && r@.len() == 0,
            xid != 0 ==> final(self).map() == finished(old(self).map(), xid),
            xid != 0 && aborted ==> (forall|k: SlotKey, v: u64|
                #![trigger r@.contains((k, v))]
                r@.contains((k, v)) <==> old(self).map().contains_key(k) && old(self).map()[k] == (xid, v)),
            !aborted ==> r@.len() == 0,
            forall|i: int, j: int| 0 <= i < j < r@.len() ==> (#[trigger] r@[i]).0 != (#[trigger] r@[j]).0,
    {
        proof {
            use_type_invariant(&*self);
        }
        let mut restore: Vec<(SlotKey, u64)> = Vec::new();
        if xid == 0 {
            return restore;
        }
        let ghost before = self.entries@;
        let mut kept: Vec<PendingWrite> = Vec::new();
        let n = self.entries.len();
        let mut i: usize = 0;
        proof {
            assert(before.take(0) =~= Seq::<PendingWrite>::empty());
        }
        while i < n
            invariant
                n == self.entries@.len(),
                before == self.entries@,
                i <= n,
                kept@ == kept_spec(before.take(i as int), xid),
                restore@ == (if aborted {
                    restored_spec(before.take(i as int), xid)
                } else {
                    Seq::empty()
                }),
            decreases n - i,
        {
            let e = self.entries[i];
            proof {
                assert(before.take(i + 1).drop_last() =~= before.take(i as int));
                assert(before.take(i + 1).last() == e);
            }
            if e.xid == xid {
                if aborted {
                    restore.push((e.key, e.old_bits));
                }
            } else {
                kept.push(e);
            }
            i = i + 1;
        }
        proof {
            assert(before.take(n as int) =~= before);
            lemma_kept_restored(before, xid);
            let om = entries_map(before);
            let nm = entries_map(kept@);
            assert forall|k: SlotKey| #[trigger] nm.contains_key(k) == (om.contains_key(k) && om[k].0 != xid) by {
                lemma_kept_lookup(before, xid, k);
            }
            assert forall|k: SlotKey| #[trigger] nm.contains_key(k) implies nm[k] == om[k] by {
                lemma_kept_lookup(before, xid, k);
            }
            assert(nm =~= finished(om, xid));
            if aborted {
                assert forall|k: SlotKey, v: u64| #![trigger restore@.contains((k, v))] restore@.contains((k, v)) <==> om.contains_key(k) && om[k] == (xid, v) by {
                    lemma_restored_contains(before, xid, k, v);
                }
            }
        }
        self.entries = kept;
        restore
    }
}

/// The entries of `s` that survive the end of transaction `xid`, in order.
pub open spec fn kept_spec(s: Seq<PendingWrite>, xid: u32) -> Seq<PendingWrite>
    decreases s.len(),
{
    if s.len() == 0 {
        Seq::empty()
    } else {
        let prev = kept_spec(s.drop_last(), xid);
        if s.last().xid != xid {
            prev.push(s.last())
        } else {
            prev
        }
    }
}

/// The undo images of transaction `xid` among `s`, in order.
pub open spec fn restored_spec(s: Seq<PendingWrite>, xid: u32) -> Seq<(SlotKey, u64)>
    decreases s.len(),
{
    if s.len() == 0 {
        Seq::empty()
    } else {
        let prev = restored_spec(s.drop_last(), xid);
        if s.last().xid == xid {
            prev.push((s.last().key, s.last().old_bits))
        } else {
            prev
        }
    }
}

proof fn lemma_kept_restored(s: Seq<PendingWrite>, xid: u32)
    requires
        keys_unique(s),
    ensures
        keys_unique(kept_spec(s, xid)),
        forall|i: int| 0 <= i < kept_spec(s, xid).len() ==> s.contains(#[trigger] kept_spec(s, xid)[i]),
        forall|i: int| 0 <= i < restored_spec(s, xid).len() ==> exists|j: int| 0 <= j < s.len() && (#[trigger] restored_spec(s, xid)[i]).0 == s[j].key,
        forall|i: int, j: int| 0 <= i < j < restored_spec(s, xid).len() ==> (#[trigger] restored_spec(s, xid)[i]).0 != (#[trigger] restored_spec(s, xid)[j]).0,
    decreases s.len(),
{
    if s.len() > 0 {
        let t = s.drop_last();
        assert(keys_unique(t));
        lemma_kept_restored(t, xid);
        let x = s.last();
        assert forall|j: int| 0 <= j < t.len() implies (#[trigger] t[j]).key != x.key by {
            assert(s[j] == t[j]);
        }
        let kp = kept_spec(t, xid);
        let rp = restored_spec(t, xid);
        assert forall|i: int| 0 <= i < kept_spec(s, xid).len() implies s.contains(#[trigger] kept_spec(s, xid)[i]) by {
            if i < kp.len() {
                assert(kept_spec(s, xid)[i] == kp[i]);
                assert(t.contains(kp[i]));
                let j = choose|j: int| 0 <= j < t.len() && t[j] == kp[i];
                assert(s[j] == t[j]);
            } else {
                assert(s[s.len() - 1] == x);
            }
        }
        assert forall|i: int, j: int| 0 <= i < j < kept_spec(s, xid).len() implies (#[trigger] kept_spec(s, xid)[i]).key != (#[trigger] kept_spec(s, xid)[j]).key by {
            if j < kp.len() {
                assert(kept_spec(s, xid)[i] == kp[i] && kept_spec(s, xid)[j] == kp[j]);
            } else {
                assert(kept_spec(s, xid)[i] == kp[i]);
                assert(t.contains(kp[i]));
            }
        }
        assert forall|i: int| 0 <= i < restored_spec(s, xid).len() implies exists|j: int| 0 <= j < s.len() && (#[trigger] restored_spec(s, xid)[i]).0 == s[j].key by {
            if i < rp.len() {
                assert(restored_spec(s, xid)[i] == rp[i]);
                let j = choose|j: int| 0 <= j < t.len() && rp[i].0 == t[j].key;
                assert(s[j] == t[j]);
            } else {
                assert(s[s.len() - 1] == x);
            }
        }
        assert forall|i: int, j: int| 0 <= i < j < restored_spec(s, xid).len() implies (#[trigger] restored_spec(s, xid)[i]).0 != (#[trigger] restored_spec(s, xid)[j]).0 by {
            if j < rp.len() {
                assert(restored_spec(s, xid)[i] == rp[i] && restored_spec(s, xid)[j] == rp[j]);
            } else {
                assert(restored_spec(s, xid)[i] == rp[i]);
                let q = choose|q: int| 0 <= q < t.len() && rp[i].0 == t[q].key;
            }
        }
    }
}

proof fn lemma_kept_lookup(s: Seq<PendingWrite>, xid: u32, k: SlotKey)
    requires
        keys_unique(s),
    ensures
        lookup(kept_spec(s, xid), k) == (match lookup(s, k) {
            Some(e) => if e.0 != xid {
                Some(e)
            } else {
                None
            },
            None => None,
        }),
    decreases s.len(),
{
    if s.len() > 0 {
        let t = s.drop_last();
        assert(keys_unique(t));
        lemma_kept_lookup(t, xid, k);
        assert(kept_spec(t, xid).push(s.last()).drop_last() =~= kept_spec(t, xid));
        if s.last().key == k {
            assert forall|j: int| 0 <= j < t.len() implies (#[trigger] t[j]).key != k by {
                assert(s[j] == t[j]);
            }
            lemma_lookup_absent(t, k);
            lemma_kept_restored(t, xid);
            if s.last().xid == xid {
                assert forall|j: int| 0 <= j < kept_spec(t, xid).len() implies (#[trigger] kept_spec(t, xid)[j]).key != k by {
                    assert(t.contains(kept_spec(t, xid)[j]));
                }
                lemma_lookup_absent(kept_spec(t, xid), k);
            }
        }
    }
}

proof fn lemma_restored_contains(s: Seq<PendingWrite>, xid: u32, k: SlotKey, v: u64)
    requires
        keys_unique(s),
    ensures
        restored_spec(s, xid).contains((k, v)) <==> lookup(s, k) == Some((xid, v)),
    decreases s.len(),
{
    if s.len() > 0 {
        let t = s.drop_last();
        assert(keys_unique(t));
        lemma_restored_contains(t, xid, k, v);
        let rp = restored_spec(t, xid);
        let x = s.last();
        if x.key == k {
            assert forall|j: int| 0 <= j < t.len() implies (#[trigger] t[j]).key != k by {
                assert(s[j] == t[j]);
            }
            lemma_lookup_absent(t, k);
            lemma_kept_restored(t, xid);
            assert(!rp.contains((k, v))) by {
                if rp.contains((k, v)) {
                    let i = choose|i: int| 0 <= i < rp.len() && rp[i] == (k, v);
                    let j = choose|j: int| 0 <= j < t.len() && (#[trigger] rp[i]).0 == t[j].key;
                }
            }
            if x.xid == xid {
                assert(restored_spec(s, xid) == rp.push((x.key, x.old_bits)));
                if restored_spec(s, xid).contains((k, v)) {
                    let i = choose|i: int| 0 <= i < rp.len() + 1 && restored_spec(s, xid)[i] == (k, v);
                    if i < rp.len() {
                        assert(rp[i] == (k, v));
                    }
                }
                if lookup(s, k) == Some((xid, v)) {
                    assert(restored_spec(s, xid)[rp.len() as int] == (k, v));
                }
            }
        } else {
            if x.xid == xid {
                assert(restored_spec(s, xid) == rp.push((x.key, x.old_bits)));
                if restored_spec(s, xid).contains((k, v)) {
                    let i = choose|i: int| 0 <= i < rp.len() + 1 && restored_spec(s, xid)[i] == (k, v);
                    assert(i < rp.len());
                    assert(rp[i] == (k, v));
                }
                if rp.contains((k, v)) {
                    let i = choose|i: int| 0 <= i < rp.len() && rp[i] == (k, v);
                    assert(restored_spec(s, xid)[i] == (k, v));
                }
            }
        }
    }
}

/// The pending writes after transaction `xid` records a write of `key`
/// over the image `old_bits`: unchanged when the slot already has one.
pub open spec fn recorded(m: Map<SlotKey, (u32, u64)>, key: SlotKey, xid: u32, old_bits: u64) -> Map<SlotKey, (u32, u64)> {
    if m.contains_key(key) {
        m
    } else {
        m.insert(key, (xid, old_bits))
    }
}

/// The pending writes after transaction `xid` ends: those of other
/// transactions.
pub open spec fn finished(m: Map<SlotKey, (u32, u64)>, xid: u32) -> Map<SlotKey, (u32, u64)> {
    m.restrict(m.dom().filter(|k: SlotKey| m[k].0 != xid))
}

/// Law: the first write of a slot keeps the undo image; a second write of
/// the slot, by any transaction, leaves it as the first write left it.
pub proof fn lemma_first_write_wins(
    m: Map<SlotKey, (u32, u64)>,
    key: SlotKey,
    x1: u32,
    v1: u64,
    x2: u32,
    v2: u64,
)
    ensures
        recorded(recorded(m, key, x1, v1), key, x2, v2) == recorded(m, key, x1, v1),
        !m.contains_key(key) ==> recorded(recorded(m, key, x1, v1), key, x2, v2)[key] == (x1, v1),
{
}

/// Law: a transaction that writes a slot without a pending write and then
/// ends leaves no pending write for the slot, and other transactions'
/// pending writes stay as they were.
pub proof fn lemma_finish_clears_own_writes(m: Map<SlotKey, (u32, u64)>, key: SlotKey, xid: u32, v: u64, other: SlotKey)
    requires
        !m.contains_key(key),
        other != key,
        m.contains_key(other),
        m[other].0 != xid,
    ensures
        !finished(recorded(m, key, xid, v), xid).contains_key(key),
        finished(recorded(m, key, xid, v), xid).contains_key(other),
        finished(recorded(m, key, xid, v), xid)[other] == m[other],
{
}

/// The kind of snapshot a scan reads under.
#[derive(Clone, Copy, PartialEq, Eq, Structural, Debug)]
pub enum SnapshotKind {
    Any,
    Mvcc,
    HistoricMvcc,
    Other,
}

/// What the visibility check of a slot needs or concludes.
#[derive(Clone, Copy, PartialEq, Eq, Structural, Debug)]
pub enum VisibilityStep {
    /// The answer: `Some(true)` visible whatever the slot holds,
    /// `Some(false)` hidden, `None` decided by the slot's value.
    Decided(Option<bool>),
    /// The answer depends on whether this writing transaction is still in
    /// progress for the snapshot.
    AskSnapshot(u32),
}

/// Decides the visibility of a slot's value: without a snapshot the value
/// decides; any-snapshots see everything; snapshots other than MVCC ones
/// leave it to the value; under an MVCC snapshot a slot without a pending
/// write is decided by its value, and one with a pending write depends on
/// the writer.
pub fn check_visibility(pending: &PendingWrites, key: SlotKey, snapshot: Option<SnapshotKind>) -> (r: VisibilityStep)
    ensures
        r == match snapshot {
            None => VisibilityStep::Decided(None),
            Some(SnapshotKind::Any) => VisibilityStep::Decided(Some(true)),
            Some(SnapshotKind::Mvcc) | Some(SnapshotKind::HistoricMvcc) => if pending.map().contains_key(key) {
                VisibilityStep::AskSnapshot(pending.map()[key].0)
            } else {
                VisibilityStep::Decided(None)
            },
            Some(SnapshotKind::Other) => VisibilityStep::Decided(None),
        },
{
    match snapshot {
        None => VisibilityStep::Decided(None),
        Some(SnapshotKind::Any) => VisibilityStep::Decided(Some(true)),
        Some(SnapshotKind::Other) => VisibilityStep::Decided(None),
        Some(_) => match pending.writer_of(key) {
            Some(x) => VisibilityStep::AskSnapshot(x),
            None => VisibilityStep::Decided(None),
        },
    }
}

/// The answer once the snapshot has said whether the writer is still in
/// progress: hidden if so, else decided by the slot's value.
pub fn visibility_after_snapshot(writer_in_progress: bool) -> (r: Option<bool>)
    ensures
        r == if writer_in_progress {
            Some(false)
        } else {
            None
        },
{
    if writer_in_progress {
        Some(false)
    } else {
        None
    }
}

/// The in-page offset of the 1-based position `posid`.
pub fn restore_offset(posid: u16) -> (r: u32)
    requires
        posid >= 1,
    ensures
        r == crate::storage::HEADER_SIZE + (posid - 1) * 8,
{
    24 + (posid as u32 - 1) * 8
}

} // verus!
