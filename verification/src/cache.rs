//! A cache that avoids evicting what is used.
//!
//! Values are added and borrowed as shared handles: eviction never takes a
//! value from someone who holds it, and never evicts a value that someone
//! holds.  Every lookup raises the use count of its entry; when the cache
//! is full, a sweep lowers every use count by one and marks the entries
//! that were at zero for eviction.
//!
//! The entries are kept in a vector in the order in which they were
//! added, each key at most once.

use vstd::prelude::*;
use std::rc::Rc;
use crate::handle::{holders, share};

verus! {

/// How often the cache looks for entries to evict before it gives up and
/// empties itself.
pub const MAX_FIND_ATTEMPTS: usize = 10;

pub struct Entry<V> {
    pub key: u64,
    pub use_count: usize,
    pub rc: Rc<V>,
}

pub struct Cache<V> {
    pub entries: Vec<Entry<V>>,
    pub max_entries: usize,
    pub evictables: Vec<u64>,
}

/// One of the entries has the key.
pub open spec fn holds<V>(entries: Seq<Entry<V>>, key: u64) -> bool {
    exists|i: int| 0 <= i < entries.len() && (#[trigger] entries[i]).key == key
}

/// The place of the entry with the key.
pub open spec fn place<V>(entries: Seq<Entry<V>>, key: u64) -> int {
    choose|i: int| 0 <= i < entries.len() && (#[trigger] entries[i]).key == key
}

/// No key occurs twice.
pub open spec fn distinct<V>(entries: Seq<Entry<V>>) -> bool {
    forall|i: int, j: int|
        0 <= i < j < entries.len() ==> (#[trigger] entries[i]).key != (#[trigger] entries[j]).key
}

/// Every entry of `now` is an entry of `before` with the same value and a
/// use count that is no higher.
pub open spec fn kept_from<V>(now: Seq<Entry<V>>, before: Seq<Entry<V>>) -> bool {
    forall|i: int| 0 <= i < now.len() ==> entry_from(#[trigger] now[i], before)
}

/// `e` is `b` with a use count that is no higher.
pub open spec fn cooled<V>(e: Entry<V>, b: Entry<V>) -> bool {
    b.key == e.key && b.rc == e.rc && e.use_count <= b.use_count
}

/// `e` is one of the entries with a use count that is no higher.
pub open spec fn entry_from<V>(e: Entry<V>, before: Seq<Entry<V>>) -> bool {
    exists|j: int| 0 <= j < before.len() && cooled(e, #[trigger] before[j])
}

/// The entries are kept from themselves.
pub proof fn lemma_kept_from_self<V>(e: Seq<Entry<V>>)
    ensures
        kept_from(e, e),
{
    assert forall|i: int| 0 <= i < e.len() implies entry_from(#[trigger] e[i], e) by {
        assert(cooled(e[i], e[i]));
    }
}

pub proof fn lemma_kept_from_transitive<V>(a: Seq<Entry<V>>, b: Seq<Entry<V>>, c: Seq<Entry<V>>)
    requires
        kept_from(a, b),
        kept_from(b, c),
    ensures
        kept_from(a, c),
{
    assert forall|i: int| 0 <= i < a.len() implies entry_from(#[trigger] a[i], c) by {
        assert(entry_from(a[i], b));
        let m = choose|m: int| 0 <= m < b.len() && cooled(a[i], #[trigger] b[m]);
        assert(entry_from(b[m], c));
        let j = choose|j: int| 0 <= j < c.len() && cooled(b[m], #[trigger] c[j]);
        assert(cooled(a[i], c[j]));
    }
}

/// What is left of a use count after `sweeps` sweeps.
pub open spec fn swept_count(count: usize, sweeps: nat) -> usize {
    if count >= sweeps {
        (count - sweeps) as usize
    } else {
        0
    }
}

/// `e` is `b` after `sweeps` sweeps.
pub open spec fn swept<V>(e: Entry<V>, b: Entry<V>, sweeps: nat) -> bool {
    b.key == e.key && b.rc == e.rc && e.use_count == swept_count(b.use_count, sweeps)
}

/// `e` is one of the entries after `sweeps` sweeps.
pub open spec fn swept_from<V>(e: Entry<V>, before: Seq<Entry<V>>, sweeps: nat) -> bool {
    exists|j: int| 0 <= j < before.len() && swept(e, #[trigger] before[j], sweeps)
}

/// Every entry of `now` is an entry of `before` after `sweeps` sweeps.
pub open spec fn all_swept<V>(now: Seq<Entry<V>>, before: Seq<Entry<V>>, sweeps: nat) -> bool {
    forall|i: int| 0 <= i < now.len() ==> swept_from(#[trigger] now[i], before, sweeps)
}

/// The key was marked for eviction: it was queued before the sweeps, or
/// one of the `sweeps` sweeps found the use count of its entry at zero.
pub open spec fn marked<V>(before: Seq<Entry<V>>, queued: Seq<u64>, key: u64, sweeps: nat) -> bool {
    queued.contains(key) || exists|j: int|
        0 <= j < before.len() && (#[trigger] before[j]).key == key && before[j].use_count < sweeps
}

/// Every entry of `before` that `now` lacks was marked for eviction.
pub open spec fn only_marked_left<V>(
    now: Seq<Entry<V>>,
    before: Seq<Entry<V>>,
    queued: Seq<u64>,
    sweeps: nat,
) -> bool {
    forall|j: int|
        0 <= j < before.len() && !holds(now, (#[trigger] before[j]).key) ==> marked(
            before,
            queued,
            before[j].key,
            sweeps,
        )
}

/// Every one of the keys was marked for eviction.
pub open spec fn all_marked<V>(
    keys: Seq<u64>,
    before: Seq<Entry<V>>,
    queued: Seq<u64>,
    sweeps: nat,
) -> bool {
    forall|m: int| 0 <= m < keys.len() ==> marked(before, queued, #[trigger] keys[m], sweeps)
}

/// Room was made in `sweeps` sweeps: what is left are entries of `before`
/// with their use counts lowered by the sweeps, and an entry left only if
/// it was marked for eviction; or the last sweep was made and the cache
/// was emptied.
pub open spec fn made_room<V>(
    now: Seq<Entry<V>>,
    before: Seq<Entry<V>>,
    queued: Seq<u64>,
    sweeps: nat,
) -> bool {
    &&& sweeps <= MAX_FIND_ATTEMPTS
    &&& {
        ||| now.len() == 0 && sweeps == MAX_FIND_ATTEMPTS
        ||| all_swept(now, before, sweeps) && only_marked_left(now, before, queued, sweeps)
    }
}

/// The keys of the entries whose use count is zero, in order.
pub open spec fn unused_keys<V>(entries: Seq<Entry<V>>) -> Seq<u64>
    decreases entries.len(),
{
    if entries.len() == 0 {
        Seq::empty()
    } else {
        let rest = unused_keys(entries.drop_last());
        if entries.last().use_count == 0 {
            rest.push(entries.last().key)
        } else {
            rest
        }
    }
}

/// Each of the unused keys is the key of an entry whose use count is zero.
pub proof fn lemma_unused_keys<V>(entries: Seq<Entry<V>>, m: int)
    requires
        0 <= m < unused_keys(entries).len(),
    ensures
        exists|j: int|
            0 <= j < entries.len() && (#[trigger] entries[j]).key == unused_keys(entries)[m]
                && entries[j].use_count == 0,
    decreases entries.len(),
{
    let rest = entries.drop_last();
    if m < unused_keys(rest).len() {
        lemma_unused_keys(rest, m);
        let j = choose|j: int|
            0 <= j < rest.len() && (#[trigger] rest[j]).key == unused_keys(rest)[m]
                && rest[j].use_count == 0;
        assert(entries[j].key == unused_keys(entries)[m] && entries[j].use_count == 0);
    } else {
        let j = entries.len() - 1;
        assert(entries[j].key == unused_keys(entries)[m] && entries[j].use_count == 0);
    }
}

/// Before any sweep the entries are themselves, none has left, and the
/// queued keys are marked.
pub proof fn lemma_room_at_start<V>(entries: Seq<Entry<V>>, queued: Seq<u64>)
    ensures
        all_swept(entries, entries, 0),
        only_marked_left(entries, entries, queued, 0),
        all_marked(queued, entries, queued, 0),
{
    assert forall|i: int| 0 <= i < entries.len() implies swept_from(
        #[trigger] entries[i],
        entries,
        0,
    ) by {
        assert(swept(entries[i], entries[i], 0));
    }
    assert forall|m: int| 0 <= m < queued.len() implies marked(
        entries,
        queued,
        #[trigger] queued[m],
        0,
    ) by {
        assert(queued.contains(queued[m]));
    }
}

/// One more sweep: the entries are swept once more, the entries that
/// were unused are marked, and what was marked stays marked.
pub proof fn lemma_swept_once<V>(
    before: Seq<Entry<V>>,
    now: Seq<Entry<V>>,
    first: Seq<Entry<V>>,
    queued: Seq<u64>,
    sweeps: nat,
)
    requires
        all_swept(before, first, sweeps),
        only_marked_left(before, first, queued, sweeps),
        now.len() == before.len(),
        forall|j: int| 0 <= j < before.len() ==> swept(#[trigger] now[j], before[j], 1),
    ensures
        all_swept(now, first, sweeps + 1),
        only_marked_left(now, first, queued, sweeps + 1),
        all_marked(unused_keys(before), first, queued, sweeps + 1),
        kept_from(now, before),
        distinct(before) ==> distinct(now),
{
    assert forall|i: int| 0 <= i < now.len() implies swept_from(
        #[trigger] now[i],
        first,
        sweeps + 1,
    ) by {
        assert(swept(now[i], before[i], 1));
        assert(swept_from(before[i], first, sweeps));
        let j = choose|j: int| 0 <= j < first.len() && swept(before[i], #[trigger] first[j], sweeps);
        assert(swept(now[i], first[j], sweeps + 1));
    }
    assert forall|j: int|
        0 <= j < first.len() && !holds(now, (#[trigger] first[j]).key) implies marked(
        first,
        queued,
        first[j].key,
        sweeps + 1,
    ) by {
        let k = first[j].key;
        if holds(before, k) {
            let p = place(before, k);
            assert(swept(now[p], before[p], 1));
            assert(now[p].key == k);
        }
        assert(marked(first, queued, k, sweeps));
        lemma_marked_on(first, queued, k, sweeps);
    }
    let keys = unused_keys(before);
    assert forall|m: int| 0 <= m < keys.len() implies marked(
        first,
        queued,
        #[trigger] keys[m],
        sweeps + 1,
    ) by {
        lemma_unused_keys(before, m);
        let i = choose|i: int|
            0 <= i < before.len() && (#[trigger] before[i]).key == keys[m] && before[i].use_count
                == 0;
        assert(swept_from(before[i], first, sweeps));
        let j = choose|j: int| 0 <= j < first.len() && swept(before[i], #[trigger] first[j], sweeps);
        assert(first[j].key == keys[m] && first[j].use_count < sweeps + 1);
    }
    assert forall|a: int| 0 <= a < now.len() implies entry_from(#[trigger] now[a], before) by {
        assert(swept(now[a], before[a], 1));
        assert(cooled(now[a], before[a]));
    }
    if distinct(before) {
        assert forall|a: int, b: int| 0 <= a < b < now.len() implies (#[trigger] now[a]).key != (
        #[trigger] now[b]).key by {
            assert(swept(now[a], before[a], 1));
            assert(swept(now[b], before[b], 1));
            assert(before[a].key != before[b].key);
        }
    }
}

/// What was marked stays marked after one more sweep.
pub proof fn lemma_marked_on<V>(before: Seq<Entry<V>>, queued: Seq<u64>, key: u64, sweeps: nat)
    requires
        marked(before, queued, key, sweeps),
    ensures
        marked(before, queued, key, sweeps + 1),
{
    if !queued.contains(key) {
        let j = choose|j: int|
            0 <= j < before.len() && (#[trigger] before[j]).key == key && before[j].use_count
                < sweeps;
        assert(before[j].key == key && before[j].use_count < sweeps + 1);
    }
}

/// An entry that was marked leaves: what is left are still swept entries,
/// and still only marked entries have left.
pub proof fn lemma_marked_leaves<V>(
    before: Seq<Entry<V>>,
    p: int,
    first: Seq<Entry<V>>,
    queued: Seq<u64>,
    sweeps: nat,
)
    requires
        0 <= p < before.len(),
        all_swept(before, first, sweeps),
        only_marked_left(before, first, queued, sweeps),
        marked(first, queued, before[p].key, sweeps),
    ensures
        all_swept(before.remove(p), first, sweeps),
        only_marked_left(before.remove(p), first, queued, sweeps),
{
    let now = before.remove(p);
    assert forall|i: int| 0 <= i < now.len() implies swept_from(
        #[trigger] now[i],
        first,
        sweeps,
    ) by {
        if i < p {
            assert(now[i] == before[i]);
        } else {
            assert(now[i] == before[i + 1]);
        }
    }
    assert forall|j: int|
        0 <= j < first.len() && !holds(now, (#[trigger] first[j]).key) implies marked(
        first,
        queued,
        first[j].key,
        sweeps,
    ) by {
        let k = first[j].key;
        if holds(before, k) {
            let q = place(before, k);
            if q < p {
                assert(now[q].key == k);
            } else if q > p {
                assert(now[q - 1].key == k);
            }
        }
    }
}

/// The entries with `entry` put among them: in the place of the entry
/// that has its key, or after the others where none has it.
pub open spec fn with_entry<V>(entries: Seq<Entry<V>>, entry: Entry<V>) -> Seq<Entry<V>> {
    if holds(entries, entry.key) {
        entries.update(place(entries, entry.key), entry)
    } else {
        entries.push(entry)
    }
}

/// An entry that is put among the others is found under its key, and no
/// key occurs twice.
pub proof fn lemma_with_entry<V>(entries: Seq<Entry<V>>, entry: Entry<V>)
    requires
        distinct(entries),
    ensures
        distinct(with_entry(entries, entry)),
        holds(with_entry(entries, entry), entry.key),
        with_entry(entries, entry)[place(with_entry(entries, entry), entry.key)] == entry,
{
    let now = with_entry(entries, entry);
    let here = if holds(entries, entry.key) {
        place(entries, entry.key)
    } else {
        entries.len() as int
    };
    assert(now[here] == entry);
    assert forall|i: int, j: int| 0 <= i < j < now.len() implies (#[trigger] now[i]).key != (
    #[trigger] now[j]).key by {
        if i != here && j != here {
            assert(entries[i].key != entries[j].key);
        } else if i == here && j < entries.len() {
            assert(entries[j].key == now[j].key);
            assert(entries[i].key != entries[j].key);
        } else if j == here && i < entries.len() {
            assert(entries[i].key == now[i].key);
            if here < entries.len() {
                assert(entries[i].key != entries[j].key);
            }
        }
    }
    lemma_place(now, entry.key, here);
}

/// An entry that is put among the others leaves the entries of the other
/// keys as they were.
pub proof fn lemma_with_entry_others<V>(entries: Seq<Entry<V>>, entry: Entry<V>, k: u64)
    requires
        distinct(entries),
        k != entry.key,
    ensures
        holds(with_entry(entries, entry), k) <==> holds(entries, k),
        holds(entries, k) ==> with_entry(entries, entry)[place(with_entry(entries, entry), k)]
            == entries[place(entries, k)],
{
    let now = with_entry(entries, entry);
    lemma_with_entry(entries, entry);
    if holds(entries, k) {
        let p = place(entries, k);
        assert(now[p] == entries[p]);
        lemma_place(now, k, p);
    }
    if holds(now, k) {
        let p = place(now, k);
        assert(p < entries.len());
        assert(entries[p].key == k);
    }
}

/// An entry that was kept has the value it had.
pub proof fn lemma_kept_value<V>(now: Seq<Entry<V>>, before: Seq<Entry<V>>, k: u64)
    requires
        distinct(before),
        kept_from(now, before),
        holds(now, k),
    ensures
        holds(before, k),
        now[place(now, k)].rc == before[place(before, k)].rc,
{
    let p = place(now, k);
    assert(entry_from(now[p], before));
    let q = choose|q: int| 0 <= q < before.len() && cooled(now[p], #[trigger] before[q]);
    lemma_place(before, k, q);
}

impl<V> Cache<V> {
    /// No key occurs twice.
    pub open spec fn wf(&self) -> bool {
        distinct(self.entries@)
    }

    /// The cache has an entry for the key.
    pub open spec fn contains(&self, key: u64) -> bool {
        holds(self.entries@, key)
    }

    /// The value kept for the key.
    pub open spec fn value(&self, key: u64) -> V {
        *self.entries@[place(self.entries@, key)].rc
    }

    /// The use count of the entry for the key.
    pub open spec fn use_count(&self, key: u64) -> usize {
        self.entries@[place(self.entries@, key)].use_count
    }

    /// A cache that is full once it has `max_entries` entries.
    pub fn new(max_entries: usize) -> (c: Cache<V>)
        ensures
            c.wf(),
            c.max_entries == max_entries,
            c.entries@.len() == 0,
            c.evictables@.len() == 0,
    {
        Cache { entries: Vec::new(), max_entries, evictables: Vec::new() }
    }

    /// The place of the entry for the key, if there is one.
    pub fn find(&self, key: u64) -> (r: Option<usize>)
        requires
            self.wf(),
        ensures
            r is Some <==> self.contains(key),
            r matches Some(i) ==> i < self.entries@.len() && self.entries@[i as int].key == key && i
                == place(self.entries@, key),
    {
        let n = self.entries.len();
        let mut i: usize = 0;
        while i < n
            invariant
                i <= n,
                n == self.entries@.len(),
                self.wf(),
                forall|j: int| 0 <= j < i ==> (#[trigger] self.entries@[j]).key != key,
            decreases n - i,
        {
            if self.entries[i].key == key {
                proof {
                    let p = place(self.entries@, key);
                    assert(self.entries@[i as int].key == key);
                    if p < i {
                        assert(self.entries@[p].key != self.entries@[i as int].key);
                    } else if p > i {
                        assert(self.entries@[i as int].key != self.entries@[p].key);
                    }
                }
                return Some(i);
            }
            i += 1;
        }
        None
    }

    /// Adds a value under the key, with a use count of one, after making
    /// room for it.  A value that was kept under the key is replaced.
    pub fn add(&mut self, key: u64, rc: Rc<V>)
        requires
            old(self).wf(),
        ensures
            final(self).wf(),
            final(self).max_entries == old(self).max_entries,
            final(self).contains(key),
            final(self).value(key) == *rc,
            final(self).use_count(key) == 1,
            final(self).entries@.len() <= old(self).max_entries || final(self).entries@.len()
                == 1,
            forall|k: u64|
                k != key && final(self).contains(k) ==> old(self).contains(k) && final(self).value(
                    k,
                ) == old(self).value(k),
            old(self).entries@.len() < old(self).max_entries ==> forall|k: u64|
                old(self).contains(k) ==> final(self).contains(k),
    {
        self.check_capacity();
        let ghost mid = self.entries@;
        let entry = Entry { key, use_count: 1, rc };
        match self.find(key) {
            Some(i) => {
                self.entries[i] = entry;
            },
            None => {
                self.entries.push(entry);
            },
        }
        proof {
            assert(self.entries@ =~= with_entry(mid, entry));
            lemma_with_entry(mid, entry);
            assert forall|k: u64| k != key && self.contains(k) implies old(self).contains(k)
                && self.value(k) == old(self).value(k) by {
                lemma_with_entry_others(mid, entry, k);
                lemma_kept_value(mid, old(self).entries@, k);
            }
            if old(self).entries@.len() < old(self).max_entries {
                assert forall|k: u64| old(self).contains(k) implies self.contains(k) by {
                    if k != key {
                        lemma_with_entry_others(mid, entry, k);
                    }
                }
            }
        }
    }

    /// A handle to the value kept for the key, if there is one.  The use
    /// count of the entry goes up by one, as far as it can be counted.
    pub fn get(&mut self, key: &u64) -> (r: Option<Rc<V>>)
        requires
            old(self).wf(),
        ensures
            final(self).wf(),
            final(self).max_entries == old(self).max_entries,
            final(self).evictables == old(self).evictables,
            final(self).entries@.len() == old(self).entries@.len(),
            r is Some <==> old(self).contains(*key),
            r matches Some(handle) ==> *handle == old(self).value(*key),
            forall|k: u64| final(self).contains(k) <==> old(self).contains(k),
            forall|k: u64| old(self).contains(k) ==> final(self).value(k) == old(self).value(k),
            forall|k: u64|
                old(self).contains(k) ==> final(self).use_count(k) == (if k == *key && old(
                    self,
                ).use_count(k) < usize::MAX {
                    (old(self).use_count(k) + 1) as usize
                } else {
                    old(self).use_count(k)
                }),
    {
        match self.find(*key) {
            None => None,
            Some(i) => {
                let count = self.entries[i].use_count;
                if count < usize::MAX {
                    self.entries[i].use_count = count + 1;
                }
                let handle = share(&self.entries[i].rc);
                proof {
                    let before = old(self).entries@;
                    let now = self.entries@;
                    assert forall|j: int| 0 <= j < now.len() implies (#[trigger] now[j]).key
                        == before[j].key && now[j].rc == before[j].rc by {}
                    assert forall|k: u64| self.contains(k) <==> old(self).contains(k) by {
                        if self.contains(k) {
                            let p = place(now, k);
                            assert(before[p].key == k);
                        }
                        if old(self).contains(k) {
                            let p = place(before, k);
                            assert(now[p].key == k);
                        }
                    }
                    assert forall|k: u64| old(self).contains(k) implies self.value(k) == old(
                        self,
                    ).value(k) && self.use_count(k) == (if k == *key && old(self).use_count(k)
                        < usize::MAX {
                        (old(self).use_count(k) + 1) as usize
                    } else {
                        old(self).use_count(k)
                    }) by {
                        let p = place(before, k);
                        assert(now[p].key == k);
                        lemma_place(now, k, p);
                    }
                }
                Some(handle)
            },
        }
    }

    /// Evicts the entry for the key, if there is one and nobody holds its
    /// value.  The result says whether the entry was evicted.
    pub fn evict(&mut self, key: &u64) -> (r: bool)
        requires
            old(self).wf(),
        ensures
            final(self).wf(),
            final(self).max_entries == old(self).max_entries,
            final(self).evictables == old(self).evictables,
            !old(self).contains(*key) ==> !r,
            !r ==> final(self).entries == old(self).entries,
            r ==> final(self).entries@ == old(self).entries@.remove(
                place(old(self).entries@, *key),
            ),
            r ==> !final(self).contains(*key),
            kept_from(final(self).entries@, old(self).entries@),
    {
        proof {
            lemma_kept_from_self(self.entries@);
        }
        match self.find(*key) {
            None => false,
            Some(i) => {
                let count = holders(&self.entries[i].rc);
                self.evict_unless_held(key, count)
            },
        }
    }

    /// Evicts the entry for the key, given the number of handles to its
    /// value that are alive, the one in the cache among them: the entry
    /// goes if there is one and the cache holds the only handle, and the
    /// cache stays as it is otherwise.  The result says whether the entry
    /// was evicted.
    pub fn evict_unless_held(&mut self, key: &u64, holders: usize) -> (r: bool)
        requires
            old(self).wf(),
        ensures
            final(self).wf(),
            final(self).max_entries == old(self).max_entries,
            final(self).evictables == old(self).evictables,
            r == (old(self).contains(*key) && holders <= 1),
            !r ==> final(self).entries == old(self).entries,
            r ==> final(self).entries@ == old(self).entries@.remove(
                place(old(self).entries@, *key),
            ),
            r ==> !final(self).contains(*key),
            kept_from(final(self).entries@, old(self).entries@),
    {
        proof {
            lemma_kept_from_self(self.entries@);
        }
        match self.find(*key) {
            None => false,
            Some(i) => {
                if holders > 1 {
                    return false;
                }
                let ghost before = self.entries@;
                self.entries.remove(i);
                proof {
                    let now = self.entries@;
                    assert forall|a: int, b: int| 0 <= a < b < now.len() implies (
                    #[trigger] now[a]).key != (#[trigger] now[b]).key by {
                        let a0 = if a < i {
                            a
                        } else {
                            a + 1
                        };
                        let b0 = if b < i {
                            b
                        } else {
                            b + 1
                        };
                        assert(before[a0].key != before[b0].key);
                    }
                    if self.contains(*key) {
                        let p = place(now, *key);
                        let p0 = if p < i {
                            p
                        } else {
                            p + 1
                        };
                        assert(before[p0].key == *key);
                        if p0 < i {
                            assert(before[p0].key != before[i as int].key);
                        } else {
                            assert(before[i as int].key != before[p0].key);
                        }
                    }
                    assert forall|a: int| 0 <= a < now.len() implies entry_from(
                        #[trigger] now[a],
                        before,
                    ) by {
                        let a0 = if a < i {
                            a
                        } else {
                            a + 1
                        };
                        assert(cooled(now[a], before[a0]));
                    }
                }
                true
            },
        }
    }

    /// One sweep: every use count goes down by one, and the key of every
    /// entry whose use count was zero already is queued for eviction, in
    /// the order of the entries.
    pub fn sweep(&mut self)
        ensures
            final(self).max_entries == old(self).max_entries,
            final(self).entries@.len() == old(self).entries@.len(),
            forall|j: int|
                0 <= j < old(self).entries@.len() ==> swept(
                    #[trigger] final(self).entries@[j],
                    old(self).entries@[j],
                    1,
                ),
            final(self).evictables@ == old(self).evictables@ + unused_keys(old(self).entries@),
    {
        let ghost before = self.entries@;
        let ghost queued = self.evictables@;
        let n = self.entries.len();
        let mut i: usize = 0;
        proof {
            assert(before.take(0) =~= Seq::<Entry<V>>::empty());
            assert(queued + unused_keys(before.take(0)) =~= queued);
        }
        while i < n
            invariant
                i <= n,
                n == self.entries@.len(),
                n == before.len(),
                self.max_entries == old(self).max_entries,
                forall|j: int| 0 <= j < i ==> swept(#[trigger] self.entries@[j], before[j], 1),
                forall|j: int| i <= j < n ==> (#[trigger] self.entries@[j]) == before[j],
                self.evictables@ == queued + unused_keys(before.take(i as int)),
            decreases n - i,
        {
            proof {
                assert(before.take(i + 1).drop_last() =~= before.take(i as int));
                assert(before.take(i + 1).last() == before[i as int]);
            }
            let ghost keys = unused_keys(before.take(i as int));
            let count = self.entries[i].use_count;
            if count == 0 {
                let key = self.entries[i].key;
                self.evictables.push(key);
                assert(self.evictables@ =~= queued + keys.push(key));
            } else {
                self.entries[i].use_count = count - 1;
            }
            i += 1;
        }
        proof {
            assert(before.take(n as int) =~= before);
        }
    }

    /// Makes room for one more entry.  A cache that is not full stays as
    /// it is.  A full cache sweeps when it has no key queued for eviction,
    /// and evicts the entries of the queued keys, unless somebody holds
    /// their values, until it is no longer full; if it is still full after
    /// `MAX_FIND_ATTEMPTS` sweeps, it is emptied.
    ///
    /// So an entry leaves only if it was marked for eviction, or with all
    /// the others when the cache is emptied; `evict_unless_held` says which
    /// of the marked entries leave.  No more entries leave than must: a
    /// cache that was full and is not emptied is one entry short of full.
    /// The entries that stay have their use counts lowered by the sweeps.
    pub fn check_capacity(&mut self)
        requires
            old(self).wf(),
        ensures
            final(self).wf(),
            final(self).max_entries == old(self).max_entries,
            old(self).entries@.len() < old(self).max_entries ==> *final(self) == *old(self),
            final(self).entries@.len() < final(self).max_entries || final(self).entries@.len()
                == 0,
            old(self).entries@.len() >= old(self).max_entries ==> final(self).entries@.len() + 1
                == old(self).max_entries || final(self).entries@.len() == 0,
            kept_from(final(self).entries@, old(self).entries@),
            exists|sweeps: nat| #[trigger]
                made_room(
                    final(self).entries@,
                    old(self).entries@,
                    old(self).evictables@,
                    sweeps,
                ),
    {
        let ghost first = self.entries@;
        let ghost queued = self.evictables@;
        let mut find_attempts: usize = 0;
        proof {
            lemma_kept_from_self(first);
            lemma_room_at_start(first, queued);
        }
        while self.entries.len() >= self.max_entries
            invariant
                self.wf(),
                self.max_entries == old(self).max_entries,
                first == old(self).entries@,
                queued == old(self).evictables@,
                find_attempts <= MAX_FIND_ATTEMPTS,
                old(self).entries@.len() < old(self).max_entries ==> *self == *old(self),
                old(self).entries@.len() >= old(self).max_entries ==> self.entries@.len() + 1
                    >= self.max_entries,
                kept_from(self.entries@, first),
                all_swept(self.entries@, first, find_attempts as nat),
                only_marked_left(self.entries@, first, queued, find_attempts as nat),
                all_marked(self.evictables@, first, queued, find_attempts as nat),
            decreases MAX_FIND_ATTEMPTS - find_attempts, self.evictables@.len(),
        {
            // Without a key to try, sweep for some.
            if self.evictables.len() == 0 {
                // Where every value is held, no sweep finds an entry that
                // can leave: after the last one the cache is emptied.
                if find_attempts >= MAX_FIND_ATTEMPTS {
                    self.entries.clear();
                    assert(made_room(self.entries@, first, queued, find_attempts as nat));
                    return ;
                }
                let ghost before = self.entries@;
                self.sweep();
                proof {
                    lemma_swept_once(before, self.entries@, first, queued, find_attempts as nat);
                    lemma_kept_from_transitive(self.entries@, before, first);
                    assert(self.evictables@ =~= unused_keys(before));
                }
                find_attempts += 1;
            }
            // Try the key that was queued last.
            let ghost before = self.entries@;
            let ghost keys = self.evictables@;
            match self.evictables.pop() {
                Some(key) => {
                    assert(key == keys[keys.len() - 1]);
                    assert(marked(first, queued, key, find_attempts as nat));
                    let gone = self.evict(&key);
                    proof {
                        lemma_kept_from_transitive(self.entries@, before, first);
                        if gone {
                            lemma_marked_leaves(
                                before,
                                place(before, key),
                                first,
                                queued,
                                find_attempts as nat,
                            );
                        }
                        assert forall|m: int| 0 <= m < self.evictables@.len() implies marked(
                            first,
                            queued,
                            #[trigger] self.evictables@[m],
                            find_attempts as nat,
                        ) by {
                            assert(self.evictables@[m] == keys[m]);
                        }
                    }
                },
                None => {},
            }
        }
        assert(made_room(self.entries@, first, queued, find_attempts as nat));
    }
}

/// In a vector without a key twice, the place of a key is where it is
/// found.
pub proof fn lemma_place<V>(entries: Seq<Entry<V>>, key: u64, p: int)
    requires
        distinct(entries),
        0 <= p < entries.len(),
        entries[p].key == key,
    ensures
        holds(entries, key),
        place(entries, key) == p,
{
    let q = place(entries, key);
    if q < p {
        assert(entries[q].key != entries[p].key);
    } else if p < q {
        assert(entries[p].key != entries[q].key);
    }
}

} // verus!
