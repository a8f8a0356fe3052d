//! The in-memory layer: quick, and gone with the process.
use crate::error::Error as Kind;
use crate::layer::order::sort_descending;
use crate::layer::{
    descending, key_equal, key_views, lemma_lex_total, lex_less, live_keys, pair_keys, Error,
    Layer, Records, Value,
};
use vstd::prelude::*;
use vstd::string::*;

verus! {

/// The name of the in-memory layer.
pub const NAME: &'static str = "mem";

/// One key with its record.
pub struct Entry {
    /// The key.
    pub key: Vec<u8>,
    /// The record stored under the key.
    pub value: Value,
}

/// No key occurs twice among `entries`.
pub open spec fn distinct_keys(entries: Seq<Entry>) -> bool {
    forall|i: int, j: int| 0 <= i < j < entries.len() ==> entries[i].key@ != entries[j].key@
}

/// Some entry among the first `n` has the key `k`.
pub open spec fn holds(entries: Seq<Entry>, n: int, k: Seq<u8>) -> bool {
    exists|i: int| 0 <= i < n && #[trigger] entries[i].key@ == k
}

/// An entry that has the key `k`.
pub open spec fn place(entries: Seq<Entry>, k: Seq<u8>) -> int {
    choose|i: int| 0 <= i < entries.len() && #[trigger] entries[i].key@ == k
}

/// The map that a run of entries stands for.
pub open spec fn records_of(entries: Seq<Entry>) -> Records {
    Map::new(
        |k: Seq<u8>| holds(entries, entries.len() as int, k),
        |k: Seq<u8>| entries[place(entries, k)].value@,
    )
}

/// The number of live records among the first `n` entries.
pub open spec fn live_entries(entries: Seq<Entry>, n: int) -> nat
    decreases n,
{
    if n <= 0 {
        0
    } else if entries[n - 1].value.deleted {
        live_entries(entries, n - 1)
    } else {
        live_entries(entries, n - 1) + 1
    }
}

proof fn lemma_lookup(entries: Seq<Entry>, i: int)
    requires
        distinct_keys(entries),
        0 <= i < entries.len(),
    ensures
        records_of(entries).dom().contains(entries[i].key@),
        records_of(entries)[entries[i].key@] == entries[i].value@,
        place(entries, entries[i].key@) == i,
{
    let k = entries[i].key@;
    assert(holds(entries, entries.len() as int, k));
    let j = place(entries, k);
    if j < i {
        assert(entries[j].key@ != entries[i].key@);
    } else if i < j {
        assert(entries[i].key@ != entries[j].key@);
    }
}

proof fn lemma_push(entries: Seq<Entry>, e: Entry)
    requires
        distinct_keys(entries),
        !holds(entries, entries.len() as int, e.key@),
    ensures
        distinct_keys(entries.push(e)),
        records_of(entries.push(e)) == records_of(entries).insert(e.key@, e.value@),
{
    let after = entries.push(e);
    assert forall|i: int, j: int| 0 <= i < j < after.len() implies after[i].key@
        != after[j].key@ by {
        if j == entries.len() {
            assert(entries[i].key@ != e.key@);
        }
    }
    let want = records_of(entries).insert(e.key@, e.value@);
    assert forall|k: Seq<u8>| records_of(after).dom().contains(k) <==> want.dom().contains(
        k,
    ) by {
        if holds(after, after.len() as int, k) {
            let i = choose|i: int| 0 <= i < after.len() && #[trigger] after[i].key@ == k;
            if i < entries.len() {
                assert(entries[i].key@ == k);
            }
        }
        if holds(entries, entries.len() as int, k) {
            let i = choose|i: int| 0 <= i < entries.len() && #[trigger] entries[i].key@ == k;
            assert(after[i].key@ == k);
        }
        if k == e.key@ {
            assert(after[entries.len() as int].key@ == k);
        }
    }
    assert forall|k: Seq<u8>| want.dom().contains(k) implies records_of(after)[k] == want[k] by {
        let i = place(after, k);
        lemma_lookup(after, i);
        if i < entries.len() {
            lemma_lookup(entries, i);
        }
    }
    assert(records_of(after) =~= want);
}

proof fn lemma_update(entries: Seq<Entry>, i: int, e: Entry)
    requires
        distinct_keys(entries),
        0 <= i < entries.len(),
        e.key@ == entries[i].key@,
    ensures
        distinct_keys(entries.update(i, e)),
        records_of(entries.update(i, e)) == records_of(entries).insert(e.key@, e.value@),
{
    let after = entries.update(i, e);
    assert forall|a: int, b: int| 0 <= a < b < after.len() implies after[a].key@
        != after[b].key@ by {
        assert(entries[a].key@ != entries[b].key@);
    }
    let want = records_of(entries).insert(e.key@, e.value@);
    assert forall|k: Seq<u8>| records_of(after).dom().contains(k) <==> want.dom().contains(
        k,
    ) by {
        if holds(after, after.len() as int, k) {
            let j = choose|j: int| 0 <= j < after.len() && #[trigger] after[j].key@ == k;
            assert(entries[j].key@ == k);
        }
        if holds(entries, entries.len() as int, k) {
            let j = choose|j: int| 0 <= j < entries.len() && #[trigger] entries[j].key@ == k;
            assert(after[j].key@ == k);
        }
        if k == e.key@ {
            assert(after[i].key@ == k);
        }
    }
    assert forall|k: Seq<u8>| want.dom().contains(k) implies records_of(after)[k] == want[k] by {
        let j = place(after, k);
        lemma_lookup(after, j);
        if j != i {
            assert(entries[j].key@ == k);
            lemma_lookup(entries, j);
        }
    }
    assert(records_of(after) =~= want);
}

/// The keys of the first `n` entries.
pub open spec fn keys_upto(entries: Seq<Entry>, n: int) -> Set<Seq<u8>> {
    Set::new(|k: Seq<u8>| holds(entries, n, k))
}

/// The keys of the live records among the first `n` entries.
pub open spec fn live_upto(entries: Seq<Entry>, n: int) -> Set<Seq<u8>> {
    Set::new(
        |k: Seq<u8>|
            exists|i: int| 0 <= i < n && #[trigger] entries[i].key@ == k && !entries[i].value.deleted,
    )
}

proof fn lemma_sizes(entries: Seq<Entry>, n: int)
    requires
        distinct_keys(entries),
        0 <= n <= entries.len(),
    ensures
        keys_upto(entries, n).finite(),
        keys_upto(entries, n).len() == n,
        live_upto(entries, n).finite(),
        live_upto(entries, n).len() == live_entries(entries, n),
        live_entries(entries, n) <= n,
    decreases n,
{
    if n == 0 {
        assert(keys_upto(entries, 0) =~= Set::<Seq<u8>>::empty());
        assert(live_upto(entries, 0) =~= Set::<Seq<u8>>::empty());
    } else {
        lemma_sizes(entries, n - 1);
        let k = entries[n - 1].key@;
        assert(!keys_upto(entries, n - 1).contains(k)) by {
            if holds(entries, n - 1, k) {
                let i = choose|i: int| 0 <= i < n - 1 && #[trigger] entries[i].key@ == k;
                assert(entries[i].key@ != entries[n - 1].key@);
            }
        }
        assert(keys_upto(entries, n) =~= keys_upto(entries, n - 1).insert(k)) by {
            assert forall|x: Seq<u8>| keys_upto(entries, n).contains(x) <==> keys_upto(
                entries,
                n - 1,
            ).insert(k).contains(x) by {
                if holds(entries, n, x) {
                    let i = choose|i: int| 0 <= i < n && #[trigger] entries[i].key@ == x;
                    if i < n - 1 {
                        assert(holds(entries, n - 1, x));
                    }
                }
                if holds(entries, n - 1, x) {
                    let i = choose|i: int| 0 <= i < n - 1 && #[trigger] entries[i].key@ == x;
                    assert(entries[i].key@ == x);
                }
                if x == k {
                    assert(entries[n - 1].key@ == k);
                }
            }
        }
        let before = live_upto(entries, n - 1);
        if entries[n - 1].value.deleted {
            assert(live_upto(entries, n) =~= before) by {
                assert forall|x: Seq<u8>| live_upto(entries, n).contains(x) <==> before.contains(
                    x,
                ) by {
                    if live_upto(entries, n).contains(x) {
                        let i = choose|i: int|
                            0 <= i < n && #[trigger] entries[i].key@ == x
                                && !entries[i].value.deleted;
                        assert(i < n - 1);
                    }
                    if before.contains(x) {
                        let i = choose|i: int|
                            0 <= i < n - 1 && #[trigger] entries[i].key@ == x
                                && !entries[i].value.deleted;
                        assert(entries[i].key@ == x);
                    }
                }
            }
        } else {
            assert(!before.contains(k)) by {
                if before.contains(k) {
                    let i = choose|i: int|
                        0 <= i < n - 1 && #[trigger] entries[i].key@ == k
                            && !entries[i].value.deleted;
                    assert(entries[i].key@ != entries[n - 1].key@);
                }
            }
            assert(live_upto(entries, n) =~= before.insert(k)) by {
                assert forall|x: Seq<u8>| live_upto(entries, n).contains(x) <==> before.insert(
                    k,
                ).contains(x) by {
                    if live_upto(entries, n).contains(x) {
                        let i = choose|i: int|
                            0 <= i < n && #[trigger] entries[i].key@ == x
                                && !entries[i].value.deleted;
                        if i < n - 1 {
                            assert(before.contains(x));
                        }
                    }
                    if before.contains(x) {
                        let i = choose|i: int|
                            0 <= i < n - 1 && #[trigger] entries[i].key@ == x
                                && !entries[i].value.deleted;
                        assert(entries[i].key@ == x);
                    }
                    if x == k {
                        assert(entries[n - 1].key@ == k);
                    }
                }
            }
        }
    }
}

proof fn lemma_counts(entries: Seq<Entry>)
    requires
        distinct_keys(entries),
    ensures
        records_of(entries).dom().finite(),
        records_of(entries).dom().len() == entries.len(),
        live_keys(records_of(entries)).finite(),
        live_keys(records_of(entries)).len() == live_entries(entries, entries.len() as int),
{
    let n = entries.len() as int;
    lemma_sizes(entries, n);
    assert(records_of(entries).dom() =~= keys_upto(entries, n));
    assert(live_keys(records_of(entries)) =~= live_upto(entries, n)) by {
        assert forall|x: Seq<u8>| live_keys(records_of(entries)).contains(x) <==> live_upto(
            entries,
            n,
        ).contains(x) by {
            if live_keys(records_of(entries)).contains(x) {
                let i = place(entries, x);
                lemma_lookup(entries, i);
                assert(entries[i].key@ == x && !entries[i].value.deleted);
            }
            if live_upto(entries, n).contains(x) {
                let i = choose|i: int|
                    0 <= i < n && #[trigger] entries[i].key@ == x && !entries[i].value.deleted;
                lemma_lookup(entries, i);
            }
        }
    }
}

/// The place of `key` among `entries`, if an entry has it.
pub(crate) fn find_entry(entries: &Vec<Entry>, key: &Vec<u8>) -> (at: Option<usize>)
    requires
        distinct_keys(entries@),
    ensures
        match at {
            Some(i) => i < entries.len() && entries@[i as int].key@ == key@ && records_of(
                entries@,
            ).dom().contains(key@) && records_of(entries@)[key@] == entries@[i as int].value@,
            None => !records_of(entries@).dom().contains(key@),
        },
{
    let mut i: usize = 0;
    while i < entries.len()
        invariant
            i <= entries.len(),
            distinct_keys(entries@),
            !holds(entries@, i as int, key@),
        decreases entries.len() - i,
    {
        if key_equal(&entries[i].key, key) {
            proof {
                lemma_lookup(entries@, i as int);
            }
            return Some(i);
        }
        i = i + 1;
    }
    None
}

/// Stores `value` under `key`, in place of the record the key had, if any.
pub(crate) fn put_entry(entries: &mut Vec<Entry>, key: &Vec<u8>, value: Value)
    requires
        distinct_keys(old(entries)@),
    ensures
        distinct_keys(final(entries)@),
        records_of(final(entries)@) == records_of(old(entries)@).insert(key@, value@),
{
    let entry = Entry { key: key.clone(), value };
    match find_entry(entries, key) {
        Some(i) => {
            proof {
                lemma_update(entries@, i as int, entry);
            }
            entries.set(i, entry);
        },
        None => {
            proof {
                lemma_push(entries@, entry);
            }
            entries.push(entry);
        },
    }
}

/// The in-memory layer. It holds each key once, with its record.
pub struct MemoryLayer {
    mem: Vec<Entry>,
}

impl Layer for MemoryLayer {
    closed spec fn view(&self) -> Records {
        records_of(self.mem@)
    }

    closed spec fn inv(&self) -> bool {
        distinct_keys(self.mem@)
    }

    open spec fn reliable(&self) -> bool {
        true
    }

    open spec fn spec_name(&self) -> Seq<char> {
        NAME@
    }

    proof fn lemma_finite(&self) {
        lemma_counts(self.mem@);
    }

    fn new() -> (layer: Self) {
        let layer = MemoryLayer { mem: Vec::new() };
        assert(layer@ =~= Records::empty());
        layer
    }

    fn name(&self) -> (name: &'static str) {
        NAME
    }

    /// There is nothing to open behind an in-memory layer.
    fn open(&self, uri: &str) -> (res: Result<Self, Error>)
        ensures
            (res matches Err(e) && e.kind == Kind::Unsupported && e.msg@ == "["@ + NAME@
                + "] not support open"@),
    {
        let msg = String::from_str("[").concat(self.name()).concat("] not support open");
        Err(Error::of(Kind::Unsupported, msg))
    }

    fn set(&mut self, key: &Vec<u8>, value: &Vec<u8>) -> (res: Result<(), Error>) {
        put_entry(&mut self.mem, key, Value::new(value));
        Ok(())
    }

    fn get(&self, key: &Vec<u8>) -> (res: Result<Option<Value>, Error>) {
        match find_entry(&self.mem, key) {
            Some(i) => {
                let held = &self.mem[i].value;
                Ok(Some(Value { value: held.value.clone(), deleted: held.deleted }))
            },
            None => Ok(None),
        }
    }

    fn del(&mut self, key: &Vec<u8>) -> (res: Result<bool, Error>) {
        match find_entry(&self.mem, key) {
            Some(i) => {
                if self.mem[i].value.deleted {
                    Ok(false)
                } else {
                    let ghost entry = Entry {
                        key: self.mem@[i as int].key,
                        value: Value { value: self.mem@[i as int].value.value, deleted: true },
                    };
                    proof {
                        lemma_update(self.mem@, i as int, entry);
                    }
                    self.mem[i].value.deleted = true;
                    assert(self.mem@ =~= old(self).mem@.update(i as int, entry));
                    Ok(true)
                }
            },
            None => Ok(false),
        }
    }

    fn erase(&mut self) -> (res: Result<(), Error>) {
        self.mem.clear();
        assert(self@ =~= Records::empty());
        Ok(())
    }

    fn count(&self) -> (n: u64) {
        let mut count: u64 = 0;
        let mut i: usize = 0;
        proof {
            lemma_counts(self.mem@);
        }
        while i < self.mem.len()
            invariant
                i <= self.mem.len(),
                distinct_keys(self.mem@),
                count == live_entries(self.mem@, i as int),
                count <= i,
            decreases self.mem.len() - i,
        {
            if !self.mem[i].value.deleted {
                count = count + 1;
            }
            i = i + 1;
        }
        count
    }

    fn capacity(&self) -> (n: u64) {
        proof {
            lemma_counts(self.mem@);
        }
        self.mem.len() as u64
    }

    fn keys(&self, include_deleted: bool) -> (keys: Vec<Vec<u8>>) {
        let mut picked: Vec<Vec<u8>> = Vec::new();
        let mut i: usize = 0;
        while i < self.mem.len()
            invariant
                i <= self.mem.len(),
                distinct_keys(self.mem@),
                key_views(picked@).no_duplicates(),
                forall|k: Seq<u8>|
                    key_views(picked@).contains(k) <==> exists|j: int|
                        0 <= j < i && #[trigger] self.mem@[j].key@ == k && (include_deleted
                            || !self.mem@[j].value.deleted),
            decreases self.mem.len() - i,
        {
            let ghost before = key_views(picked@);
            if include_deleted || !self.mem[i].value.deleted {
                let key = self.mem[i].key.clone();
                assert(key@ == self.mem@[i as int].key@);
                picked.push(key);
                proof {
                    let k = self.mem@[i as int].key@;
                    assert(key_views(picked@) =~= before.push(k));
                    assert(!before.contains(k)) by {
                        if before.contains(k) {
                            let j = choose|j: int|
                                0 <= j < i && #[trigger] self.mem@[j].key@ == k;
                            assert(self.mem@[j].key@ != self.mem@[i as int].key@);
                        }
                    }
                    assert forall|x: Seq<u8>|
                        key_views(picked@).contains(x) <==> exists|j: int|
                            0 <= j < i + 1 && #[trigger] self.mem@[j].key@ == x && (include_deleted
                                || !self.mem@[j].value.deleted) by {
                        if key_views(picked@).contains(x) {
                            let a = choose|a: int|
                                0 <= a < key_views(picked@).len() && key_views(picked@)[a] == x;
                            if a < before.len() {
                                assert(before[a] == x);
                                assert(before.contains(x));
                            } else {
                                assert(self.mem@[i as int].key@ == x);
                            }
                        }
                        if before.contains(x) {
                            let a = choose|a: int| 0 <= a < before.len() && before[a] == x;
                            assert(key_views(picked@)[a] == x);
                        }
                        if x == k {
                            assert(key_views(picked@)[before.len() as int] == x);
                        }
                    }
                }
            } else {
                proof {
                    assert forall|x: Seq<u8>|
                        key_views(picked@).contains(x) <==> exists|j: int|
                            0 <= j < i + 1 && #[trigger] self.mem@[j].key@ == x && (include_deleted
                                || !self.mem@[j].value.deleted) by {
                        if key_views(picked@).contains(x) {
                            let j = choose|j: int|
                                0 <= j < i && #[trigger] self.mem@[j].key@ == x && (include_deleted
                                    || !self.mem@[j].value.deleted);
                            assert(self.mem@[j].key@ == x);
                        }
                    }
                }
            }
            i = i + 1;
        }
        let ghost unsorted = key_views(picked@);
        let keys = sort_descending(picked);
        proof {
            lemma_sorted_keys(unsorted, key_views(keys@));
            assert forall|k: Seq<u8>|
                key_views(keys@).contains(k) <==> self@.dom().contains(k) && (include_deleted
                    || !self@[k].deleted) by {
                if unsorted.contains(k) {
                    let j = choose|j: int|
                        0 <= j < self.mem.len() && #[trigger] self.mem@[j].key@ == k
                            && (include_deleted || !self.mem@[j].value.deleted);
                    lemma_lookup(self.mem@, j);
                }
                if self@.dom().contains(k) {
                    let j = place(self.mem@, k);
                    lemma_lookup(self.mem@, j);
                    assert(self.mem@[j].key@ == k);
                }
            }
        }
        keys
    }

    fn pairs(&self) -> (pairs: Vec<(Vec<u8>, Value)>) {
        let keys = self.keys(true);
        let mut pairs: Vec<(Vec<u8>, Value)> = Vec::new();
        let mut i: usize = 0;
        while i < keys.len()
            invariant
                i <= keys.len(),
                self.inv(),
                pairs.len() == i,
                forall|k: Seq<u8>| key_views(keys@).contains(k) <==> self@.dom().contains(k),
                forall|j: int| 0 <= j < i ==> (#[trigger] pairs@[j]).0@ == key_views(keys@)[j],
                forall|j: int|
                    0 <= j < i ==> self@.dom().contains(#[trigger] pairs[j].0@) && self@[pairs[j].0@]
                        == pairs[j].1@,
            decreases keys.len() - i,
        {
            assert(key_views(keys@)[i as int] == keys@[i as int]@);
            assert(key_views(keys@).contains(keys@[i as int]@));
            assert(self@.dom().contains(keys@[i as int]@));
            match find_entry(&self.mem, &keys[i]) {
                Some(at) => {
                    let held = &self.mem[at].value;
                    let value = Value { value: held.value.clone(), deleted: held.deleted };
                    pairs.push((keys[i].clone(), value));
                },
                None => {
                    assert(false);
                },
            }
            i = i + 1;
        }
        proof {
            assert(pair_keys(pairs@) =~= key_views(keys@));
            assert forall|k: Seq<u8>| self@.dom().contains(k) implies exists|j: int|
                0 <= j < pairs.len() && #[trigger] pairs[j].0@ == k by {
                assert(key_views(keys@).contains(k));
                let j = choose|j: int| 0 <= j < key_views(keys@).len() && key_views(keys@)[j] == k;
                assert(pairs@[j].0@ == k);
            }
        }
        pairs
    }
}

/// A rearrangement of keys that differ, with no key before a larger one, runs
/// in strictly descending order and holds the same keys.
proof fn lemma_sorted_keys(before: Seq<Seq<u8>>, after: Seq<Seq<u8>>)
    requires
        before.no_duplicates(),
        after.to_multiset() == before.to_multiset(),
        forall|i: int, j: int|
            0 <= i < j < after.len() ==> !lex_less(#[trigger] after[i], #[trigger] after[j]),
    ensures
        descending(after),
        forall|k: Seq<u8>| after.contains(k) <==> before.contains(k),
{
    broadcast use vstd::seq_lib::group_to_multiset_ensures;

    before.lemma_multiset_has_no_duplicates();
    after.lemma_multiset_has_no_duplicates_conv();
    assert forall|i: int, j: int| 0 <= i < j < after.len() implies lex_less(
        after[j],
        after[i],
    ) by {
        lemma_lex_total(after[i], after[j]);
    }
    assert forall|k: Seq<u8>| after.contains(k) <==> before.contains(k) by {
        vstd::seq_lib::to_multiset_contains(after, k);
        vstd::seq_lib::to_multiset_contains(before, k);
    }
}

} // verus!
