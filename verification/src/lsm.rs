//! The log-structured merge engine: a stack of layers, newest on top.
use crate::error::Error as Kind;
use crate::layer::{
    copy_records, flush, kind_of, live_keys, new, registered, tombstone, unknown_message, AnyLayer, Error,
    Layer, Record, Records,
};
use vstd::prelude::*;
use vstd::string::*;

verus! {

/// One layer of the stack as the contracts see it.
pub struct Slot {
    /// The records of the layer.
    pub records: Records,
    /// The number of live records at which the layer spills; 0 for never.
    pub threshold: u64,
    /// The name of the layer's kind.
    pub kind: Seq<char>,
}

/// A layer with the number of live records at which it spills; 0 for never.
pub struct LayerConfig {
    /// The layer.
    pub layer: AnyLayer,
    /// The spill threshold.
    pub threshold: u64,
}

impl View for LayerConfig {
    type V = Slot;

    open spec fn view(&self) -> Slot {
        Slot { records: self.layer@, threshold: self.threshold, kind: self.layer.spec_name() }
    }
}

/// A slot of the given kind and threshold without records.
pub open spec fn empty_slot(threshold: u64, kind: Seq<char>) -> Slot {
    Slot { records: Records::empty(), threshold, kind }
}

/// The number of live records in a slot.
pub open spec fn live(slot: Slot) -> nat {
    live_keys(slot.records).len()
}

/// Whether a slot has reached its threshold.
pub open spec fn full(slot: Slot) -> bool {
    slot.threshold != 0 && live(slot) >= slot.threshold
}

/// What a reader gets for `key` from the layers at depth `from` and below:
/// the topmost record decides, and a tombstone means absent.
pub open spec fn lookup_from(stack: Seq<Slot>, from: int, key: Seq<u8>) -> Option<Seq<u8>>
    decreases stack.len() - from,
{
    if from < 0 || from >= stack.len() {
        None
    } else if stack[from].records.dom().contains(key) {
        if stack[from].records[key].deleted {
            None
        } else {
            Some(stack[from].records[key].payload)
        }
    } else {
        lookup_from(stack, from + 1, key)
    }
}

/// What a reader gets for `key` from the whole stack.
pub open spec fn lookup(stack: Seq<Slot>, key: Seq<u8>) -> Option<Seq<u8>> {
    lookup_from(stack, 0, key)
}

/// The sum of the live counts of the first `n` layers.
pub open spec fn live_total(stack: Seq<Slot>, n: int) -> nat
    decreases n,
{
    if n <= 0 {
        0
    } else {
        live_total(stack, n - 1) + live(stack[n - 1])
    }
}

/// The stack with `value` written under `key` in its top layer.
pub open spec fn written(stack: Seq<Slot>, key: Seq<u8>, value: Seq<u8>) -> Seq<Slot> {
    stack.update(
        0,
        Slot {
            records: stack[0].records.insert(key, Record { payload: value, deleted: false }),
            ..stack[0]
        },
    )
}

/// Whether deleting `key` finds a live record in the top layer.
pub open spec fn deletes(stack: Seq<Slot>, key: Seq<u8>) -> bool {
    stack.len() > 0 && stack[0].records.dom().contains(key) && !stack[0].records[key].deleted
}

/// The stack once `key` is deleted: a live record of the top layer becomes a
/// tombstone, anything else stays.
pub open spec fn deleted(stack: Seq<Slot>, key: Seq<u8>) -> Seq<Slot> {
    if deletes(stack, key) {
        stack.update(
            0,
            Slot {
                records: stack[0].records.insert(key, tombstone(stack[0].records, key)),
                ..stack[0]
            },
        )
    } else {
        stack
    }
}

/// The stack once layer `i`, if it is full, has been moved into the layer below.
pub open spec fn spill_at(stack: Seq<Slot>, i: int) -> Seq<Slot> {
    if full(stack[i]) {
        stack.update(i, Slot { records: Records::empty(), ..stack[i] }).update(
            i + 1,
            Slot {
                records: stack[i + 1].records.union_prefer_right(stack[i].records),
                ..stack[i + 1]
            },
        )
    } else {
        stack
    }
}

/// The stack once every layer from depth `i` down to the last but one has had
/// its turn to spill, in that order.
pub open spec fn cascade(stack: Seq<Slot>, i: int) -> Seq<Slot>
    decreases stack.len() - i,
{
    if i < 0 || i + 1 >= stack.len() {
        stack
    } else {
        cascade(spill_at(stack, i), i + 1)
    }
}

/// Whether the bottom layer holds more live records than its threshold.
pub open spec fn overfull(stack: Seq<Slot>) -> bool {
    stack.len() > 0 && stack.last().threshold != 0 && live(stack.last()) > stack.last().threshold
}

/// The stack with a fresh bottom layer added when the bottom one is overfull.
pub open spec fn grown(stack: Seq<Slot>) -> Seq<Slot> {
    if overfull(stack) {
        stack.push(empty_slot(stack.last().threshold, kind_of(stack.last().kind)))
    } else {
        stack
    }
}

/// The stack after the spill policy has run.
pub open spec fn spilled(stack: Seq<Slot>) -> Seq<Slot> {
    grown(cascade(stack, 0))
}

/// Two stacks give every reader the same answers.
pub open spec fn same_reads(a: Seq<Slot>, b: Seq<Slot>) -> bool {
    forall|k: Seq<u8>| #[trigger] lookup(a, k) == lookup(b, k)
}

/// The record that decides for `key` among two layers, one above the other.
pub open spec fn pair_record(upper: Records, lower: Records, key: Seq<u8>) -> Option<Record> {
    if upper.dom().contains(key) {
        Some(upper[key])
    } else if lower.dom().contains(key) {
        Some(lower[key])
    } else {
        None
    }
}

/// A layer of the stack is well-formed and bears the name its kind is
/// registered under.
pub open spec fn well_formed(slot: LayerConfig) -> bool {
    &&& slot.layer.inv()
    &&& registered(slot.layer.spec_name())
    &&& kind_of(slot.layer.spec_name()) == slot.layer.spec_name()
}

/// The engine: a stack of layers, the newest at the head.
pub struct LSM {
    config: Vec<LayerConfig>,
}

impl View for LSM {
    type V = Seq<Slot>;

    closed spec fn view(&self) -> Seq<Slot> {
        Seq::new(self.config@.len(), |i: int| self.config@[i]@)
    }
}

impl LSM {
    /// Well-formedness: every layer is well-formed and of a registered kind.
    pub closed spec fn inv(&self) -> bool {
        forall|i: int|
            0 <= i < self.config@.len() ==> well_formed(#[trigger] self.config@[i])
    }

    /// Whether no layer of the stack ever fails at reading, writing or erasing.
    pub closed spec fn reliable(&self) -> bool {
        forall|i: int| 0 <= i < self.config@.len() ==> (#[trigger] self.config@[i]).layer.reliable()
    }

    /// An engine without layers.
    pub fn new() -> (lsm: LSM)
        ensures
            lsm.inv(),
            lsm.reliable(),
            lsm@ == Seq::<Slot>::empty(),
    {
        let lsm = LSM { config: Vec::new() };
        assert(lsm@ =~= Seq::<Slot>::empty());
        lsm
    }

    /// What the stack holds for `key`: the topmost layer that has a record for
    /// the key decides, and a tombstone there means the key is absent.
    pub fn get(&self, key: &Vec<u8>) -> (res: Result<Option<Vec<u8>>, Error>)
        requires
            self.inv(),
        ensures
            self.reliable() ==> res is Ok,
            res matches Ok(found) ==> match found {
                Some(v) => lookup(self@, key@) == Some(v@),
                None => lookup(self@, key@) is None,
            },
    {
        let mut i: usize = 0;
        while i < self.config.len()
            invariant
                i <= self.config.len(),
                self.inv(),
                lookup(self@, key@) == lookup_from(self@, i as int, key@),
            decreases self.config.len() - i,
        {
            assert(self@[i as int] == self.config@[i as int]@);
            match self.config[i].layer.get(key) {
                Err(e) => {
                    return Err(e);
                },
                Ok(Some(v)) => {
                    if v.deleted {
                        return Ok(None);
                    } else {
                        return Ok(Some(v.value));
                    }
                },
                Ok(None) => {},
            }
            i = i + 1;
        }
        Ok(None)
    }

    /// The sum of the live counts of the layers. A key that is live in several
    /// layers is counted in each.
    pub fn count(&self) -> (n: u64)
        requires
            self.inv(),
            live_total(self@, self@.len() as int) <= u64::MAX,
        ensures
            n == live_total(self@, self@.len() as int),
    {
        let mut count: u64 = 0;
        let mut i: usize = 0;
        proof {
            lemma_live_total_grows(self@, 0, self@.len() as int);
        }
        while i < self.config.len()
            invariant
                i <= self.config.len(),
                self.inv(),
                self@.len() == self.config.len(),
                count == live_total(self@, i as int),
                live_total(self@, self@.len() as int) <= u64::MAX,
            decreases self.config.len() - i,
        {
            assert(self@[i as int] == self.config@[i as int]@);
            proof {
                lemma_live_total_grows(self@, i + 1, self@.len() as int);
            }
            let layer_count = self.config[i].layer.count();
            count = count + layer_count;
            i = i + 1;
        }
        count
    }

    /// The live count and the threshold of each layer, from the top down.
    pub fn profile(&self) -> (levels: Vec<(u64, u64)>)
        requires
            self.inv(),
        ensures
            levels@.len() == self@.len(),
            forall|i: int|
                0 <= i < levels@.len() ==> (#[trigger] levels@[i]).0 == live(self@[i]) && levels@[i].1
                    == self@[i].threshold,
    {
        let mut levels: Vec<(u64, u64)> = Vec::new();
        let mut i: usize = 0;
        while i < self.config.len()
            invariant
                i <= self.config.len(),
                self.inv(),
                levels@.len() == i,
                forall|j: int|
                    0 <= j < i ==> (#[trigger] levels@[j]).0 == live(self@[j]) && levels@[j].1
                        == self@[j].threshold,
            decreases self.config.len() - i,
        {
            assert(self@[i as int] == self.config@[i as int]@);
            levels.push((self.config[i].layer.count(), self.config[i].threshold));
            i = i + 1;
        }
        levels
    }

    /// Deletes `key` in the top layer and says whether a live record was there
    /// to delete. Without layers nothing is deleted.
    pub fn del(&mut self, key: &Vec<u8>) -> (res: Result<bool, Error>)
        requires
            old(self).inv(),
        ensures
            final(self).inv(),
            final(self).reliable() == old(self).reliable(),
            old(self).reliable() ==> res is Ok,
            res matches Ok(done) ==> done == deletes(old(self)@, key@) && final(self)@ == deleted(
                old(self)@,
                key@,
            ),
            res is Err ==> final(self)@ == old(self)@,
    {
        if self.config.len() == 0 {
            return Ok(false);
        }
        let res = self.config[0].layer.del(key);
        proof {
            assert forall|i: int| 0 <= i < self.config@.len() implies well_formed(
                #[trigger] self.config@[i],
            ) && self.config@[i].layer.reliable() == old(self).config@[i].layer.reliable() by {
                if i > 0 {
                    assert(self.config@[i] == old(self).config@[i]);
                } else {
                    assert(well_formed(old(self).config@[0]));
                }
            }
            match res {
                Ok(done) => {
                    assert(old(self)@[0] == old(self).config@[0]@);
                    assert(self@ =~= deleted(old(self)@, key@));
                },
                Err(_) => {
                    assert(self@ =~= old(self)@);
                },
            }
        }
        res
    }

    /// Moves layer `i`, if it is full, into the layer below it.
    fn spill_layer(&mut self, i: usize) -> (res: Result<(), Error>)
        requires
            old(self).inv(),
            i + 1 < old(self)@.len(),
        ensures
            final(self).inv(),
            final(self).reliable() == old(self).reliable(),
            final(self)@.len() == old(self)@.len(),
            old(self).reliable() ==> res is Ok,
            res is Ok ==> final(self)@ == spill_at(old(self)@, i as int),
            same_reads(final(self)@, old(self)@),
    {
        assert(old(self)@.len() == old(self).config@.len());
        assert(old(self)@[i as int] == old(self).config@[i as int]@);
        assert(old(self)@[i + 1] == old(self).config@[i + 1]@);
        let threshold = self.config[i].threshold;
        if threshold == 0 || self.config[i].layer.count() < threshold {
            return Ok(());
        }
        let n = self.config.len();
        assert(i + 1 < n);
        let (head, tail) = self.config.as_mut_slice().split_at_mut(i + 1);
        let res = flush(&mut head[i].layer, &mut tail[0].layer);
        proof {
            assert forall|j: int| 0 <= j < self.config@.len() implies well_formed(
                #[trigger] self.config@[j],
            ) && self.config@[j].layer.reliable() == old(self).config@[j].layer.reliable()
                && self.config@[j].threshold == old(self).config@[j].threshold by {
                if j != i && j != i + 1 {
                    assert(self.config@[j] == old(self).config@[j]);
                } else {
                    assert(well_formed(old(self).config@[j]));
                }
            }
            if res is Ok {
                assert(self@ =~= spill_at(old(self)@, i as int));
            }
            assert(self@[i as int] == self.config@[i as int]@);
            assert(self@[i + 1] == self.config@[i + 1]@);
            assert forall|k: Seq<u8>| #[trigger] lookup(self@, k) == lookup(old(self)@, k) by {
                assert forall|j: int|
                    0 <= j < self@.len() && j != i && j != i + 1 implies #[trigger] self@[j].records
                    == old(self)@[j].records by {
                    assert(self.config@[j] == old(self).config@[j]);
                }
                lemma_lookup_local(self@, old(self)@, i as int, 0, k);
            }
        }
        res
    }

    /// Runs the spill policy: from the top down each layer that is full is
    /// moved into the layer below it; then, if the bottom layer holds more
    /// live records than its threshold, a fresh layer of its kind and with its
    /// threshold is added below it.
    pub fn flush(&mut self) -> (res: Result<(), Error>)
        requires
            old(self).inv(),
        ensures
            final(self).inv(),
            final(self).reliable() == old(self).reliable(),
            old(self).reliable() ==> res is Ok,
            res is Ok ==> final(self)@ == spilled(old(self)@),
            res is Err ==> final(self)@.len() == old(self)@.len(),
            same_reads(final(self)@, old(self)@),
    {
        let n = self.config.len();
        if n == 0 {
            return Ok(());
        }
        let mut i: usize = 0;
        while i < n - 1
            invariant
                n > 0,
                self.inv(),
                self.reliable() == old(self).reliable(),
                n == self@.len(),
                n == old(self)@.len(),
                cascade(self@, i as int) == cascade(old(self)@, 0),
                same_reads(self@, old(self)@),
            decreases n - i,
        {
            match self.spill_layer(i) {
                Ok(()) => {},
                Err(e) => {
                    return Err(e);
                },
            }
            i = i + 1;
        }
        assert(self@[n - 1] == self.config@[n - 1]@);
        let threshold = self.config[n - 1].threshold;
        if threshold > 0 && self.config[n - 1].layer.count() > threshold {
            match new(self.config[n - 1].layer.name()) {
                Ok(layer) => {
                    let ghost before = self@;
                    self.config.push(LayerConfig { layer, threshold });
                    assert(self@ =~= grown(before));
                    proof {
                        lemma_grown_keeps_reads(before);
                    }
                },
                Err(e) => {
                    return Err(e);
                },
            }
        }
        Ok(())
    }

    /// Writes `value` under `key` in the top layer, then runs the spill
    /// policy. Without layers there is nowhere to write: `NoLayer`. A write
    /// that fails leaves the stack as it was; when the spill fails after the
    /// write, the write stays.
    pub fn set(&mut self, key: &Vec<u8>, value: &Vec<u8>) -> (res: Result<(), Error>)
        requires
            old(self).inv(),
        ensures
            final(self).inv(),
            final(self).reliable() == old(self).reliable(),
            old(self)@.len() == 0 ==> (res matches Err(e) && e.kind == Kind::NoLayer)
                && final(self)@ == old(self)@,
            old(self)@.len() > 0 && old(self).reliable() ==> res is Ok,
            res is Ok ==> final(self)@ == spilled(written(old(self)@, key@, value@)),
            res is Err ==> final(self)@ == old(self)@ || same_reads(
                final(self)@,
                written(old(self)@, key@, value@),
            ),
    {
        if self.config.len() == 0 {
            return Err(Error::of(Kind::NoLayer, String::from_str("no layer supports set")));
        }
        let res = self.config[0].layer.set(key, value);
        proof {
            assert(old(self)@[0] == old(self).config@[0]@);
            assert forall|i: int| 0 <= i < self.config@.len() implies well_formed(
                #[trigger] self.config@[i],
            ) && self.config@[i].layer.reliable() == old(self).config@[i].layer.reliable() by {
                if i > 0 {
                    assert(self.config@[i] == old(self).config@[i]);
                } else {
                    assert(well_formed(old(self).config@[0]));
                }
            }
            if res is Ok {
                assert(self@ =~= written(old(self)@, key@, value@));
            }
        }
        match res {
            Ok(()) => self.flush(),
            Err(e) => Err(e),
        }
    }
}

impl LSM {
    /// A new engine with one more layer at the bottom: a fresh layer for each
    /// layer of this engine, of its kind, with its threshold and with a copy
    /// of its records, and below them a fresh layer of the kind registered
    /// under `name`. This engine is left as it is. A name that is not
    /// registered is `Unknown`.
    pub fn add_layer(&self, name: &str, threshold: u64) -> (res: Result<LSM, Error>)
        requires
            self.inv(),
        ensures
            registered(name@) ==> (res matches Ok(lsm) && lsm.inv() && lsm.reliable() && lsm@
                == self@.push(empty_slot(threshold, kind_of(name@)))),
            !registered(name@) ==> (res matches Err(e) && e.kind == Kind::Unknown && e.msg@
                == unknown_message(name@)),
    {
        let mut config: Vec<LayerConfig> = Vec::new();
        let mut i: usize = 0;
        while i < self.config.len()
            invariant
                i <= self.config.len(),
                self.inv(),
                config@.len() == i,
                forall|j: int|
                    0 <= j < i ==> (#[trigger] config@[j]).layer.inv() && config@[j].layer.reliable()
                        && registered(config@[j].layer.spec_name()) && kind_of(
                        config@[j].layer.spec_name(),
                    ) == config@[j].layer.spec_name() && config@[j]@ == self.config@[j]@,
            decreases self.config.len() - i,
        {
            match new(self.config[i].layer.name()) {
                Ok(layer) => {
                    let mut layer = layer;
                    match copy_records(&self.config[i].layer, &mut layer) {
                        Ok(()) => {},
                        Err(e) => {
                            return Err(e);
                        },
                    }
                    assert(layer@ =~= self.config@[i as int].layer@);
                    config.push(LayerConfig { layer, threshold: self.config[i].threshold });
                },
                Err(e) => {
                    return Err(e);
                },
            }
            i = i + 1;
        }
        match new(name) {
            Ok(layer) => {
                config.push(LayerConfig { layer, threshold });
                let lsm = LSM { config };
                assert(lsm@ =~= self@.push(empty_slot(threshold, kind_of(name@))));
                Ok(lsm)
            },
            Err(e) => Err(e),
        }
    }

    /// An engine with a single in-memory layer that never spills.
    pub fn mem() -> (lsm: LSM)
        ensures
            lsm.inv(),
            lsm.reliable(),
            lsm@ == seq![empty_slot(0, "mem"@)],
    {
        match LSM::new().add_layer(crate::layer::memory::NAME, 0) {
            Ok(lsm) => {
                assert(lsm@ =~= seq![empty_slot(0, "mem"@)]);
                lsm
            },
            Err(_) => unreached(),
        }
    }
}

proof fn lemma_live_total_grows(stack: Seq<Slot>, a: int, b: int)
    requires
        a <= b,
    ensures
        live_total(stack, a) <= live_total(stack, b),
    decreases b - a,
{
    if a < b {
        lemma_live_total_grows(stack, a, b - 1);
    }
}

/// A key that has just been written reads back with the value written,
/// wherever the spill has carried it.
pub proof fn lemma_get_after_set(stack: Seq<Slot>, key: Seq<u8>, value: Seq<u8>)
    requires
        stack.len() > 0,
    ensures
        lookup(spilled(written(stack, key, value)), key) == Some(value),
{
    let w = written(stack, key, value);
    lemma_spilled_keeps_reads(w);
    assert(lookup(spilled(w), key) == lookup(w, key));
}

proof fn lemma_cascade_below(stack: Seq<Slot>, i: int, t: int)
    requires
        0 <= t < i,
        t < stack.len(),
    ensures
        cascade(stack, i).len() == stack.len(),
        cascade(stack, i)[t] == stack[t],
    decreases stack.len() - i,
{
    if i + 1 < stack.len() {
        lemma_cascade_below(spill_at(stack, i), i + 1, t);
    }
}

/// A key that is written and then deleted reads as absent, and the deletion
/// says that it deleted, as long as the write left the key in the top layer:
/// the stack has a single layer, or its top layer was not full after the write.
pub proof fn lemma_get_after_del(stack: Seq<Slot>, key: Seq<u8>, value: Seq<u8>)
    requires
        stack.len() > 0,
        stack.len() == 1 || !full(written(stack, key, value)[0]),
    ensures
        deletes(spilled(written(stack, key, value)), key),
        lookup(deleted(spilled(written(stack, key, value)), key), key) is None,
{
    let w = written(stack, key, value);
    let c = cascade(w, 0);
    if stack.len() > 1 {
        assert(spill_at(w, 0) == w);
        lemma_cascade_below(w, 1, 0);
    }
    assert(c[0] == w[0]);
    let g = grown(c);
    assert(g[0] == c[0]);
}

/// Deleting a key a second time finds nothing to delete.
pub proof fn lemma_del_twice(stack: Seq<Slot>, key: Seq<u8>)
    ensures
        !deletes(deleted(stack, key), key),
        deleted(deleted(stack, key), key) == deleted(stack, key),
{
}

proof fn lemma_cascade_relieves(stack: Seq<Slot>, i: int, t: int)
    requires
        0 <= i,
        0 <= t < stack.len() - 1,
        t < i ==> !full(stack[t]),
    ensures
        cascade(stack, i).len() == stack.len(),
        !full(cascade(stack, i)[t]),
    decreases stack.len() - i,
{
    if i + 1 >= stack.len() {
    } else {
        let next = spill_at(stack, i);
        if t < i {
            assert(next[t] == stack[t]);
        } else if t == i {
            if full(stack[i]) {
                assert(live_keys(next[i].records) =~= Set::<Seq<u8>>::empty());
            }
        }
        lemma_cascade_relieves(next, i + 1, t);
    }
}

/// After the spill policy has run, no layer that had a layer below it when the
/// policy began is full: its live count is under its threshold, or it has no
/// threshold. When the policy added no layer, these are all layers but the
/// bottom one.
pub proof fn lemma_spilled_relieved(stack: Seq<Slot>)
    ensures
        spilled(stack).len() >= stack.len(),
        forall|t: int| 0 <= t < stack.len() - 1 ==> !full(#[trigger] spilled(stack)[t]),
        spilled(stack).len() == stack.len() ==> forall|t: int|
            0 <= t < spilled(stack).len() - 1 ==> !full(#[trigger] spilled(stack)[t]),
{
    let c = cascade(stack, 0);
    assert(c.len() == stack.len()) by {
        lemma_cascade_len(stack, 0);
    }
    assert forall|t: int| 0 <= t < stack.len() - 1 implies !full(#[trigger] spilled(stack)[t]) by {
        lemma_cascade_relieves(stack, 0, t);
        assert(grown(c)[t] == c[t]);
    }
}

proof fn lemma_cascade_len(stack: Seq<Slot>, i: int)
    ensures
        cascade(stack, i).len() == stack.len(),
    decreases stack.len() - i,
{
    if 0 <= i && i + 1 < stack.len() {
        lemma_cascade_len(spill_at(stack, i), i + 1);
    }
}

proof fn lemma_lookup_local(s: Seq<Slot>, t: Seq<Slot>, i: int, from: int, key: Seq<u8>)
    requires
        s.len() == t.len(),
        0 <= i,
        i + 1 < s.len(),
        forall|j: int|
            0 <= j < s.len() && j != i && j != i + 1 ==> (#[trigger] s[j]).records == t[j].records,
        pair_record(s[i].records, s[i + 1].records, key) == pair_record(
            t[i].records,
            t[i + 1].records,
            key,
        ),
        0 <= from,
        from <= i || from >= i + 2,
    ensures
        lookup_from(s, from, key) == lookup_from(t, from, key),
    decreases s.len() - from,
{
    if from >= s.len() {
    } else if from == i {
        lemma_lookup_local(s, t, i, i + 2, key);
        assert(lookup_from(s, i + 1, key) == if s[i + 1].records.dom().contains(key) {
            if s[i + 1].records[key].deleted {
                None
            } else {
                Some(s[i + 1].records[key].payload)
            }
        } else {
            lookup_from(s, i + 2, key)
        });
        assert(lookup_from(t, i + 1, key) == if t[i + 1].records.dom().contains(key) {
            if t[i + 1].records[key].deleted {
                None
            } else {
                Some(t[i + 1].records[key].payload)
            }
        } else {
            lookup_from(t, i + 2, key)
        });
    } else {
        assert(s[from].records == t[from].records);
        lemma_lookup_local(s, t, i, from + 1, key);
    }
}

proof fn lemma_spill_at_keeps_reads(stack: Seq<Slot>, i: int)
    requires
        0 <= i,
        i + 1 < stack.len(),
    ensures
        same_reads(spill_at(stack, i), stack),
{
    let next = spill_at(stack, i);
    assert forall|k: Seq<u8>| #[trigger] lookup(next, k) == lookup(stack, k) by {
        lemma_lookup_local(next, stack, i, 0, k);
    }
}

proof fn lemma_cascade_keeps_reads(stack: Seq<Slot>, i: int)
    requires
        0 <= i,
    ensures
        same_reads(cascade(stack, i), stack),
    decreases stack.len() - i,
{
    if i + 1 < stack.len() {
        lemma_spill_at_keeps_reads(stack, i);
        lemma_cascade_keeps_reads(spill_at(stack, i), i + 1);
        assert forall|k: Seq<u8>| #[trigger] lookup(cascade(stack, i), k) == lookup(stack, k) by {
            assert(lookup(spill_at(stack, i), k) == lookup(stack, k));
        }
    }
}

proof fn lemma_lookup_grown(stack: Seq<Slot>, from: int, key: Seq<u8>)
    requires
        0 <= from,
    ensures
        lookup_from(grown(stack), from, key) == lookup_from(stack, from, key),
    decreases stack.len() - from,
{
    let g = grown(stack);
    if from < stack.len() {
        assert(g[from] == stack[from]);
        lemma_lookup_grown(stack, from + 1, key);
    } else if from < g.len() {
        assert(g[from].records =~= Records::empty());
        assert(lookup_from(g, from + 1, key) is None);
    }
}

proof fn lemma_grown_keeps_reads(stack: Seq<Slot>)
    ensures
        same_reads(grown(stack), stack),
{
    assert forall|k: Seq<u8>| #[trigger] lookup(grown(stack), k) == lookup(stack, k) by {
        lemma_lookup_grown(stack, 0, k);
    }
}

/// The spill policy moves records down the stack without changing what any
/// reader gets for any key.
pub proof fn lemma_spilled_keeps_reads(stack: Seq<Slot>)
    ensures
        same_reads(spilled(stack), stack),
{
    lemma_cascade_keeps_reads(stack, 0);
    lemma_grown_keeps_reads(cascade(stack, 0));
    assert forall|k: Seq<u8>| #[trigger] lookup(spilled(stack), k) == lookup(stack, k) by {
        assert(lookup(cascade(stack, 0), k) == lookup(stack, k));
    }
}

} // verus!
