//! The contract every storage layer offers, and the records a layer holds.
use crate::error::Error as Kind;
use crate::layer::memory::MemoryLayer;
use vstd::prelude::*;
use vstd::string::*;

pub mod memory;
pub mod order;

verus! {

/// A failure of a layer or of the engine: its kind and a message for a reader.
#[derive(Debug)]
pub struct Error {
    /// The kind of failure.
    pub kind: Kind,
    /// What happened, in words.
    pub msg: String,
}

impl Error {
    /// A fault of a layer's backend, with its message.
    pub fn new(msg: String) -> (e: Error)
        ensures
            e.kind == Kind::Backend,
            e.msg@ == msg@,
    {
        Error { kind: Kind::Backend, msg }
    }

    /// A failure of the given kind, with its message.
    pub fn of(kind: Kind, msg: String) -> (e: Error)
        ensures
            e.kind == kind,
            e.msg@ == msg@,
    {
        Error { kind, msg }
    }

    /// The message, as text.
    pub fn to_string(&self) -> (text: String)
        ensures
            text@ == self.msg@,
    {
        self.msg.clone()
    }
}

/// What a layer holds for a key: the payload, and whether the key was deleted.
/// A deleted record keeps its payload and hides the key in the layers below.
pub struct Record {
    /// The bytes stored for the key.
    pub payload: Seq<u8>,
    /// Whether the record is a tombstone.
    pub deleted: bool,
}

/// A record as a layer hands it out.
#[derive(Debug, Clone)]
pub struct Value {
    /// The bytes stored for the key.
    pub value: Vec<u8>,
    /// Whether the record is a tombstone.
    pub deleted: bool,
}

impl View for Value {
    type V = Record;

    open spec fn view(&self) -> Record {
        Record { payload: self.value@, deleted: self.deleted }
    }
}

impl Value {
    /// A live record holding a copy of `value`.
    pub fn new(value: &Vec<u8>) -> (v: Value)
        ensures
            v@ == (Record { payload: value@, deleted: false }),
    {
        Value { value: value.clone(), deleted: false }
    }

    /// Whether the record is a tombstone.
    pub fn is_deleted(&self) -> (d: bool)
        ensures
            d == self@.deleted,
    {
        self.deleted
    }
}

/// The records of a layer, by key.
pub type Records = Map<Seq<u8>, Record>;

/// The keys of `m` whose record is not a tombstone.
pub open spec fn live_keys(m: Records) -> Set<Seq<u8>> {
    m.dom().filter(|k: Seq<u8>| !m[k].deleted)
}

/// `a` comes before `b` in the byte-wise lexicographic order.
pub open spec fn lex_less(a: Seq<u8>, b: Seq<u8>) -> bool
    decreases a.len(),
{
    if b.len() == 0 {
        false
    } else if a.len() == 0 {
        true
    } else {
        a[0] < b[0] || (a[0] == b[0] && lex_less(a.skip(1), b.skip(1)))
    }
}

/// `keys` runs in strictly descending lexicographic order.
pub open spec fn descending(keys: Seq<Seq<u8>>) -> bool {
    forall|i: int, j: int| 0 <= i < j < keys.len() ==> lex_less(keys[j], keys[i])
}

/// The bytes of each key of a run of keys.
pub open spec fn key_views(keys: Seq<Vec<u8>>) -> Seq<Seq<u8>> {
    Seq::new(keys.len(), |i: int| keys[i]@)
}

/// The keys of a run of pairs, in the order of the pairs.
pub open spec fn pair_keys(pairs: Seq<(Vec<u8>, Value)>) -> Seq<Seq<u8>> {
    Seq::new(pairs.len(), |i: int| pairs[i].0@)
}

/// The record `m` holds for `key` once the key is deleted in it.
pub open spec fn tombstone(m: Records, key: Seq<u8>) -> Record {
    Record { payload: m[key].payload, deleted: true }
}

/// What a storage layer offers: a map from keys to records with a name, two
/// counts and an ordered view of its keys.
///
/// An operation may fail, and a failed operation leaves the layer as it was.
/// A layer that is `reliable` never fails at reading, writing or erasing.
pub trait Layer: Sized {
    /// The records of the layer.
    spec fn view(&self) -> Records;

    /// Well-formedness: what the layer's own representation must satisfy.
    spec fn inv(&self) -> bool;

    /// Whether reading, writing and erasing never fail on this layer.
    spec fn reliable(&self) -> bool;

    /// The name of this kind of layer.
    spec fn spec_name(&self) -> Seq<char>;

    /// A well-formed layer holds finitely many records.
    proof fn lemma_finite(&self)
        requires
            self.inv(),
        ensures
            self@.dom().finite(),
    ;

    /// A fresh layer without records.
    fn new() -> (layer: Self)
        ensures
            layer.inv(),
            layer@ == Records::empty(),
    ;

    /// The name of this kind of layer.
    fn name(&self) -> (name: &'static str)
        ensures
            name@ == self.spec_name(),
    ;

    /// Opens the layer stored at `uri`. A kind of layer that has nothing to
    /// open fails with `Unsupported`.
    fn open(&self, uri: &str) -> (res: Result<Self, Error>)
        requires
            self.inv(),
        ensures
            res matches Ok(layer) ==> layer.inv(),
    ;

    /// Stores `value` under `key` as a live record, replacing what was there.
    fn set(&mut self, key: &Vec<u8>, value: &Vec<u8>) -> (res: Result<(), Error>)
        requires
            old(self).inv(),
        ensures
            final(self).inv(),
            final(self).reliable() == old(self).reliable(),
            final(self).spec_name() == old(self).spec_name(),
            old(self).reliable() ==> res is Ok,
            res is Ok ==> final(self)@ == old(self)@.insert(
                key@,
                Record { payload: value@, deleted: false },
            ),
            res is Err ==> final(self)@ == old(self)@,
    ;

    /// The record stored under `key`, tombstone or not, if there is one.
    fn get(&self, key: &Vec<u8>) -> (res: Result<Option<Value>, Error>)
        requires
            self.inv(),
        ensures
            self.reliable() ==> res is Ok,
            res matches Ok(found) ==> match found {
                Some(v) => self@.dom().contains(key@) && v@ == self@[key@],
                None => !self@.dom().contains(key@),
            },
    ;

    /// Turns the live record of `key` into a tombstone and says whether it
    /// did: a key that is absent or already deleted is left as it is.
    fn del(&mut self, key: &Vec<u8>) -> (res: Result<bool, Error>)
        requires
            old(self).inv(),
        ensures
            final(self).inv(),
            final(self).reliable() == old(self).reliable(),
            final(self).spec_name() == old(self).spec_name(),
            old(self).reliable() ==> res is Ok,
            res matches Ok(done) ==> {
                &&& done == (old(self)@.dom().contains(key@) && !old(self)@[key@].deleted)
                &&& done ==> final(self)@ == old(self)@.insert(key@, tombstone(old(self)@, key@))
                &&& !done ==> final(self)@ == old(self)@
            },
            res is Err ==> final(self)@ == old(self)@,
    ;

    /// Drops every record, tombstones included.
    fn erase(&mut self) -> (res: Result<(), Error>)
        requires
            old(self).inv(),
        ensures
            final(self).inv(),
            final(self).reliable() == old(self).reliable(),
            final(self).spec_name() == old(self).spec_name(),
            old(self).reliable() ==> res is Ok,
            res is Ok ==> final(self)@ == Records::empty(),
            res is Err ==> final(self)@ == old(self)@,
    ;

    /// The number of live records.
    fn count(&self) -> (n: u64)
        requires
            self.inv(),
        ensures
            n == live_keys(self@).len(),
    ;

    /// The number of records, tombstones included.
    fn capacity(&self) -> (n: u64)
        requires
            self.inv(),
        ensures
            n == self@.dom().len(),
    ;

    /// The keys in descending order, with or without those of tombstones.
    fn keys(&self, include_deleted: bool) -> (keys: Vec<Vec<u8>>)
        requires
            self.inv(),
        ensures
            descending(key_views(keys@)),
            forall|k: Seq<u8>|
                key_views(keys@).contains(k) <==> self@.dom().contains(k) && (include_deleted
                    || !self@[k].deleted),
    ;

    /// Every key with its record, tombstones included, in descending order of
    /// the keys.
    fn pairs(&self) -> (pairs: Vec<(Vec<u8>, Value)>)
        requires
            self.inv(),
        ensures
            descending(pair_keys(pairs@)),
            forall|i: int|
                0 <= i < pairs.len() ==> self@.dom().contains(#[trigger] pairs[i].0@)
                    && self@[pairs[i].0@] == pairs[i].1@,
            forall|k: Seq<u8>|
                self@.dom().contains(k) ==> exists|i: int|
                    0 <= i < pairs.len() && #[trigger] pairs[i].0@ == k,
    ;
}

/// Whether two keys hold the same bytes.
pub fn key_equal(a: &Vec<u8>, b: &Vec<u8>) -> (same: bool)
    ensures
        same == (a@ == b@),
{
    if a.len() != b.len() {
        return false;
    }
    let mut i: usize = 0;
    while i < a.len()
        invariant
            i <= a.len(),
            a.len() == b.len(),
            forall|j: int| 0 <= j < i ==> a@[j] == b@[j],
        decreases a.len() - i,
    {
        if a[i] != b[i] {
            return false;
        }
        i = i + 1;
    }
    assert(a@ =~= b@);
    true
}

/// Whether `a` comes before `b` in the byte-wise lexicographic order.
pub fn key_less(a: &Vec<u8>, b: &Vec<u8>) -> (less: bool)
    ensures
        less == lex_less(a@, b@),
{
    let mut i: usize = 0;
    proof {
        assert(a@.skip(0) =~= a@);
        assert(b@.skip(0) =~= b@);
    }
    while i < a.len() && i < b.len()
        invariant
            i <= a.len(),
            i <= b.len(),
            lex_less(a@, b@) == lex_less(a@.skip(i as int), b@.skip(i as int)),
        decreases a.len() - i,
    {
        proof {
            let x = a@.skip(i as int);
            let y = b@.skip(i as int);
            assert(x[0] == a@[i as int] && y[0] == b@[i as int]);
            assert(x.skip(1) =~= a@.skip(i + 1));
            assert(y.skip(1) =~= b@.skip(i + 1));
        }
        if a[i] < b[i] {
            return true;
        }
        if a[i] > b[i] {
            return false;
        }
        i = i + 1;
    }
    i < b.len()
}

/// Of two different keys, exactly one comes before the other.
pub proof fn lemma_lex_total(a: Seq<u8>, b: Seq<u8>)
    ensures
        a == b || lex_less(a, b) || lex_less(b, a),
        !(lex_less(a, b) && lex_less(b, a)),
    decreases a.len(),
{
    if a.len() == 0 || b.len() == 0 {
        if a.len() == 0 && b.len() == 0 {
            assert(a =~= b);
        }
    } else {
        lemma_lex_total(a.skip(1), b.skip(1));
        if a[0] == b[0] && a.skip(1) == b.skip(1) {
            assert(a =~= seq![a[0]] + a.skip(1));
            assert(b =~= seq![b[0]] + b.skip(1));
        }
    }
}

/// A layer never counts more live records than records.
pub proof fn lemma_count_within_capacity<L: Layer>(layer: &L)
    requires
        layer.inv(),
    ensures
        live_keys(layer@).finite(),
        live_keys(layer@).len() <= layer@.dom().len(),
{
    layer.lemma_finite();
    layer@.dom().lemma_len_filter(|k: Seq<u8>| !layer@[k].deleted);
}

/// Some pair among the first `n` has the key `k`.
pub open spec fn copied(pairs: Seq<(Vec<u8>, Value)>, n: int, k: Seq<u8>) -> bool {
    exists|j: int| 0 <= j < n && #[trigger] pairs[j].0@ == k
}

/// `start` overlaid with the records that `src` holds for the keys of the first
/// `n` pairs.
pub open spec fn merged(
    start: Records,
    src: Records,
    pairs: Seq<(Vec<u8>, Value)>,
    n: int,
) -> Records {
    Map::new(
        |k: Seq<u8>| start.dom().contains(k) || copied(pairs, n, k),
        |k: Seq<u8>|
            if copied(pairs, n, k) {
                src[k]
            } else {
                start[k]
            },
    )
}

/// `after` holds for every key outside `keys` what `before` holds for it.
pub open spec fn untouched_outside(before: Records, after: Records, keys: Set<Seq<u8>>) -> bool {
    forall|k: Seq<u8>|
        !keys.contains(k) ==> (#[trigger] after.dom().contains(k) == before.dom().contains(k) && (
        before.dom().contains(k) ==> after[k] == before[k]))
}

proof fn lemma_merged_untouched(
    start: Records,
    src: Records,
    pairs: Seq<(Vec<u8>, Value)>,
    n: int,
)
    requires
        forall|j: int| 0 <= j < n ==> src.dom().contains(#[trigger] pairs[j].0@),
    ensures
        untouched_outside(start, merged(start, src, pairs, n), src.dom()),
{
    let after = merged(start, src, pairs, n);
    assert forall|k: Seq<u8>| !src.dom().contains(k) implies (#[trigger] after.dom().contains(k)
        == start.dom().contains(k) && (start.dom().contains(k) ==> after[k] == start[k])) by {
        if copied(pairs, n, k) {
            let j = choose|j: int| 0 <= j < n && #[trigger] pairs[j].0@ == k;
            assert(src.dom().contains(pairs[j].0@));
        }
    }
}

/// Writes every record of `src`, tombstones included, into `dst`. A record of
/// `src` replaces the record `dst` had for the same key.
///
/// The records are written one by one, live ones with `set` and tombstones
/// with `set` followed by `del`. When a step fails the copy stops there: `dst`
/// has lost none of its keys and holds what it held for the keys that `src`
/// does not have.
pub fn copy_records<S: Layer, D: Layer>(src: &S, dst: &mut D) -> (res: Result<(), Error>)
    requires
        src.inv(),
        old(dst).inv(),
    ensures
        final(dst).inv(),
        final(dst).reliable() == old(dst).reliable(),
        final(dst).spec_name() == old(dst).spec_name(),
        old(dst).reliable() ==> res is Ok,
        res is Ok ==> final(dst)@ == old(dst)@.union_prefer_right(src@),
        res is Err ==> old(dst)@.dom().subset_of(final(dst)@.dom()) && untouched_outside(
            old(dst)@,
            final(dst)@,
            src@.dom(),
        ),
{
    let pairs = src.pairs();
    let ghost start = dst@;
    let mut i: usize = 0;
    proof {
        assert forall|k: Seq<u8>| !copied(pairs@, 0, k) by {}
        assert(merged(start, src@, pairs@, 0) =~= start);
    }
    while i < pairs.len()
        invariant
            i <= pairs.len(),
            src.inv(),
            dst.inv(),
            start == old(dst)@,
            dst.reliable() == old(dst).reliable(),
            dst.spec_name() == old(dst).spec_name(),
            forall|j: int|
                0 <= j < pairs.len() ==> src@.dom().contains(#[trigger] pairs[j].0@)
                    && src@[pairs[j].0@] == pairs[j].1@,
            dst@ == merged(start, src@, pairs@, i as int),
        decreases pairs.len() - i,
    {
        let ghost before = dst@;
        let ghost key = pairs@[i as int].0@;
        let ghost record = pairs@[i as int].1@;
        assert(src@[key] == record);
        match dst.set(&pairs[i].0, &pairs[i].1.value) {
            Ok(()) => {},
            Err(e) => {
                proof {
                    lemma_merged_untouched(start, src@, pairs@, i as int);
                }
                return Err(e);
            },
        }
        if pairs[i].1.deleted {
            match dst.del(&pairs[i].0) {
                Ok(_) => {},
                Err(e) => {
                    proof {
                        lemma_merged_untouched(start, src@, pairs@, i as int);
                        assert(src@.dom().contains(key));
                    }
                    return Err(e);
                },
            }
        }
        proof {
            assert(dst@ =~= before.insert(key, record));
            assert forall|k: Seq<u8>| #[trigger]
                copied(pairs@, i + 1, k) <==> copied(pairs@, i as int, k) || k == key by {
                if copied(pairs@, i + 1, k) {
                    let j = choose|j: int| 0 <= j < i + 1 && #[trigger] pairs@[j].0@ == k;
                    if j < i {
                        assert(copied(pairs@, i as int, k));
                    }
                }
                if copied(pairs@, i as int, k) {
                    let j = choose|j: int| 0 <= j < i && #[trigger] pairs@[j].0@ == k;
                    assert(pairs@[j].0@ == k);
                }
                if k == key {
                    assert(pairs@[i as int].0@ == k);
                }
            }
            assert(dst@ =~= merged(start, src@, pairs@, i + 1));
        }
        i = i + 1;
    }
    proof {
        assert forall|k: Seq<u8>| src@.dom().contains(k) <==> #[trigger] copied(
            pairs@,
            pairs.len() as int,
            k,
        ) by {
            if src@.dom().contains(k) {
                let j = choose|j: int| 0 <= j < pairs.len() && #[trigger] pairs[j].0@ == k;
                assert(pairs@[j].0@ == k);
            }
            if copied(pairs@, pairs.len() as int, k) {
                let j = choose|j: int| 0 <= j < pairs.len() && #[trigger] pairs@[j].0@ == k;
                assert(src@.dom().contains(pairs[j].0@));
            }
        }
        assert(dst@ =~= start.union_prefer_right(src@));
    }
    Ok(())
}

/// Moves every record of `src`, tombstones included, into `dst` and empties
/// `src`. A record of `src` replaces the record `dst` had for the same key.
///
/// The records are copied first and `src` is erased at the end. When a step
/// fails the move stops there: `src` still holds all its records, and `dst`
/// has lost none of its keys and holds what it held for the keys that `src`
/// does not have.
pub fn flush<S: Layer, D: Layer>(src: &mut S, dst: &mut D) -> (res: Result<(), Error>)
    requires
        old(src).inv(),
        old(dst).inv(),
    ensures
        final(src).inv(),
        final(dst).inv(),
        final(src).reliable() == old(src).reliable(),
        final(dst).reliable() == old(dst).reliable(),
        final(src).spec_name() == old(src).spec_name(),
        final(dst).spec_name() == old(dst).spec_name(),
        old(src).reliable() && old(dst).reliable() ==> res is Ok,
        res is Ok ==> final(src)@ == Records::empty() && final(dst)@ == old(dst)@.union_prefer_right(
            old(src)@,
        ),
        res is Err ==> final(src)@ == old(src)@ && old(dst)@.dom().subset_of(final(dst)@.dom())
            && untouched_outside(old(dst)@, final(dst)@, old(src)@.dom()),
{
    let ghost start = dst@;
    match copy_records(src, dst) {
        Ok(()) => {
            assert(untouched_outside(start, dst@, src@.dom()));
            src.erase()
        },
        Err(e) => Err(e),
    }
}

/// A layer of any registered kind.
pub enum AnyLayer {
    /// An in-memory layer.
    Memory(MemoryLayer),
}

impl Layer for AnyLayer {
    open spec fn view(&self) -> Records {
        match self {
            AnyLayer::Memory(layer) => layer@,
        }
    }

    open spec fn inv(&self) -> bool {
        match self {
            AnyLayer::Memory(layer) => layer.inv(),
        }
    }

    open spec fn reliable(&self) -> bool {
        match self {
            AnyLayer::Memory(layer) => layer.reliable(),
        }
    }

    open spec fn spec_name(&self) -> Seq<char> {
        match self {
            AnyLayer::Memory(layer) => layer.spec_name(),
        }
    }

    proof fn lemma_finite(&self) {
        match self {
            AnyLayer::Memory(layer) => layer.lemma_finite(),
        }
    }

    /// A fresh in-memory layer, the kind that needs nothing to start.
    fn new() -> (layer: Self) {
        AnyLayer::Memory(MemoryLayer::new())
    }

    fn name(&self) -> (name: &'static str) {
        match self {
            AnyLayer::Memory(layer) => layer.name(),
        }
    }

    /// Opens a layer of the same kind; the in-memory kind has nothing to open.
    fn open(&self, uri: &str) -> (res: Result<Self, Error>)
        ensures
            self is Memory ==> (res matches Err(e) && e.kind == Kind::Unsupported),
    {
        match self {
            AnyLayer::Memory(layer) => match layer.open(uri) {
                Ok(opened) => Ok(AnyLayer::Memory(opened)),
                Err(e) => Err(e),
            },
        }
    }

    fn set(&mut self, key: &Vec<u8>, value: &Vec<u8>) -> (res: Result<(), Error>) {
        match self {
            AnyLayer::Memory(layer) => layer.set(key, value),
        }
    }

    fn get(&self, key: &Vec<u8>) -> (res: Result<Option<Value>, Error>) {
        match self {
            AnyLayer::Memory(layer) => layer.get(key),
        }
    }

    fn del(&mut self, key: &Vec<u8>) -> (res: Result<bool, Error>) {
        match self {
            AnyLayer::Memory(layer) => layer.del(key),
        }
    }

    fn erase(&mut self) -> (res: Result<(), Error>) {
        match self {
            AnyLayer::Memory(layer) => layer.erase(),
        }
    }

    fn count(&self) -> (n: u64) {
        match self {
            AnyLayer::Memory(layer) => layer.count(),
        }
    }

    fn capacity(&self) -> (n: u64) {
        match self {
            AnyLayer::Memory(layer) => layer.capacity(),
        }
    }

    fn keys(&self, include_deleted: bool) -> (keys: Vec<Vec<u8>>) {
        match self {
            AnyLayer::Memory(layer) => layer.keys(include_deleted),
        }
    }

    fn pairs(&self) -> (pairs: Vec<(Vec<u8>, Value)>) {
        match self {
            AnyLayer::Memory(layer) => layer.pairs(),
        }
    }
}

/// Whether a kind of layer is registered under `name`.
pub open spec fn registered(name: Seq<char>) -> bool {
    name == "mem"@ || name == "memory"@
}

/// The kind of layer registered under `name`, by the name its layers give.
pub open spec fn kind_of(name: Seq<char>) -> Seq<char> {
    "mem"@
}

/// What the registry says when it knows no layer of the name.
pub open spec fn unknown_message(name: Seq<char>) -> Seq<char> {
    "cannot create layer: "@ + name
}

/// A fresh layer of the kind registered under `name`: `"mem"` and `"memory"`
/// give an in-memory layer, any other name is `Unknown`.
pub fn new(name: &str) -> (res: Result<AnyLayer, Error>)
    ensures
        registered(name@) ==> (res matches Ok(layer) && layer.inv() && layer@ == Records::empty()
            && layer.reliable() && layer.spec_name() == kind_of(name@)),
        !registered(name@) ==> (res matches Err(e) && e.kind == Kind::Unknown && e.msg@
            == unknown_message(name@)),
{
    let wanted = String::from_str(name);
    if wanted == String::from_str("mem") || wanted == String::from_str("memory") {
        Ok(AnyLayer::Memory(MemoryLayer::new()))
    } else {
        Err(Error::of(Kind::Unknown, String::from_str("cannot create layer: ").concat(name)))
    }
}

} // verus!
