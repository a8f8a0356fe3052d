//! The 128-bit time-sortable unique identifier and its text form.
use crate::error::Error;
use chrono::Utc;
use rand::rngs::ThreadRng;
use rand::Rng;
use vstd::prelude::*;
use vstd::string::*;

verus! {

/// Number of timestamp bits at the top of an identifier.
pub const TIME_BITS: u8 = 48;

/// Number of randomness bits below the timestamp.
pub const RAND_BITS: u8 = 80;

/// Number of randomness bits that carry the cluster.
pub const CLUSTER_ID_BITS: u8 = 8;

/// Number of randomness bits that carry the process.
pub const PROCESS_ID_BITS: u8 = 8;

/// Number of characters in the text form.
pub const UID_LEN: usize = 26;

/// The 32 symbols of the text form, by value.
pub open spec fn alphabet() -> Seq<char> {
    "0123456789ABCDEFGHJKMNPQRSTVWXYZ"@
}

/// Whether `c` is one of the 32 symbols.
pub open spec fn is_symbol(c: char) -> bool {
    exists|d: int| 0 <= d < 32 && alphabet()[d] == c
}

/// The value of a symbol: its place in the alphabet.
pub open spec fn symbol_value(c: char) -> int {
    choose|d: int| 0 <= d < 32 && alphabet()[d] == c
}

/// Whether `s` is 26 symbols long.
pub open spec fn valid_text(s: Seq<char>) -> bool {
    &&& s.len() == 26
    &&& forall|i: int| 0 <= i < 26 ==> is_symbol(#[trigger] s[i])
}

/// The value of the `i`-th character of the text of `u`, most significant first.
pub open spec fn digit(u: u128, i: int) -> int {
    ((u >> ((5 * (25 - i)) as u128)) & 0x1F) as int
}

/// The text form of `u`: 26 symbols of five bits each, most significant first.
pub open spec fn encode(u: u128) -> Seq<char> {
    Seq::new(26, |i: int| alphabet()[digit(u, i)])
}

/// The value of the first `n` symbols of `s` read as a base-32 number, kept to 128 bits.
pub open spec fn decode_prefix(s: Seq<char>, n: nat) -> u128
    decreases n,
{
    if n == 0 {
        0
    } else {
        (decode_prefix(s, (n - 1) as nat) << 5) | (symbol_value(s[n - 1]) as u128)
    }
}

/// The value of a text of 26 symbols, kept to 128 bits.
pub open spec fn decode(s: Seq<char>) -> u128 {
    decode_prefix(s, 26)
}

/// The alphabet has 32 ASCII symbols, no two alike.
pub proof fn lemma_alphabet()
    ensures
        alphabet().len() == 32,
        forall|i: int| 0 <= i < 32 ==> '0' <= #[trigger] alphabet()[i] <= 'Z',
        forall|i: int, j: int|
            0 <= i < 32 && 0 <= j < 32 && alphabet()[i] == alphabet()[j] ==> i == j,
{
    reveal_strlit("0123456789ABCDEFGHJKMNPQRSTVWXYZ");
}

/// A symbol's value names its place, and only symbols have a place.
pub proof fn lemma_symbol_value(d: int)
    requires
        0 <= d < 32,
    ensures
        is_symbol(alphabet()[d]),
        symbol_value(alphabet()[d]) == d,
{
    lemma_alphabet();
}

/// A 128-bit identifier: 48 bits of milliseconds above 80 bits of randomness,
/// whose lowest 16 bits carry a cluster byte and a process byte.
#[derive(Clone, Copy, Debug, PartialEq, Eq, Structural)]
pub struct Uid(pub u128);

impl Uid {
    /// The milliseconds in the top 48 bits.
    pub open spec fn spec_timestamp_ms(self) -> u64 {
        (self.0 >> 80) as u64
    }

    /// The cluster byte: bits 8 to 15.
    pub open spec fn spec_cluster_id(self) -> u8 {
        ((self.0 >> 8) & 0xFF) as u8
    }

    /// The process byte: bits 0 to 7.
    pub open spec fn spec_process_id(self) -> u8 {
        (self.0 & 0xFF) as u8
    }

    /// The text form of this identifier.
    pub open spec fn text(self) -> Seq<char> {
        encode(self.0)
    }

    /// The milliseconds since the epoch at which the identifier was minted.
    pub fn timestamp_ms(&self) -> (ms: u64)
        ensures
            ms == self.spec_timestamp_ms(),
            ms < 0x1_0000_0000_0000,
    {
        let v: u128 = self.0;
        let ms: u128 = v >> 80;
        assert(ms < 0x1_0000_0000_0000) by (bit_vector)
            requires
                ms == v >> 80,
        ;
        ms as u64
    }

    /// The cluster byte of this identifier.
    pub fn cluster_id(&self) -> (cid: u8)
        ensures
            cid == self.spec_cluster_id(),
    {
        let v: u128 = self.0;
        let cid: u128 = (v >> 8) & 0xFF;
        assert(cid <= 0xFF) by (bit_vector)
            requires
                cid == (v >> 8) & 0xFF,
        ;
        cid as u8
    }

    /// The process byte of this identifier.
    pub fn process_id(&self) -> (pid: u8)
        ensures
            pid == self.spec_process_id(),
    {
        let v: u128 = self.0;
        let pid: u128 = v & 0xFF;
        assert(pid <= 0xFF) by (bit_vector)
            requires
                pid == v & 0xFF,
        ;
        pid as u8
    }

    /// Writes the identifier as 26 symbols, most significant first.
    pub fn to_string(&self) -> (text: String)
        ensures
            text@ == self.text(),
            valid_text(text@),
    {
        let symbols: &str = "0123456789ABCDEFGHJKMNPQRSTVWXYZ";
        let v: u128 = self.0;
        let mut text = String::new();
        let mut idx: usize = 0;
        proof {
            lemma_alphabet();
        }
        while idx < UID_LEN
            invariant
                idx <= 26,
                v == self.0,
                symbols@ == alphabet(),
                symbols.is_ascii(),
                text@.len() == idx,
                forall|i: int| 0 <= i < idx ==> text@[i] == alphabet()[digit(v, i)],
                forall|i: int| 0 <= i < idx ==> is_symbol(#[trigger] text@[i]),
            decreases 26 - idx,
        {
            proof {
                lemma_alphabet();
            }
            let shift: u32 = 5 * (25 - idx as u32);
            let d: u128 = (v >> shift) & 0x1F;
            assert(d < 32) by (bit_vector)
                requires
                    d == (v >> shift) & 0x1F,
            ;
            assert(d == digit(v, idx as int)) by {
                assert(shift as u128 == (5 * (25 - idx as int)) as u128);
                assert((v >> shift) == (v >> (shift as u128))) by (bit_vector);
            }
            let at: usize = d as usize;
            let ghost before = text@;
            text.append(symbols.substring_ascii(at, at + 1));
            proof {
                lemma_symbol_value(d as int);
                assert(text@ =~= before.push(alphabet()[d as int]));
            }
            idx = idx + 1;
        }
        assert(text@ =~= self.text());
        text
    }
}

/// Finds the value of the symbol whose ASCII code is `b`, if there is one.
fn symbol_index(b: u8) -> (found: Option<u8>)
    ensures
        match found {
            Some(d) => d < 32 && alphabet()[d as int] as u8 == b,
            None => forall|d: int| 0 <= d < 32 ==> alphabet()[d] as u8 != b,
        },
{
    let symbols: &str = "0123456789ABCDEFGHJKMNPQRSTVWXYZ";
    proof {
        lemma_alphabet();
    }
    let mut at: usize = 0;
    while at < 32
        invariant
            at <= 32,
            symbols@ == alphabet(),
            symbols.is_ascii(),
            alphabet().len() == 32,
            forall|d: int| 0 <= d < at ==> alphabet()[d] as u8 != b,
        decreases 32 - at,
    {
        if symbols.get_ascii(at) == b {
            return Some(at as u8);
        }
        at = at + 1;
    }
    None
}

impl Uid {
    /// Reads an identifier from its text form.
    ///
    /// A text is accepted when it is 26 symbols of the alphabet long; anything
    /// else is `BadUid`. The symbols are read as a base-32 number, most
    /// significant first, and the number is kept to 128 bits.
    pub fn parse(s: &str) -> (res: Result<Uid, Error>)
        ensures
            valid_text(s@) ==> res == Ok::<Uid, Error>(Uid(decode(s@))),
            !valid_text(s@) ==> res == Err::<Uid, Error>(Error::BadUid),
    {
        broadcast use is_ascii_spec_bytes;

        proof {
            lemma_alphabet();
        }
        if !s.is_ascii() {
            return Err(Error::BadUid);
        }
        let bytes = s.as_bytes();
        if bytes.len() != UID_LEN {
            return Err(Error::BadUid);
        }
        let mut val: u128 = 0;
        let mut idx: usize = 0;
        while idx < UID_LEN
            invariant
                idx <= 26,
                s@.len() == 26,
                bytes@.len() == 26,
                forall|i: int| 0 <= i < 26 ==> bytes@[i] == s@[i] as u8,
                s.is_ascii(),
                forall|i: int| 0 <= i < idx ==> is_symbol(#[trigger] s@[i]),
                val == decode_prefix(s@, idx as nat),
            decreases 26 - idx,
        {
            proof {
                lemma_alphabet();
            }
            let b: u8 = bytes[idx];
            match symbol_index(b) {
                None => {
                    assert(!is_symbol(s@[idx as int]));
                    return Err(Error::BadUid);
                },
                Some(d) => {
                    assert(alphabet()[d as int] == s@[idx as int]);
                    proof {
                        lemma_symbol_value(d as int);
                    }
                    val = (val << 5) | (d as u128);
                },
            }
            idx = idx + 1;
        }
        Ok(Uid(val))
    }
}

proof fn lemma_decode_prefix_of_encode(u: u128, n: nat)
    requires
        1 <= n <= 26,
    ensures
        decode_prefix(encode(u), n) == u >> ((5 * (26 - n)) as u128),
    decreases n,
{
    let e = encode(u);
    let k: u128 = (5 * (26 - n)) as u128;
    let low: u128 = (u >> k) & 0x1F;
    assert(low < 32) by (bit_vector)
        requires
            low == (u >> k) & 0x1F,
    ;
    assert(digit(u, n - 1) == low);
    lemma_symbol_value(low as int);
    assert(symbol_value(e[n - 1]) == low);
    if n == 1 {
        assert(decode_prefix(e, 0) == 0);
        assert((0u128 << 5) | ((u >> 125) & 0x1F) == u >> 125) by (bit_vector);
    } else {
        lemma_decode_prefix_of_encode(u, (n - 1) as nat);
        let k5: u128 = (5 * (27 - n)) as u128;
        assert(((u >> k5) << 5) | ((u >> k) & 0x1F) == u >> k) by (bit_vector)
            requires
                k5 == k + 5,
                k <= 120,
        ;
    }
}

/// Reading the text of an identifier gives the identifier back: every
/// identifier has a valid text, and its value is the identifier.
pub proof fn lemma_parse_format(u: Uid)
    ensures
        valid_text(u.text()),
        decode(u.text()) == u.0,
{
    let v: u128 = u.0;
    let e = encode(v);
    assert forall|i: int| 0 <= i < 26 implies is_symbol(#[trigger] e[i]) by {
        let k: u128 = (5 * (25 - i)) as u128;
        let low: u128 = (v >> k) & 0x1F;
        assert(low < 32) by (bit_vector)
            requires
                low == (v >> k) & 0x1F,
        ;
        lemma_symbol_value(low as int);
    }
    lemma_decode_prefix_of_encode(v, 26);
    assert(v >> 0u128 == v) by (bit_vector);
}

proof fn lemma_digit_of_decode(s: Seq<char>, n: nat, j: int)
    requires
        valid_text(s),
        symbol_value(s[0]) < 8,
        0 <= j < n <= 26,
    ensures
        n <= 25 ==> decode_prefix(s, n) < (1u128 << ((5 * n - 2) as u128)),
        (decode_prefix(s, n) >> ((5 * (n - 1 - j)) as u128)) & 0x1F == symbol_value(s[j]),
    decreases n,
{
    lemma_alphabet();
    assert(is_symbol(s[n - 1]));
    let v: u128 = symbol_value(s[n - 1]) as u128;
    if n == 1 {
        assert(decode_prefix(s, 0) == 0);
        assert(((0u128 << 5) | v) < (1u128 << 3u128) && (((0u128 << 5) | v) >> 0u128) & 0x1F == v)
            by (bit_vector)
            requires
                v < 8,
        ;
    } else {
        let prev = decode_prefix(s, (n - 1) as nat);
        let w: u128 = (5 * (n - 1) - 2) as u128;
        let w5: u128 = (5 * n - 2) as u128;
        if j < n - 1 {
            lemma_digit_of_decode(s, (n - 1) as nat, j);
            let k: u128 = (5 * (n - 2 - j)) as u128;
            let k5: u128 = (5 * (n - 1 - j)) as u128;
            assert((((prev << 5) | v) >> k5) & 0x1F == (prev >> k) & 0x1F) by (bit_vector)
                requires
                    k5 == k + 5,
                    k <= 120,
                    v < 32,
                    w <= 123,
                    prev < (1u128 << w),
            ;
        } else {
            lemma_digit_of_decode(s, (n - 1) as nat, 0);
            assert((((prev << 5) | v) >> 0u128) & 0x1F == v) by (bit_vector)
                requires
                    v < 32,
            ;
        }
        if n <= 25 {
            assert(((prev << 5) | v) < (1u128 << w5)) by (bit_vector)
                requires
                    w5 == w + 5,
                    w <= 118,
                    v < 32,
                    prev < (1u128 << w),
            ;
        }
    }
}

/// Writing the value of a text gives the text back, for every valid text whose
/// first symbol is one of `0` to `7`, so that its value fits in 128 bits.
pub proof fn lemma_format_parse(s: Seq<char>)
    requires
        valid_text(s),
        symbol_value(s[0]) < 8,
    ensures
        Uid(decode(s)).text() == s,
{
    let e = encode(decode(s));
    assert forall|i: int| 0 <= i < 26 implies e[i] == s[i] by {
        lemma_digit_of_decode(s, 26, i);
        assert(is_symbol(s[i]));
    }
    assert(e =~= s);
}

/// The 80 bits below the timestamp.
pub const RAND_MASK: u128 = 0xFFFF_FFFF_FFFF_FFFF_FFFF;

/// `r` with bits 8 to 15 replaced by `c`.
pub open spec fn with_cluster(r: u128, c: u8) -> u128 {
    (r & !0xFF00u128) | ((c as u128) << 8)
}

/// `r` with bits 0 to 7 replaced by `p`.
pub open spec fn with_process(r: u128, p: u8) -> u128 {
    (r & !0xFFu128) | (p as u128)
}

/// The randomness an identifier carries once the overrides are applied to the
/// 80 bits drawn: a cluster override replaces bits 8 to 15, a process override
/// bits 0 to 7.
pub open spec fn spec_rand_bits(cluster: Option<u8>, process: Option<u8>, r: u128) -> u128 {
    let first = match cluster {
        Some(c) => with_cluster(r, c),
        None => r,
    };
    let second = match process {
        Some(p) => with_process(first, p),
        None => first,
    };
    second & RAND_MASK
}

/// The largest randomness that can come out under the overrides.
pub open spec fn spec_max_rand(cluster: Option<u8>, process: Option<u8>) -> u128 {
    spec_rand_bits(cluster, process, RAND_MASK)
}

/// The identifier made of a millisecond count and a randomness, overrides applied.
pub open spec fn spec_gen_uid(cluster: Option<u8>, process: Option<u8>, ms: u64, r: u128) -> u128 {
    ((ms as u128) << 80) | spec_rand_bits(cluster, process, r)
}

/// The millisecond an identifier minted at clock reading `ms` carries: the low
/// 48 bits of `ms`.
pub open spec fn carried_ms(ms: u64) -> u128 {
    ((ms as u128) << 80) >> 80
}

/// What a builder remembers between two identifiers.
pub struct BuilderState {
    /// The identifier minted last, zero before the first.
    pub latest: u128,
    /// The cluster byte forced on every identifier, if any.
    pub cluster_id: Option<u8>,
    /// The process byte forced on every identifier, if any.
    pub process_id: Option<u8>,
}

/// How one minting at millisecond `ms` relates the builder before and after
/// to what came out.
///
/// Nothing comes out exactly when the mode is strict, `ms` is the millisecond
/// of the latest identifier and the randomness of that identifier already is
/// the largest one the overrides allow. Otherwise the identifier carries `ms`
/// in its top 48 bits and the overridden bytes, becomes the latest, and in
/// strict mode is larger than the previous latest of the same millisecond.
pub open spec fn minted(
    before: BuilderState,
    ms: u64,
    strict: bool,
    res: Option<Uid>,
    after: BuilderState,
) -> bool {
    &&& after.cluster_id == before.cluster_id
    &&& after.process_id == before.process_id
    &&& res is None <==> {
        &&& strict
        &&& carried_ms(ms) == before.latest >> 80
        &&& before.latest & RAND_MASK >= spec_max_rand(before.cluster_id, before.process_id)
    }
    &&& match res {
        Some(uid) => {
            &&& after.latest == uid.0
            &&& uid.0 >> 80 == carried_ms(ms)
            &&& uid.0 & RAND_MASK == spec_rand_bits(
                before.cluster_id,
                before.process_id,
                uid.0 & RAND_MASK,
            )
            &&& strict && uid.0 >> 80 == before.latest >> 80 ==> uid.0 > before.latest
        },
        None => after.latest == before.latest,
    }
}

proof fn lemma_rand_bits(cluster: Option<u8>, process: Option<u8>, r: u128)
    ensures
        spec_rand_bits(cluster, process, r) <= spec_max_rand(cluster, process),
        spec_max_rand(cluster, process) <= RAND_MASK,
        spec_rand_bits(cluster, process, spec_rand_bits(cluster, process, r)) == spec_rand_bits(
            cluster,
            process,
            r,
        ),
        cluster is Some ==> (spec_rand_bits(cluster, process, r) >> 8) & 0xFF == cluster->Some_0,
        process is Some ==> spec_rand_bits(cluster, process, r) & 0xFF == process->Some_0,
{
    let m: u128 = RAND_MASK;
    let c: u8 = if cluster is Some { cluster->Some_0 } else { 0 };
    let p: u8 = if process is Some { process->Some_0 } else { 0 };
    let r1 = with_cluster(r, c);
    let m1 = with_cluster(m, c);
    assert(m == 0xFFFF_FFFF_FFFF_FFFF_FFFFu128 ==> {
        &&& with_process(r1, p) & m <= with_process(m1, p) & m <= m
        &&& with_process(with_cluster(with_process(r1, p) & m, c), p) & m == with_process(r1, p) & m
        &&& ((with_process(r1, p) & m) >> 8) & 0xFF == c
        &&& (with_process(r1, p) & m) & 0xFF == p
    }) by (bit_vector)
        requires
            r1 == with_cluster(r, c),
            m1 == with_cluster(m, c),
    ;
    assert(m == 0xFFFF_FFFF_FFFF_FFFF_FFFFu128 ==> {
        &&& r1 & m <= m1 & m <= m
        &&& with_cluster(r1 & m, c) & m == r1 & m
        &&& ((r1 & m) >> 8) & 0xFF == c
    }) by (bit_vector)
        requires
            r1 == with_cluster(r, c),
            m1 == with_cluster(m, c),
    ;
    assert(m == 0xFFFF_FFFF_FFFF_FFFF_FFFFu128 ==> {
        &&& with_process(r, p) & m <= with_process(m, p) & m <= m
        &&& with_process(with_process(r, p) & m, p) & m == with_process(r, p) & m
        &&& (with_process(r, p) & m) & 0xFF == p
    }) by (bit_vector);
    assert(m == 0xFFFF_FFFF_FFFF_FFFF_FFFFu128 ==> {
        &&& r & m <= m & m <= m
        &&& (r & m) & m == r & m
    }) by (bit_vector);
}

proof fn lemma_uid_parts(ms: u64, rb: u128)
    requires
        rb <= RAND_MASK,
    ensures
        (((ms as u128) << 80) | rb) >> 80 == ((ms as u128) << 80) >> 80,
        (((ms as u128) << 80) | rb) & RAND_MASK == rb,
{
    let m: u128 = RAND_MASK;
    assert(m == 0xFFFF_FFFF_FFFF_FFFF_FFFFu128 && rb <= m ==> {
        &&& (((ms as u128) << 80) | rb) >> 80 == ((ms as u128) << 80) >> 80
        &&& (((ms as u128) << 80) | rb) & m == rb
    }) by (bit_vector);
}

proof fn lemma_same_ms_order(a: u128, b: u128)
    requires
        a >> 80 == b >> 80,
    ensures
        a <= b <==> a & RAND_MASK <= b & RAND_MASK,
{
    let m: u128 = RAND_MASK;
    assert(m == 0xFFFF_FFFF_FFFF_FFFF_FFFFu128 && a >> 80 == b >> 80 ==> (a <= b <==> a & m <= b
        & m)) by (bit_vector);
}

/// The generator of `rand` that is local to the calling thread.
#[verifier::external_type_specification]
#[verifier::external_body]
pub struct ExThreadRng(ThreadRng);

/// `rand::thread_rng`: a handle to the thread's generator. Nothing is claimed
/// of it.
#[verifier::external_body]
fn thread_generator() -> ThreadRng {
    rand::thread_rng()
}

/// `Rng::gen` at `u128`: any 128 bits may come back, so nothing is claimed.
#[verifier::external_body]
fn draw(rng: &mut ThreadRng) -> u128 {
    rng.gen()
}

/// `Rng::gen_range` over `low..high` at `u128`: the call needs a range that is
/// not empty, and what comes back lies in it.
#[verifier::external_body]
fn draw_between(rng: &mut ThreadRng, low: u128, high: u128) -> (r: u128)
    requires
        low < high,
    ensures
        low <= r < high,
{
    rng.gen_range(low..high)
}

/// `Utc::now` followed by `DateTime::timestamp_millis`: the clock's reading in
/// milliseconds since the epoch. Nothing is claimed of a clock. chrono itself
/// gives up when the system clock stands before the epoch.
#[verifier::external_body]
fn now_millis() -> i64 {
    Utc::now().timestamp_millis()
}

/// Mints identifiers. It owns the generator, remembers the identifier minted
/// last, and may force the cluster and process bytes.
pub struct UidBuilder {
    rng: ThreadRng,
    latest: u128,
    cluster_id: Option<u8>,
    process_id: Option<u8>,
}

impl View for UidBuilder {
    type V = BuilderState;

    closed spec fn view(&self) -> BuilderState {
        BuilderState {
            latest: self.latest,
            cluster_id: self.cluster_id,
            process_id: self.process_id,
        }
    }
}

/// A builder with no overrides that has minted nothing yet.
pub fn builder() -> (b: UidBuilder)
    ensures
        b@ == (BuilderState { latest: 0, cluster_id: None, process_id: None }),
{
    UidBuilder { rng: thread_generator(), latest: 0, cluster_id: None, process_id: None }
}

impl UidBuilder {
    /// The same builder, forcing `cluster_id` on every identifier from now on.
    pub fn cluster_id(self, cluster_id: u8) -> (b: UidBuilder)
        ensures
            b@ == (BuilderState { cluster_id: Some(cluster_id), ..self@ }),
    {
        UidBuilder {
            rng: self.rng,
            latest: self.latest,
            cluster_id: Some(cluster_id),
            process_id: self.process_id,
        }
    }

    /// The same builder, forcing `process_id` on every identifier from now on.
    pub fn process_id(self, process_id: u8) -> (b: UidBuilder)
        ensures
            b@ == (BuilderState { process_id: Some(process_id), ..self@ }),
    {
        UidBuilder {
            rng: self.rng,
            latest: self.latest,
            cluster_id: self.cluster_id,
            process_id: Some(process_id),
        }
    }

    /// Applies the overrides to a randomness and keeps its low 80 bits.
    fn rand_bits(&self, randomness: u128) -> (rand: u128)
        ensures
            rand == spec_rand_bits(self@.cluster_id, self@.process_id, randomness),
    {
        let mut rand: u128 = randomness;
        match self.cluster_id {
            Some(c) => {
                rand = (rand & !0xFF00u128) | ((c as u128) << 8);
            },
            None => {},
        }
        match self.process_id {
            Some(p) => {
                rand = (rand & !0xFFu128) | (p as u128);
            },
            None => {},
        }
        rand & RAND_MASK
    }

    /// The largest randomness the overrides allow.
    fn max_rand(&self) -> (max: u128)
        ensures
            max == spec_max_rand(self@.cluster_id, self@.process_id),
    {
        self.rand_bits(RAND_MASK)
    }

    /// The identifier for millisecond `ms` and the given randomness, with the
    /// overrides applied. The builder is left as it was.
    pub fn gen_uid(&self, ms: u64, randomness: u128) -> (uid: u128)
        ensures
            uid == spec_gen_uid(self@.cluster_id, self@.process_id, ms, randomness),
    {
        ((ms as u128) << 80) | self.rand_bits(randomness)
    }

    /// Draws a randomness above `floor` and at most the largest one allowed.
    /// There is none to draw when `floor` already is the largest.
    fn monotonic_rand(&mut self, floor: u128) -> (drawn: Option<u128>)
        requires
            floor <= RAND_MASK,
        ensures
            final(self)@ == old(self)@,
            drawn is None <==> floor >= spec_max_rand(old(self)@.cluster_id, old(self)@.process_id),
            drawn matches Some(r) ==> floor < r <= spec_max_rand(
                old(self)@.cluster_id,
                old(self)@.process_id,
            ),
    {
        let max_rand = self.max_rand();
        proof {
            lemma_rand_bits(self@.cluster_id, self@.process_id, RAND_MASK);
        }
        if floor >= max_rand {
            None
        } else {
            Some(draw_between(&mut self.rng, floor + 1, max_rand + 1))
        }
    }

    /// Mints the identifier of millisecond `ms`, or says that the millisecond
    /// is `Exhausted`.
    ///
    /// Only the low 48 bits of `ms` fit in an identifier. In strict mode an
    /// identifier that would not be larger than the latest one of the same
    /// millisecond is replaced by one with a larger randomness; each further
    /// draw is taken above the one before, so the search ends. When the latest
    /// randomness is the largest allowed, nothing is minted.
    pub fn mint(&mut self, ms: u64, strict: bool) -> (res: Result<Uid, Error>)
        ensures
            minted(old(self)@, ms, strict, res.ok(), final(self)@),
            res is Err ==> res == Err::<Uid, Error>(Error::Exhausted),
    {
        let ghost cluster = self@.cluster_id;
        let ghost process = self@.process_id;
        let latest: u128 = self.latest;
        let first: u128 = draw(&mut self.rng) & RAND_MASK;
        let mut uid: u128 = self.gen_uid(ms, first);
        proof {
            lemma_rand_bits(cluster, process, first);
            lemma_rand_bits(cluster, process, RAND_MASK);
            lemma_uid_parts(ms, spec_rand_bits(cluster, process, first));
            if uid >> 80 == latest >> 80 {
                lemma_same_ms_order(uid, latest);
            }
            assert(latest & RAND_MASK <= RAND_MASK) by (bit_vector);
        }
        if strict && (uid >> 80) == (latest >> 80) && uid <= latest {
            let mut floor: u128 = latest & RAND_MASK;
            let max_rand: u128 = self.max_rand();
            if floor >= max_rand {
                return Err(Error::Exhausted);
            }
            while uid <= latest
                invariant
                    self@ == old(self)@,
                    cluster == self@.cluster_id,
                    process == self@.process_id,
                    latest == old(self)@.latest,
                    max_rand == spec_max_rand(cluster, process),
                    max_rand <= RAND_MASK,
                    latest & RAND_MASK <= floor <= max_rand,
                    uid <= latest ==> floor < max_rand,
                    uid >> 80 == ((ms as u128) << 80) >> 80,
                    uid >> 80 == latest >> 80,
                    uid & RAND_MASK == spec_rand_bits(cluster, process, uid & RAND_MASK),
                decreases max_rand - floor,
            {
                match self.monotonic_rand(floor) {
                    None => {
                        return Err(Error::Exhausted);
                    },
                    Some(r) => {
                        uid = self.gen_uid(ms, r);
                        proof {
                            let rb = spec_rand_bits(cluster, process, r);
                            lemma_rand_bits(cluster, process, r);
                            lemma_rand_bits(cluster, process, RAND_MASK);
                            lemma_uid_parts(ms, rb);
                            lemma_same_ms_order(uid, latest);
                        }
                        floor = r;
                    },
                }
            }
        }
        self.latest = uid;
        Ok(Uid(uid))
    }

    /// Mints the identifier of millisecond `ms`; nothing comes back when the
    /// millisecond is exhausted. See `mint`.
    pub fn gen_by_ms(&mut self, ms: u64, strict: bool) -> (res: Option<Uid>)
        ensures
            minted(old(self)@, ms, strict, res, final(self)@),
    {
        match self.mint(ms, strict) {
            Ok(uid) => Some(uid),
            Err(_) => None,
        }
    }

    /// Mints an identifier for the clock's present millisecond; see `gen_by_ms`
    /// for what comes out at a given millisecond.
    pub fn gen_by_strict(&mut self, strict: bool) -> (res: Option<Uid>)
        ensures
            exists|ms: u64| minted(old(self)@, ms, strict, res, final(self)@),
    {
        let now: i64 = now_millis();
        let ms: u64 = #[verifier::truncate]
        (now as u64);
        self.gen_by_ms(ms, strict)
    }

    /// Mints an identifier for the clock's present millisecond without
    /// comparing it with the latest one. This never fails.
    pub fn gen(&mut self) -> (uid: Uid)
        ensures
            exists|ms: u64| minted(old(self)@, ms, false, Some(uid), final(self)@),
    {
        match self.gen_by_strict(false) {
            Some(uid) => uid,
            None => unreached(),
        }
    }
}

/// In strict mode an identifier minted at a millisecond that is not behind the
/// latest identifier is larger than that identifier.
pub proof fn lemma_strict_step(before: BuilderState, ms: u64, uid: Uid, after: BuilderState)
    requires
        minted(before, ms, true, Some(uid), after),
        carried_ms(ms) >= before.latest >> 80,
    ensures
        uid.0 > before.latest,
        after.latest == uid.0,
{
    let a: u128 = uid.0;
    let b: u128 = before.latest;
    assert(a >> 80 > b >> 80 ==> a > b) by (bit_vector);
}

proof fn lemma_strict_pair(
    states: Seq<BuilderState>,
    clock: Seq<u64>,
    uids: Seq<Uid>,
    i: int,
    j: int,
)
    requires
        states.len() == uids.len() + 1,
        clock.len() == uids.len(),
        forall|k: int|
            0 <= k < uids.len() ==> #[trigger] minted(
                states[k],
                clock[k],
                true,
                Some(uids[k]),
                states[k + 1],
            ),
        forall|k: int|
            0 <= k < uids.len() ==> #[trigger] carried_ms(clock[k]) >= states[k].latest >> 80,
        0 <= i < j < uids.len(),
    ensures
        uids[i].0 < uids[j].0,
    decreases j - i,
{
    assert(minted(states[j], clock[j], true, Some(uids[j]), states[j + 1]));
    assert(carried_ms(clock[j]) >= states[j].latest >> 80);
    lemma_strict_step(states[j], clock[j], uids[j], states[j + 1]);
    let k = j - 1;
    assert(minted(states[k], clock[k], true, Some(uids[k]), states[k + 1]));
    if i < j - 1 {
        lemma_strict_pair(states, clock, uids, i, j - 1);
    }
}

/// A run of strict mintings that all succeed, on a clock that never falls
/// behind the latest identifier, gives identifiers in strictly increasing
/// order. `states` are the builder's states around the mintings, `clock` the
/// clock readings, `uids` what was minted.
pub proof fn lemma_strict_increasing(states: Seq<BuilderState>, clock: Seq<u64>, uids: Seq<Uid>)
    requires
        states.len() == uids.len() + 1,
        clock.len() == uids.len(),
        forall|k: int|
            0 <= k < uids.len() ==> #[trigger] minted(
                states[k],
                clock[k],
                true,
                Some(uids[k]),
                states[k + 1],
            ),
        forall|k: int|
            0 <= k < uids.len() ==> #[trigger] carried_ms(clock[k]) >= states[k].latest >> 80,
    ensures
        forall|i: int, j: int| 0 <= i < j < uids.len() ==> uids[i].0 < uids[j].0,
{
    assert forall|i: int, j: int| 0 <= i < j < uids.len() implies uids[i].0 < uids[j].0 by {
        lemma_strict_pair(states, clock, uids, i, j);
    }
}

/// Every identifier a builder mints carries the bytes the builder forces.
pub proof fn lemma_minted_overrides(
    before: BuilderState,
    ms: u64,
    strict: bool,
    uid: Uid,
    after: BuilderState,
)
    requires
        minted(before, ms, strict, Some(uid), after),
    ensures
        before.cluster_id matches Some(c) ==> uid.spec_cluster_id() == c,
        before.process_id matches Some(p) ==> uid.spec_process_id() == p,
        uid.spec_timestamp_ms() == carried_ms(ms),
{
    let v: u128 = uid.0;
    let m: u128 = RAND_MASK;
    lemma_rand_bits(before.cluster_id, before.process_id, v & m);
    assert(m == 0xFFFF_FFFF_FFFF_FFFF_FFFFu128 ==> ((v & m) >> 8) & 0xFF == (v >> 8) & 0xFF && (v
        & m) & 0xFF == v & 0xFF) by (bit_vector);
    assert(((v >> 8) & 0xFF) < 256 && (v & 0xFF) < 256 && (v >> 80) < 0x1_0000_0000_0000)
        by (bit_vector);
}

} // verus!
