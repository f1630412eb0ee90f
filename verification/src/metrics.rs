//! What a snapshot records about one file, and the engines that compute it in
//! a single pass over the file's bytes.

use vstd::prelude::*;
use crate::hashing::{
    blake2b_256, blake2b_absorbed, blake2b_finish, blake2b_start, blake2b_update, sha2_absorbed,
    sha2_finish, sha2_start, sha2_update, sha512_256, Blake2bState, Sha2State,
};

verus! {

/// Which digests are computed, for a file's metrics and for the checksum of a
/// stored database alike.
#[derive(Debug, Clone, Copy, PartialEq, Eq, Structural)]
pub struct Features {
    pub sha2: bool,
    pub blake2b: bool,
}

impl Default for Features {
    /// SHA-512/256 alone.
    fn default() -> (features: Features)
        ensures
            features == (Features { sha2: true, blake2b: false }),
    {
        Features { sha2: true, blake2b: false }
    }
}

/// The digests that a run uses, from the four switches it was started with.
/// For each digest the switch that turns it on wins over the one that turns
/// it off, and where neither is set the default stands.
pub fn parse_features(sha2: bool, no_sha2: bool, blake2: bool, no_blake2: bool) -> (features:
    Features)
    ensures
        features.sha2 == (sha2 || !no_sha2),
        features.blake2b == blake2,
{
    let defaults = Features::default();
    let sha2 = if sha2 {
        true
    } else if no_sha2 {
        false
    } else {
        defaults.sha2
    };
    let blake2b = if blake2 {
        true
    } else if no_blake2 {
        false
    } else {
        defaults.blake2b
    };
    Features { sha2, blake2b }
}

/// The output of a digest. Two sums are the same sum when their bytes agree.
#[derive(Debug, PartialEq, Eq)]
pub struct HashSum(pub Vec<u8>);

impl Clone for HashSum {
    /// A sum of the same bytes.
    fn clone(&self) -> (copy: HashSum)
        ensures
            copy@ == self@,
    {
        let bytes = self.0.clone();
        assert(bytes@ =~= self.0@);
        HashSum(bytes)
    }
}

impl View for HashSum {
    type V = Seq<u8>;

    open spec fn view(&self) -> Seq<u8> {
        self.0@
    }
}

impl HashSum {
    /// Byte-wise equality.
    pub fn same(&self, other: &HashSum) -> (same: bool)
        ensures
            same == (self@ == other@),
    {
        if self.0.len() != other.0.len() {
            return false;
        }
        let mut i: usize = 0;
        while i < self.0.len()
            invariant
                i <= self.0.len(),
                self.0.len() == other.0.len(),
                forall|k: int| 0 <= k < i ==> self.0@[k] == other.0@[k],
            decreases self.0.len() - i,
        {
            if self.0[i] != other.0[i] {
                return false;
            }
            i += 1;
        }
        assert(self.0@ =~= other.0@);
        true
    }
}

/// The view of an optional digest.
pub open spec fn sum_view(sum: Option<HashSum>) -> Option<Seq<u8>> {
    match sum {
        Some(s) => Some(s@),
        None => None,
    }
}

/// What was observed of one regular file.
#[derive(Debug, PartialEq, Eq)]
pub struct Metrics {
    /// The SHA-512/256 digest of the content, where it was computed.
    pub sha2: Option<HashSum>,
    /// The BLAKE2b digest of the content, where it was computed.
    pub blake2b: Option<HashSum>,
    /// The number of bytes.
    pub size: u64,
    /// Whether any byte is zero.
    pub nul: bool,
    /// Whether any byte has its high bit set.
    pub nonascii: bool,
}

/// [`Metrics`] as a mathematical value.
pub struct MetricsView {
    pub sha2: Option<Seq<u8>>,
    pub blake2b: Option<Seq<u8>>,
    pub size: nat,
    pub nul: bool,
    pub nonascii: bool,
}

impl View for Metrics {
    type V = MetricsView;

    open spec fn view(&self) -> MetricsView {
        MetricsView {
            sha2: sum_view(self.sha2),
            blake2b: sum_view(self.blake2b),
            size: self.size as nat,
            nul: self.nul,
            nonascii: self.nonascii,
        }
    }
}

impl Clone for Metrics {
    /// Metrics that say the same.
    fn clone(&self) -> (copy: Metrics)
        ensures
            copy@ == self@,
    {
        Metrics {
            sha2: match &self.sha2 {
                Some(sum) => Some(sum.clone()),
                None => None,
            },
            blake2b: match &self.blake2b {
                Some(sum) => Some(sum.clone()),
                None => None,
            },
            size: self.size,
            nul: self.nul,
            nonascii: self.nonascii,
        }
    }
}

/// Some byte of `data` is zero.
pub open spec fn has_nul(data: Seq<u8>) -> bool {
    exists|i: int| 0 <= i < data.len() && data[i] == 0
}

/// Some byte of `data` lies outside ASCII.
pub open spec fn has_nonascii(data: Seq<u8>) -> bool {
    exists|i: int| 0 <= i < data.len() && data[i] >= 0x80
}

/// The metrics of a file whose content is `data`, under `features`: a digest
/// that is switched off is absent, not empty.
pub open spec fn metrics_of(data: Seq<u8>, features: Features) -> MetricsView {
    MetricsView {
        sha2: if features.sha2 {
            Some(sha512_256(data))
        } else {
            None
        },
        blake2b: if features.blake2b {
            Some(blake2b_256(data))
        } else {
            None
        },
        size: data.len(),
        nul: has_nul(data),
        nonascii: has_nonascii(data),
    }
}

/// Whether a zero byte occurs in the concatenation is decided chunk by chunk.
pub proof fn lemma_has_nul_concat(a: Seq<u8>, b: Seq<u8>)
    ensures
        has_nul(a + b) == (has_nul(a) || has_nul(b)),
{
    if has_nul(a) {
        let i = choose|i: int| 0 <= i < a.len() && a[i] == 0;
        assert((a + b)[i] == 0);
    }
    if has_nul(b) {
        let i = choose|i: int| 0 <= i < b.len() && b[i] == 0;
        assert((a + b)[a.len() + i] == 0);
    }
    if has_nul(a + b) {
        let i = choose|i: int| 0 <= i < (a + b).len() && (a + b)[i] == 0;
        if i < a.len() {
            assert(a[i] == 0);
        } else {
            assert(b[i - a.len()] == 0);
        }
    }
}

/// Whether a non-ASCII byte occurs in the concatenation is decided chunk by
/// chunk.
pub proof fn lemma_has_nonascii_concat(a: Seq<u8>, b: Seq<u8>)
    ensures
        has_nonascii(a + b) == (has_nonascii(a) || has_nonascii(b)),
{
    if has_nonascii(a) {
        let i = choose|i: int| 0 <= i < a.len() && a[i] >= 0x80;
        assert((a + b)[i] >= 0x80);
    }
    if has_nonascii(b) {
        let i = choose|i: int| 0 <= i < b.len() && b[i] >= 0x80;
        assert((a + b)[a.len() + i] >= 0x80);
    }
    if has_nonascii(a + b) {
        let i = choose|i: int| 0 <= i < (a + b).len() && (a + b)[i] >= 0x80;
        if i < a.len() {
            assert(a[i] >= 0x80);
        } else {
            assert(b[i - a.len()] >= 0x80);
        }
    }
}

/// Counts the bytes it is fed.
pub struct EngineSize(pub u64);

impl EngineSize {
    /// Counts the bytes of the next chunk.
    pub fn input(&mut self, input: &[u8])
        requires
            old(self).0 + input@.len() <= u64::MAX,
        ensures
            final(self).0 == old(self).0 + input@.len(),
    {
        self.0 += input.len() as u64;
    }

    /// The number of bytes counted.
    pub fn result(self) -> (size: u64)
        ensures
            size == self.0,
    {
        self.0
    }
}

/// Remembers whether it was fed a zero byte.
pub struct EngineNul(pub bool);

impl EngineNul {
    /// Looks for a zero byte in the next chunk.
    pub fn input(&mut self, input: &[u8])
        ensures
            final(self).0 == (old(self).0 || has_nul(input@)),
    {
        let mut found = false;
        let mut i: usize = 0;
        while i < input.len()
            invariant
                i <= input.len(),
                found == has_nul(input@.take(i as int)),
            decreases input.len() - i,
        {
            proof {
                let head = input@.take(i as int);
                assert(input@.take(i + 1) =~= head + seq![input@[i as int]]);
                lemma_has_nul_concat(head, seq![input@[i as int]]);
                if input@[i as int] == 0 {
                    assert(seq![input@[i as int]][0] == 0);
                }
            }
            if input[i] == 0 {
                found = true;
            }
            i += 1;
        }
        assert(input@.take(i as int) =~= input@);
        self.0 = self.0 || found;
    }

    /// Whether a zero byte was found in any chunk.
    pub fn result(self) -> (nul: bool)
        ensures
            nul == self.0,
    {
        self.0
    }
}

/// Remembers whether it was fed a byte with its high bit set.
pub struct EngineNonascii(pub bool);

impl EngineNonascii {
    /// Looks for a byte with its high bit set in the next chunk.
    pub fn input(&mut self, input: &[u8])
        ensures
            final(self).0 == (old(self).0 || has_nonascii(input@)),
    {
        let mut found = false;
        let mut i: usize = 0;
        while i < input.len()
            invariant
                i <= input.len(),
                found == has_nonascii(input@.take(i as int)),
            decreases input.len() - i,
        {
            let byte: u8 = input[i];
            proof {
                let head = input@.take(i as int);
                assert(input@.take(i + 1) =~= head + seq![byte]);
                lemma_has_nonascii_concat(head, seq![byte]);
                assert((byte & 0x80 != 0) == (byte >= 0x80)) by (bit_vector);
                if byte >= 0x80 {
                    assert(seq![byte][0] >= 0x80);
                }
            }
            if byte & 0x80 != 0 {
                found = true;
            }
            i += 1;
        }
        assert(input@.take(i as int) =~= input@);
        self.0 = self.0 || found;
    }

    /// Whether a byte with its high bit set was found in any chunk.
    pub fn result(self) -> (nonascii: bool)
        ensures
            nonascii == self.0,
    {
        self.0
    }
}

/// All the accumulators that are switched on, fed together so that the bytes
/// are read once.
pub struct Engines {
    sha2: Option<Sha2State>,
    blake2b: Option<Blake2bState>,
    size: EngineSize,
    nul: EngineNul,
    nonascii: EngineNonascii,
    seen: Ghost<Seq<u8>>,
}

impl Engines {
    /// Every accumulator has been fed exactly [`Self::seen`].
    pub closed spec fn wf(self) -> bool {
        &&& self.size.0 == self.seen@.len()
        &&& self.nul.0 == has_nul(self.seen@)
        &&& self.nonascii.0 == has_nonascii(self.seen@)
        &&& match self.sha2 {
            Some(state) => sha2_absorbed(state) == self.seen@,
            None => true,
        }
        &&& match self.blake2b {
            Some(state) => blake2b_absorbed(state) == self.seen@,
            None => true,
        }
    }

    /// The bytes fed so far, in order.
    pub closed spec fn seen(self) -> Seq<u8> {
        self.seen@
    }

    /// The digests that are being computed.
    pub closed spec fn features(self) -> Features {
        Features { sha2: self.sha2 is Some, blake2b: self.blake2b is Some }
    }

    /// Engines that have seen nothing. A digest that `features` switches off
    /// is not set up at all.
    pub fn new(features: Features) -> (engines: Engines)
        ensures
            engines.wf(),
            engines.seen() == Seq::<u8>::empty(),
            engines.features() == features,
    {
        Engines {
            sha2: if features.sha2 {
                Some(sha2_start())
            } else {
                None
            },
            blake2b: if features.blake2b {
                Some(blake2b_start())
            } else {
                None
            },
            size: EngineSize(0),
            nul: EngineNul(false),
            nonascii: EngineNonascii(false),
            seen: Ghost(Seq::empty()),
        }
    }

    /// The number of bytes fed so far.
    pub fn size(&self) -> (size: u64)
        requires
            self.wf(),
        ensures
            size == self.seen().len(),
    {
        self.size.0
    }

    /// Feeds the next chunk to every accumulator.
    pub fn input(&mut self, input: &[u8])
        requires
            old(self).wf(),
            old(self).seen().len() + input@.len() <= u64::MAX,
        ensures
            final(self).wf(),
            final(self).seen() == old(self).seen() + input@,
            final(self).features() == old(self).features(),
    {
        proof {
            lemma_has_nul_concat(self.seen@, input@);
            lemma_has_nonascii_concat(self.seen@, input@);
        }
        match &mut self.sha2 {
            Some(state) => sha2_update(state, input),
            None => {},
        }
        match &mut self.blake2b {
            Some(state) => blake2b_update(state, input),
            None => {},
        }
        self.size.input(input);
        self.nul.input(input);
        self.nonascii.input(input);
        self.seen = Ghost(self.seen@ + input@);
    }

    /// The metrics of everything fed so far. A digest that was made is 32
    /// bytes long.
    pub fn result(self) -> (metrics: Metrics)
        requires
            self.wf(),
        ensures
            metrics@ == metrics_of(self.seen(), self.features()),
            metrics@.sha2 matches Some(sum) ==> sum.len() == 32,
            metrics@.blake2b matches Some(sum) ==> sum.len() == 32,
    {
        Metrics {
            sha2: match self.sha2 {
                Some(state) => Some(HashSum(sha2_finish(state))),
                None => None,
            },
            blake2b: match self.blake2b {
                Some(state) => Some(HashSum(blake2b_finish(state))),
                None => None,
            },
            size: self.size.result(),
            nul: self.nul.result(),
            nonascii: self.nonascii.result(),
        }
    }
}

/// The metrics of content that is already in memory.
pub fn compute_metrics(data: &[u8], features: Features) -> (metrics: Metrics)
    ensures
        metrics@ == metrics_of(data@, features),
        metrics@.sha2 matches Some(sum) ==> sum.len() == 32,
        metrics@.blake2b matches Some(sum) ==> sum.len() == 32,
{
    let mut engines = Engines::new(features);
    let length: usize = data.len();
    assert(length <= u64::MAX);
    engines.input(data);
    assert(Seq::<u8>::empty() + data@ =~= data@);
    engines.result()
}

} // verus!
