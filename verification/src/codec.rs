//! The envelope in which a snapshot is stored.
//!
//! A stored database is one compressed stream. Decompressed, it is a header,
//! one line break, and the content. The header holds a checksum of the
//! content; a stream whose content does not fit its header is refused. How
//! header and content are written down is not decided here: both are bytes.
//!
//! A header can only vouch with the digests it holds. One that holds no
//! digest accepts every content of the right size.

use vstd::prelude::*;
use crate::error::Error;
use crate::hashing::{blake2b_256, sha512_256};
use crate::metrics::{compute_metrics, metrics_of, sum_view, Features, HashSum, Metrics};
use crate::diff::sums_differ;

verus! {

/// The byte between header and content: a line break.
pub const SEP: u8 = 0x0a;

/// What is stored about the content of a database, to tell whether it is
/// intact: its size, and the digests that were switched on.
#[derive(Debug, PartialEq, Eq)]
pub struct DatabaseChecksum {
    pub sha2: Option<HashSum>,
    pub blake2b: Option<HashSum>,
    pub size: u64,
}

/// [`DatabaseChecksum`] as a mathematical value.
pub struct ChecksumView {
    pub sha2: Option<Seq<u8>>,
    pub blake2b: Option<Seq<u8>>,
    pub size: nat,
}

impl View for DatabaseChecksum {
    type V = ChecksumView;

    open spec fn view(&self) -> ChecksumView {
        ChecksumView {
            sha2: sum_view(self.sha2),
            blake2b: sum_view(self.blake2b),
            size: self.size as nat,
        }
    }
}

impl Clone for DatabaseChecksum {
    /// A checksum that says the same.
    fn clone(&self) -> (copy: DatabaseChecksum)
        ensures
            copy@ == self@,
    {
        DatabaseChecksum {
            sha2: match &self.sha2 {
                Some(sum) => Some(sum.clone()),
                None => None,
            },
            blake2b: match &self.blake2b {
                Some(sum) => Some(sum.clone()),
                None => None,
            },
            size: self.size,
        }
    }
}

impl From<Metrics> for DatabaseChecksum {
    /// The checksum of content whose metrics are `metrics`.
    fn from(metrics: Metrics) -> (checksum: DatabaseChecksum) {
        DatabaseChecksum { sha2: metrics.sha2, blake2b: metrics.blake2b, size: metrics.size }
    }
}

impl vstd::std_specs::convert::FromSpecImpl<Metrics> for DatabaseChecksum {
    open spec fn obeys_from_spec() -> bool {
        true
    }

    open spec fn from_spec(metrics: Metrics) -> DatabaseChecksum {
        DatabaseChecksum { sha2: metrics.sha2, blake2b: metrics.blake2b, size: metrics.size }
    }
}

/// The checksum of the content `body` under `features`.
pub open spec fn checksum_of(body: Seq<u8>, features: Features) -> ChecksumView {
    ChecksumView {
        sha2: metrics_of(body, features).sha2,
        blake2b: metrics_of(body, features).blake2b,
        size: metrics_of(body, features).size,
    }
}

/// The digests that a checksum holds.
pub open spec fn inferred(checksum: ChecksumView) -> Features {
    Features { sha2: checksum.sha2 is Some, blake2b: checksum.blake2b is Some }
}

/// Whether two checksums contradict each other: in size, or in a digest that
/// both of them hold.
pub open spec fn checksum_differs(expected: ChecksumView, actual: ChecksumView) -> bool {
    ||| expected.size != actual.size
    ||| (expected.sha2 is Some && actual.sha2 is Some && expected.sha2 != actual.sha2)
    ||| (expected.blake2b is Some && actual.blake2b is Some && expected.blake2b != actual.blake2b)
}

/// Whether the header checksum `expected` lets the content `body` pass: the
/// checksum of `body`, made with the digests that `expected` holds, does not
/// contradict it.
pub open spec fn accepts(expected: ChecksumView, body: Seq<u8>) -> bool {
    !checksum_differs(expected, checksum_of(body, inferred(expected)))
}

impl Features {
    /// The digests that `checksum` holds.
    pub fn infer_from_database_checksum(checksum: &DatabaseChecksum) -> (features: Features)
        ensures
            features == inferred(checksum@),
    {
        Features { sha2: checksum.sha2.is_some(), blake2b: checksum.blake2b.is_some() }
    }
}

impl DatabaseChecksum {
    /// The checksum of the content `body`, with the digests that `features`
    /// switches on.
    pub fn compute(body: &[u8], features: Features) -> (checksum: DatabaseChecksum)
        ensures
            checksum@ == checksum_of(body@, features),
    {
        DatabaseChecksum::from(compute_metrics(body, features))
    }

    /// Whether `new` contradicts this checksum.
    pub fn diff(&self, new: &DatabaseChecksum) -> (changed: bool)
        ensures
            changed == checksum_differs(self@, new@),
    {
        let changed = self.size != new.size;
        let changed = changed || sums_differ(&self.sha2, &new.sha2);
        let changed = changed || sums_differ(&self.blake2b, &new.blake2b);
        changed
    }

    /// Holds the content `body` against this checksum, which was read from
    /// the header in front of it. The digests are made anew, those that the
    /// header holds and no others, and the content is refused where they or
    /// the size contradict the header.
    pub fn verify(&self, body: &[u8]) -> (checked: Result<(), Error>)
        ensures
            match checked {
                Ok(_) => accepts(self@, body@),
                Err(Error::ChecksumMismatch) => !accepts(self@, body@),
                Err(_) => false,
            },
    {
        let features = Features::infer_from_database_checksum(self);
        let actual = DatabaseChecksum::compute(body, features);
        if self.diff(&actual) {
            return Err(Error::ChecksumMismatch);
        }
        Ok(())
    }
}

/// The decompressed form of a stored database: `header`, a line break,
/// `body`.
pub open spec fn frame(header: Seq<u8>, body: Seq<u8>) -> Seq<u8> {
    header + seq![SEP] + body
}

/// The first line break of `bytes` is at `index`.
pub open spec fn separator_at(bytes: Seq<u8>, index: int) -> bool {
    &&& 0 <= index < bytes.len()
    &&& bytes[index] == SEP
    &&& forall|k: int| 0 <= k < index ==> bytes[k] != SEP
}

/// Header and content of the decompressed form `bytes`, parted at the first
/// line break. Without a line break there is neither.
pub open spec fn split(bytes: Seq<u8>) -> Option<(Seq<u8>, Seq<u8>)> {
    if exists|index: int| separator_at(bytes, index) {
        let index = choose|index: int| separator_at(bytes, index);
        Some((bytes.take(index), bytes.skip(index + 1)))
    } else {
        None
    }
}

/// Header and content of a frame are the ones it was made of, as long as the
/// header holds no line break.
pub proof fn lemma_frame_splits(header: Seq<u8>, body: Seq<u8>)
    requires
        !header.contains(SEP),
    ensures
        split(frame(header, body)) == Some((header, body)),
{
    let bytes = frame(header, body);
    let at = header.len() as int;
    assert forall|k: int| 0 <= k < at implies bytes[k] != SEP by {
        assert(bytes[k] == header[k]);
    }
    assert(bytes[at] == SEP);
    assert(separator_at(bytes, at));
    let index = choose|index: int| separator_at(bytes, index);
    assert(index == at) by {
        if index < at {
            assert(bytes[index] == header[index]);
        }
    }
    assert(bytes.take(at) =~= header);
    assert(bytes.skip(at + 1) =~= body);
}

/// The place of the first line break in `bytes`.
pub fn find_separator(bytes: &[u8]) -> (found: Option<usize>)
    ensures
        match found {
            Some(index) => separator_at(bytes@, index as int),
            None => !bytes@.contains(SEP) && split(bytes@) is None,
        },
{
    let mut i: usize = 0;
    while i < bytes.len()
        invariant
            i <= bytes.len(),
            forall|k: int| 0 <= k < i ==> bytes@[k] != SEP,
        decreases bytes.len() - i,
    {
        if bytes[i] == SEP {
            return Some(i);
        }
        i += 1;
    }
    None
}

/// Header and content of a stored database, as they came out of it. The
/// header can be read at once; the content is handed out only against the
/// checksum that the header holds.
#[derive(Debug, PartialEq, Eq)]
pub struct Envelope {
    header: Vec<u8>,
    body: Vec<u8>,
}

impl View for Envelope {
    type V = (Seq<u8>, Seq<u8>);

    /// Header and content.
    closed spec fn view(&self) -> (Seq<u8>, Seq<u8>) {
        (self.header@, self.body@)
    }
}

impl Envelope {
    /// The decompressed form of a stored database with this header and this
    /// content.
    pub fn frame(header: &[u8], body: &[u8]) -> (bytes: Vec<u8>)
        ensures
            bytes@ == frame(header@, body@),
    {
        let mut bytes: Vec<u8> = Vec::new();
        bytes.extend_from_slice(header);
        bytes.push(SEP);
        bytes.extend_from_slice(body);
        assert(bytes@ =~= frame(header@, body@));
        bytes
    }

    /// Parts header from content at the first line break of `bytes`, the
    /// decompressed form of a stored database.
    pub fn parse(bytes: &[u8]) -> (envelope: Result<Envelope, Error>)
        ensures
            match envelope {
                Ok(parts) => split(bytes@) == Some(parts@),
                Err(Error::ParseError) => split(bytes@) is None,
                Err(_) => false,
            },
    {
        let index = match find_separator(bytes) {
            Some(index) => index,
            None => {
                return Err(Error::ParseError);
            },
        };
        proof {
            let chosen = choose|at: int| separator_at(bytes@, at);
            assert(chosen == index);
        }
        let length: usize = bytes.len();
        let header = vstd::slice::slice_to_vec(&bytes[0..index]);
        let body = vstd::slice::slice_to_vec(&bytes[index + 1..length]);
        proof {
            assert(header@ =~= bytes@.take(index as int));
            assert(body@ =~= bytes@.skip(index + 1));
        }
        Ok(Envelope { header, body })
    }

    /// The header.
    pub fn header(&self) -> (header: &[u8])
        ensures
            header@ == self@.0,
    {
        self.header.as_slice()
    }

    /// The content, if it passes the checksum `expected`, which was read from
    /// the header. Content that does not pass is not handed out.
    pub fn verified_body(&self, expected: &DatabaseChecksum) -> (body: Result<&[u8], Error>)
        ensures
            match body {
                Ok(content) => accepts(expected@, self@.1) && content@ == self@.1,
                Err(Error::ChecksumMismatch) => !accepts(expected@, self@.1),
                Err(_) => false,
            },
    {
        match expected.verify(self.body.as_slice()) {
            Ok(_) => Ok(self.body.as_slice()),
            Err(error) => Err(error),
        }
    }
}

/// What `flate2::read::GzDecoder` reads out of the gzip stream `stream`, or
/// nothing where it fails. It is given no meaning here beyond what the two
/// functions below say of it.
pub uninterp spec fn gunzipped(stream: Seq<u8>) -> Option<Seq<u8>>;

/// The gzip stream that `flate2::write::GzEncoder` makes of `data` at the
/// best level, or nothing where it fails. The encoder writes no time and no
/// name into the stream, so the stream depends on the data alone.
pub uninterp spec fn gzipped(data: Seq<u8>) -> Option<Seq<u8>>;

/// Header and content of the stored database `stream`, or nothing where it
/// does not decompress or has no line break.
pub open spec fn opened(stream: Seq<u8>) -> Option<(Seq<u8>, Seq<u8>)> {
    match gunzipped(stream) {
        Some(bytes) => split(bytes),
        None => None,
    }
}

/// Compresses `data`: `flate2::write::GzEncoder::new` over an empty vector
/// with `flate2::Compression::best`, `write_all` and `finish`.
///
/// Not proved: the outcome is a function of the bytes of `data` alone,
/// which is given the name [`gzipped`], and what comes out is a stream that
/// `GzDecoder` reads back as `data`.
#[verifier::external_body]
fn gzip(data: &[u8]) -> (stream: Result<Vec<u8>, std::io::Error>)
    ensures
        match stream {
            Ok(compressed) => gzipped(data@) == Some(compressed@) && gunzipped(compressed@)
                == Some(data@),
            Err(_) => gzipped(data@) is None,
        },
{
    let mut encoder = flate2::write::GzEncoder::new(Vec::new(), flate2::Compression::best());
    std::io::Write::write_all(&mut encoder, data)?;
    encoder.finish()
}

/// Decompresses `stream`: `flate2::read::GzDecoder::new` over it, and
/// `read_to_end`.
///
/// Not proved: the outcome is a function of the bytes of `stream` alone,
/// which is given the name [`gunzipped`].
#[verifier::external_body]
fn gunzip(stream: &[u8]) -> (data: Result<Vec<u8>, std::io::Error>)
    ensures
        match data {
            Ok(bytes) => gunzipped(stream@) == Some(bytes@),
            Err(_) => gunzipped(stream@) is None,
        },
{
    let mut bytes = Vec::new();
    std::io::Read::read_to_end(&mut flate2::read::GzDecoder::new(stream), &mut bytes)?;
    Ok(bytes)
}

/// Frames `header` and `body` and compresses the whole. The header may hold
/// no line break, or the frame could not be parted again.
///
/// The stream is the compressed frame, and it opens to `header` and `body`.
/// The only failure is that of the compressor on the frame.
pub fn seal(header: &[u8], body: &[u8]) -> (sealed: Result<Vec<u8>, Error>)
    requires
        !header@.contains(SEP),
    ensures
        match sealed {
            Ok(stream) => gzipped(frame(header@, body@)) == Some(stream@) && gunzipped(stream@)
                == Some(frame(header@, body@)) && opened(stream@) == Some((header@, body@)),
            Err(Error::Io(_)) => gzipped(frame(header@, body@)) is None,
            Err(_) => false,
        },
{
    let bytes = Envelope::frame(header, body);
    proof {
        lemma_frame_splits(header@, body@);
    }
    match gzip(bytes.as_slice()) {
        Ok(stream) => Ok(stream),
        Err(error) => Err(Error::Io(error)),
    }
}

/// Decompresses a stored database and parts header from content at the first
/// line break.
pub fn open(stream: &[u8]) -> (envelope: Result<Envelope, Error>)
    ensures
        match envelope {
            Ok(parts) => opened(stream@) == Some(parts@),
            Err(Error::Io(_)) => gunzipped(stream@) is None,
            Err(Error::ParseError) => gunzipped(stream@) is Some && opened(stream@) is None,
            Err(_) => false,
        },
{
    match gunzip(stream) {
        Ok(bytes) => Envelope::parse(bytes.as_slice()),
        Err(error) => Err(Error::Io(error)),
    }
}

/// A stream that holds the frame of `header` and `body` opens to the two,
/// and content passes the checksum that was made of it, whichever digests
/// are switched on.
pub proof fn lemma_round_trip(stream: Seq<u8>, header: Seq<u8>, body: Seq<u8>, features: Features)
    requires
        gunzipped(stream) == Some(frame(header, body)),
        !header.contains(SEP),
    ensures
        opened(stream) == Some((header, body)),
        accepts(checksum_of(body, features), body),
{
    lemma_frame_splits(header, body);
}

/// A stored database whose content was tampered with, be it in a single
/// byte, still opens to its header and to the content as it is now, and that
/// content does not pass the checksum of the content it was, as long as a
/// digest that is switched on tells the two apart.
pub proof fn lemma_tampering_is_detected(
    stream: Seq<u8>,
    header: Seq<u8>,
    body: Seq<u8>,
    tampered: Seq<u8>,
    features: Features,
)
    requires
        gunzipped(stream) == Some(frame(header, tampered)),
        !header.contains(SEP),
        (features.sha2 && sha512_256(body) != sha512_256(tampered)) || (features.blake2b
            && blake2b_256(body) != blake2b_256(tampered)),
    ensures
        opened(stream) == Some((header, tampered)),
        !accepts(checksum_of(body, features), tampered),
{
    lemma_frame_splits(header, tampered);
}

/// A checksum without digests lets any content of the same size pass.
pub proof fn lemma_no_digest_no_protection(body: Seq<u8>, other: Seq<u8>)
    requires
        body.len() == other.len(),
    ensures
        accepts(checksum_of(body, Features { sha2: false, blake2b: false }), other),
{
}

} // verus!
