//! The two digests a snapshot can record, computed by the `sha2` and `blake2`
//! crates.
//!
//! Nothing in this module is proved. Each function below states what the
//! hashing crates are trusted to do: a computation that is fed byte slices one
//! after another yields the digest of their concatenation.

use vstd::prelude::*;

verus! {

/// A SHA-512/256 computation in progress (`sha2::Sha512_256`).
///
/// The hasher is generic over traits that the verifier cannot read, so it is
/// kept behind this struct and spoken of only through [`sha2_absorbed`].
#[verifier::external_body]
pub struct Sha2State {
    inner: sha2::Sha512_256,
}

/// A BLAKE2b computation with 32 bytes of output, in progress
/// (`blake2::Blake2b<U32>`), kept as [`Sha2State`] is.
#[verifier::external_body]
pub struct Blake2bState {
    inner: blake2::Blake2b<digest::consts::U32>,
}

/// The SHA-512/256 digest of `data`, as `sha2` computes it. Of such a digest
/// only its length is known here; in particular it is not known that
/// different data have different digests.
pub uninterp spec fn sha512_256(data: Seq<u8>) -> Seq<u8>;

/// The 32-byte BLAKE2b digest of `data`, as `blake2` computes it. Of such a
/// digest, too, only its length is known here.
pub uninterp spec fn blake2b_256(data: Seq<u8>) -> Seq<u8>;

/// The bytes that a SHA-512/256 computation has been fed so far, in order.
pub uninterp spec fn sha2_absorbed(state: Sha2State) -> Seq<u8>;

/// The bytes that a BLAKE2b computation has been fed so far, in order.
pub uninterp spec fn blake2b_absorbed(state: Blake2bState) -> Seq<u8>;

/// `<sha2::Sha512_256 as Default>::default`.
///
/// Not proved: a fresh hasher has been fed nothing.
#[verifier::external_body]
pub(crate) fn sha2_start() -> (state: Sha2State)
    ensures
        sha2_absorbed(state) == Seq::<u8>::empty(),
{
    Sha2State { inner: <sha2::Sha512_256 as Default>::default() }
}

/// `digest::Digest::update` on a SHA-512/256 hasher.
///
/// Not proved: `input` is appended to what the hasher has been fed.
#[verifier::external_body]
pub(crate) fn sha2_update(state: &mut Sha2State, input: &[u8])
    ensures
        sha2_absorbed(*final(state)) == sha2_absorbed(*old(state)) + input@,
{
    digest::Digest::update(&mut state.inner, input)
}

/// `digest::FixedOutput::finalize_fixed` on a SHA-512/256 hasher.
///
/// Not proved: the result depends on nothing but the bytes that the hasher
/// has been fed, in their order; it is given the name [`sha512_256`]. It is
/// 32 bytes long.
#[verifier::external_body]
pub(crate) fn sha2_finish(state: Sha2State) -> (sum: Vec<u8>)
    ensures
        sum@ == sha512_256(sha2_absorbed(state)),
        sum@.len() == 32,
{
    Vec::from(digest::FixedOutput::finalize_fixed(state.inner).as_slice())
}

/// `digest::Digest::new` on a 32-byte BLAKE2b hasher.
///
/// Not proved: a fresh hasher has been fed nothing.
#[verifier::external_body]
pub(crate) fn blake2b_start() -> (state: Blake2bState)
    ensures
        blake2b_absorbed(state) == Seq::<u8>::empty(),
{
    Blake2bState { inner: <blake2::Blake2b<digest::consts::U32> as digest::Digest>::new() }
}

/// `digest::Digest::update` on a BLAKE2b hasher.
///
/// Not proved: `input` is appended to what the hasher has been fed.
#[verifier::external_body]
pub(crate) fn blake2b_update(state: &mut Blake2bState, input: &[u8])
    ensures
        blake2b_absorbed(*final(state)) == blake2b_absorbed(*old(state)) + input@,
{
    digest::Digest::update(&mut state.inner, input)
}

/// `digest::Digest::finalize` on a BLAKE2b hasher.
///
/// Not proved: the result depends on nothing but the bytes that the hasher
/// has been fed, in their order; it is given the name [`blake2b_256`]. It is
/// 32 bytes long.
#[verifier::external_body]
pub(crate) fn blake2b_finish(state: Blake2bState) -> (sum: Vec<u8>)
    ensures
        sum@ == blake2b_256(blake2b_absorbed(state)),
        sum@.len() == 32,
{
    Vec::from(digest::Digest::finalize(state.inner).as_slice())
}

} // verus!
