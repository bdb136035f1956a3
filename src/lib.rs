//! A decoder for Rison, a compact JSON-like notation meant to sit in URIs.
//!
//! The byte sources ([`read`]), the scanners for quoted strings, identifiers and numbers, the
//! value dispatcher and the container accessors ([`de`]) are verified against the grammar
//! stated in [`grammar`]; [`document`] decodes a whole document into its tokens.
//!
//! A caller either decodes a document at once with [`from_slice`], [`from_str`] or
//! [`from_reader`], or drives a [`Deserializer`] step by step to build values of its own.
use vstd::prelude::*;
use vstd::string::StringSliceAdditionalSpecFns;

pub mod error;
pub mod grammar;
pub mod read;
pub mod de;
pub mod document;

pub use error::{Category, Code, Error};
pub use de::{Deserializer, Event, MapAccess, SeqAccess};
pub use document::{decode, Token};
pub use read::{ByteStream, IoRead, Read, Reference, SliceRead, StrRead};

use document::tokens_outcome;
use read::{agrees, io_failed, lemma_agrees_self};

verus! {

/// Decodes a document held in a byte slice: the tokens of its one value.
pub fn from_slice(v: &[u8]) -> (r: Result<Vec<Token>, Error>)
    ensures
        tokens_outcome(r, decode(v@)),
{
    let mut de = Deserializer::from_slice(v);
    let r = de.decode();
    proof {
        lemma_agrees_self(de.known(), de.complete());
    }
    r
}

/// Decodes a document held in a string: the tokens of its one value.
pub fn from_str(v: &str) -> (r: Result<Vec<Token>, Error>)
    ensures
        tokens_outcome(r, decode(v.spec_bytes())),
{
    let mut de = Deserializer::from_str(v);
    let r = de.decode();
    proof {
        lemma_agrees_self(de.known(), de.complete());
    }
    r
}

/// Whether `r` is what decoding gives on every input that agrees with the bytes `seen` that a
/// stream delivered (all of its bytes, where `complete`).
pub open spec fn settles(seen: Seq<u8>, complete: bool, r: Result<Vec<Token>, Error>) -> bool {
    forall|k: Seq<u8>| #[trigger] agrees(k, seen, complete) ==> tokens_outcome(r, decode(k))
}

/// Decodes a document read from a byte stream, one byte at a time, reading no further than
/// the decision at hand needs. Unless the stream fails, the result is what decoding gives on
/// every way the stream may go on from the bytes it delivered.
pub fn from_reader<S: ByteStream>(stream: S) -> (r: Result<Vec<Token>, Error>)
    ensures
        !io_failed(r) ==> exists|seen: Seq<u8>, complete: bool| #[trigger] settles(seen, complete, r),
{
    let mut de = Deserializer::from_reader(stream);
    let r = de.decode();
    proof {
        if !io_failed(r) {
            assert(settles(de.known(), de.complete(), r));
        }
    }
    r
}

/// Decoding a stream gives what decoding a slice of the same bytes gives: where the result of
/// [`from_reader`] is settled by the bytes the stream delivered, and `bytes` holds them and
/// (if the stream ended) nothing more, it is the result that [`from_slice`] has on `bytes`.
pub proof fn lemma_stream_matches_slice(seen: Seq<u8>, complete: bool, bytes: Seq<u8>, r: Result<Vec<Token>, Error>)
    requires
        settles(seen, complete, r),
        agrees(bytes, seen, complete),
    ensures
        tokens_outcome(r, decode(bytes)),
{
}

/// Decoding is a function of the input: two decodes of the same bytes succeed or fail
/// together, with the same tokens or the same error.
pub proof fn lemma_decode_deterministic(
    a: Seq<u8>,
    b: Seq<u8>,
    ra: Result<Vec<Token>, Error>,
    rb: Result<Vec<Token>, Error>,
)
    requires
        a == b,
        tokens_outcome(ra, decode(a)),
        tokens_outcome(rb, decode(b)),
    ensures
        ra is Ok <==> rb is Ok,
        ra matches Ok(va) ==> rb matches Ok(vb) && document::toks_of(va@) == document::toks_of(vb@),
        ra is Err ==> ra == rb,
{
}

} // verus!
