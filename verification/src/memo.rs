//! Tagged memo values: a memo is either a bounded text, a 64-bit id, or one
//! of two fixed-size hashes.  The constructors validate their input through
//! the bounded-string check and the hash coercion capability.

use vstd::prelude::*;

use crate::error::Error;

verus! {

/// Upper bound, in bytes, on the text a `LimitedString` may hold.
pub const MAX_STRING_LENGTH: usize = 28;

/// The number of bytes of a hash.
pub const HASH_LENGTH: usize = 32;

/// Copies the bytes of `src` into a fresh vector.
fn copy_bytes(src: &Vec<u8>) -> (r: Vec<u8>)
    ensures
        r@ == src@,
{
    let mut out: Vec<u8> = Vec::new();
    let mut i: usize = 0;
    while i < src.len()
        invariant
            i <= src@.len(),
            out@ == src@.take(i as int),
        decreases src@.len() - i,
    {
        out.push(src[i]);
        proof {
            assert(out@ =~= src@.take(i + 1));
        }
        i = i + 1;
    }
    proof {
        assert(out@ =~= src@);
    }
    out
}

/// A byte string of at most `MAX_STRING_LENGTH` bytes.
pub struct LimitedString {
    bytes: Vec<u8>,
}

impl View for LimitedString {
    type V = Seq<u8>;

    closed spec fn view(&self) -> Seq<u8> {
        self.bytes@
    }
}

impl LimitedString {
    /// The length bound that every `LimitedString` observes.
    pub open spec fn well_formed(&self) -> bool {
        self@.len() <= MAX_STRING_LENGTH
    }

    /// Wraps `bytes` when they fit the bound, and reports their length
    /// against the bound otherwise.
    pub fn new(bytes: Vec<u8>) -> (r: Result<LimitedString, Error>)
        ensures
            bytes@.len() <= MAX_STRING_LENGTH ==> (r matches Ok(s) && s@ == bytes@
                && s.well_formed()),
            bytes@.len() > MAX_STRING_LENGTH ==> r == Err::<LimitedString, Error>(
                Error::ExceedsMaximumLength {
                    requested_length: bytes@.len() as usize,
                    allowed_length: MAX_STRING_LENGTH,
                },
            ),
    {
        if bytes.len() <= MAX_STRING_LENGTH {
            Ok(LimitedString { bytes })
        } else {
            let len = bytes.len();
            Err(Error::ExceedsMaximumLength {
                requested_length: len,
                allowed_length: MAX_STRING_LENGTH,
            })
        }
    }

    /// The bytes the string holds.
    pub fn as_bytes(&self) -> (r: &Vec<u8>)
        ensures
            r@ == self@,
    {
        &self.bytes
    }
}

/// A fixed-size hash of `HASH_LENGTH` bytes.
pub struct Hash {
    bytes: Vec<u8>,
}

impl View for Hash {
    type V = Seq<u8>;

    closed spec fn view(&self) -> Seq<u8> {
        self.bytes@
    }
}

impl Hash {
    /// The length that every `Hash` observes.
    pub open spec fn well_formed(&self) -> bool {
        self@.len() == HASH_LENGTH
    }

    /// Wraps `bytes` when they are exactly `HASH_LENGTH` long, and reports
    /// their length otherwise.
    pub fn new(bytes: Vec<u8>) -> (r: Result<Hash, Error>)
        ensures
            bytes@.len() == HASH_LENGTH ==> (r matches Ok(h) && h@ == bytes@ && h.well_formed()),
            bytes@.len() != HASH_LENGTH ==> r == Err::<Hash, Error>(
                Error::InvalidHashLength { found: bytes@.len() as usize },
            ),
    {
        if bytes.len() == HASH_LENGTH {
            Ok(Hash { bytes })
        } else {
            let len = bytes.len();
            Err(Error::InvalidHashLength { found: len })
        }
    }

    /// The bytes the hash holds.
    pub fn as_bytes(&self) -> (r: &Vec<u8>)
        ensures
            r@ == self@,
    {
        &self.bytes
    }
}

/// The capability of coercing a value into a fixed-size hash.  Every
/// implementation states for which values the coercion succeeds and which
/// bytes it yields.
pub trait AsHash {
    /// Whether the coercion succeeds for this value.
    spec fn hash_ok(&self) -> bool;

    /// The bytes of the hash when the coercion succeeds.
    spec fn hash_bytes(&self) -> Seq<u8>;

    /// The error reported when the coercion fails.
    spec fn hash_err(&self) -> Error;

    /// Coerces the value into a hash, or fails with a descriptive error.
    fn as_hash(&self) -> (r: Result<Hash, Error>)
        ensures
            r is Ok <==> self.hash_ok(),
            r matches Ok(h) ==> h@ == self.hash_bytes() && h.well_formed(),
            !self.hash_ok() ==> r == Err::<Hash, Error>(self.hash_err()),
    ;
}

impl AsHash for Hash {
    open spec fn hash_ok(&self) -> bool {
        self.well_formed()
    }

    open spec fn hash_bytes(&self) -> Seq<u8> {
        self@
    }

    open spec fn hash_err(&self) -> Error {
        Error::InvalidHashLength { found: self@.len() as usize }
    }

    fn as_hash(&self) -> (r: Result<Hash, Error>) {
        if self.bytes.len() == HASH_LENGTH {
            Ok(Hash { bytes: copy_bytes(&self.bytes) })
        } else {
            let len = self.bytes.len();
            Err(Error::InvalidHashLength { found: len })
        }
    }
}

impl AsHash for Vec<u8> {
    open spec fn hash_ok(&self) -> bool {
        self@.len() == HASH_LENGTH
    }

    open spec fn hash_bytes(&self) -> Seq<u8> {
        self@
    }

    open spec fn hash_err(&self) -> Error {
        Error::InvalidHashLength { found: self@.len() as usize }
    }

    fn as_hash(&self) -> (r: Result<Hash, Error>) {
        if self.len() == HASH_LENGTH {
            Ok(Hash { bytes: copy_bytes(self) })
        } else {
            let len = self.len();
            Err(Error::InvalidHashLength { found: len })
        }
    }
}

/// A tagged memo value.
pub enum Memo {
    MemoText(LimitedString),
    MemoId(u64),
    MemoHash(Hash),
    MemoReturn(Hash),
}

impl Memo {
    /// Builds a text memo after checking the length bound.
    pub fn from_text_memo(text: Vec<u8>) -> (r: Result<Memo, Error>)
        ensures
            text@.len() <= MAX_STRING_LENGTH ==> (r matches Ok(m) && m matches Memo::MemoText(s)
                && s@ == text@),
            text@.len() > MAX_STRING_LENGTH ==> r == Err::<Memo, Error>(
                Error::ExceedsMaximumLength {
                    requested_length: text@.len() as usize,
                    allowed_length: MAX_STRING_LENGTH,
                },
            ),
    {
        match LimitedString::new(text) {
            Ok(string) => Ok(Memo::MemoText(string)),
            Err(e) => Err(e),
        }
    }

    /// Builds an id memo.
    pub fn from_id_memo(id: u64) -> (r: Memo)
        ensures
            r == Memo::MemoId(id),
    {
        Memo::MemoId(id)
    }

    /// Builds a hash memo from anything that coerces into a hash; a failed
    /// coercion's error is passed through unchanged.
    pub fn from_hash_memo<T: AsHash>(hash: T) -> (r: Result<Memo, Error>)
        ensures
            hash.hash_ok() ==> (r matches Ok(m) && m matches Memo::MemoHash(h) && h@
                == hash.hash_bytes()),
            !hash.hash_ok() ==> r == Err::<Memo, Error>(hash.hash_err()),
    {
        match hash.as_hash() {
            Ok(h) => Ok(Memo::MemoHash(h)),
            Err(e) => Err(e),
        }
    }

    /// Builds a return-hash memo from anything that coerces into a hash; a
    /// failed coercion's error is passed through unchanged.
    pub fn from_return_hash_memo<T: AsHash>(return_hash: T) -> (r: Result<Memo, Error>)
        ensures
            return_hash.hash_ok() ==> (r matches Ok(m) && m matches Memo::MemoReturn(h) && h@
                == return_hash.hash_bytes()),
            !return_hash.hash_ok() ==> r == Err::<Memo, Error>(return_hash.hash_err()),
    {
        match return_hash.as_hash() {
            Ok(h) => Ok(Memo::MemoReturn(h)),
            Err(e) => Err(e),
        }
    }
}

} // verus!
