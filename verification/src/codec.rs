use vstd::prelude::*;
use bincode::Options;
use crate::errors::StoreError;

verus! {

/// What `bincode` produces for a string, over its character sequence alone:
/// a length prefix followed by the UTF-8 bytes.
pub uninterp spec fn str_enc(s: Seq<char>) -> Seq<u8>;

/// What `bincode` reads back from a byte string when asked for a string:
/// the decoded characters, or nothing when the bytes are not a valid encoding.
pub uninterp spec fn str_dec(b: Seq<u8>) -> Option<Seq<char>>;

/// A value that can be written into, and read back from, a fixed byte budget.
///
/// `enc` is the value's deterministic encoding; `decodes` says of a byte
/// string whether decoding it succeeds, `decoded_enc` gives the encoding of
/// the value it decodes to, and `decoded_by` says that a byte string decodes
/// to exactly this value.  Encoding a value and then decoding the result,
/// with any trailing padding, must succeed and lead back to the same value.
pub trait Codable: Sized {
    /// The deterministic encoding of this value.
    spec fn enc(&self) -> Seq<u8>;

    /// Whether decoding the byte string `b` succeeds.
    spec fn decodes(b: Seq<u8>) -> bool;

    /// The encoding of the value that `b` decodes to.
    spec fn decoded_enc(b: Seq<u8>) -> Seq<u8>;

    /// Whether decoding `b` yields exactly this value.
    spec fn decoded_by(&self, b: Seq<u8>) -> bool;

    /// Encode this value, failing when the encoding exceeds `max` bytes.
    fn encode_within(&self, max: usize) -> (r: Result<Vec<u8>, StoreError>)
        ensures
            r matches Ok(v) ==> v@ == self.enc() && self.enc().len() <= max,
            r matches Ok(v) ==> forall|tail: Seq<u8>|
                (#[trigger] Self::decodes(self.enc() + tail))
                    && Self::decoded_enc(self.enc() + tail) == self.enc()
                    && self.decoded_by(self.enc() + tail),
            r matches Err(e) ==> e == StoreError::EncodingError && self.enc().len() > max,
    ;

    /// Decode a value from the start of `b`; trailing padding is ignored.
    fn decode_from(b: &[u8]) -> (r: Result<Self, StoreError>)
        ensures
            r matches Ok(v) ==> Self::decodes(b@) && v.enc() == Self::decoded_enc(b@)
                && v.decoded_by(b@),
            r matches Err(e) ==> e == StoreError::CorruptionError && !Self::decodes(b@),
    ;
}

/// Keys of the store: byte-encodable within a fixed budget.
pub trait KeyType: Codable {

}

/// Values of the store: byte-encodable within a fixed budget.
pub trait ValueType: Codable {

}

impl<T: Codable> KeyType for T {

}

impl<T: Codable> ValueType for T {

}

/// Relies on bincode's `serialize_u8`: a `u8` is encoded as one byte holding
/// the value itself, and `Options::with_limit` makes serialization fail when
/// the encoding would exceed the limit.
#[verifier::external_body]
fn bincode_encode_u8(x: &u8, max: usize) -> (r: Result<Vec<u8>, StoreError>)
    ensures
        r matches Ok(v) ==> v@ == seq![*x] && max >= 1,
        r matches Err(e) ==> e == StoreError::EncodingError && max < 1,
{
    match bincode::DefaultOptions::new().with_limit(max as u64).serialize(x) {
        Ok(v) => Ok(v),
        Err(_) => Err(StoreError::EncodingError),
    }
}

/// Relies on bincode's `deserialize_u8`, which reads back the single byte,
/// together with `Options::allow_trailing_bytes`, which ignores whatever
/// follows it; decoding fails only when no byte is available.
#[verifier::external_body]
fn bincode_decode_u8(b: &[u8]) -> (r: Result<u8, StoreError>)
    ensures
        r matches Ok(v) ==> v == b@[0] && b@.len() >= 1,
        r matches Err(e) ==> e == StoreError::CorruptionError && b@.len() == 0,
{
    match bincode::DefaultOptions::new().allow_trailing_bytes().deserialize::<u8>(b) {
        Ok(v) => Ok(v),
        Err(_) => Err(StoreError::CorruptionError),
    }
}

/// Relies on bincode's `serialize_str`: the encoding is a function of the
/// characters alone (a length prefix and the UTF-8 bytes), `with_limit` makes
/// serialization fail exactly when the encoding exceeds the limit, and the
/// length prefix makes the encoding self-delimiting, so decoding it with any
/// trailing padding leads back to the same characters.
#[verifier::external_body]
fn bincode_encode_str(s: &String, max: usize) -> (r: Result<Vec<u8>, StoreError>)
    ensures
        r matches Ok(v) ==> v@ == str_enc(s@) && str_enc(s@).len() <= max,
        r matches Ok(v) ==> forall|tail: Seq<u8>| #![auto] str_dec(str_enc(s@) + tail) == Some(s@),
        r matches Err(e) ==> e == StoreError::EncodingError && str_enc(s@).len() > max,
{
    match bincode::DefaultOptions::new().with_limit(max as u64).serialize(s) {
        Ok(v) => Ok(v),
        Err(_) => Err(StoreError::EncodingError),
    }
}

/// Relies on bincode's string deserialization, a function of the bytes alone,
/// with `Options::allow_trailing_bytes` ignoring what follows the encoding.
#[verifier::external_body]
fn bincode_decode_str(b: &[u8]) -> (r: Result<String, StoreError>)
    ensures
        r matches Ok(v) ==> str_dec(b@) == Some(v@),
        r matches Err(e) ==> e == StoreError::CorruptionError && str_dec(b@) is None,
{
    match bincode::DefaultOptions::new().allow_trailing_bytes().deserialize::<String>(b) {
        Ok(v) => Ok(v),
        Err(_) => Err(StoreError::CorruptionError),
    }
}

impl Codable for u8 {
    open spec fn enc(&self) -> Seq<u8> {
        seq![*self]
    }

    open spec fn decodes(b: Seq<u8>) -> bool {
        b.len() >= 1
    }

    open spec fn decoded_enc(b: Seq<u8>) -> Seq<u8> {
        if b.len() >= 1 {
            seq![b[0]]
        } else {
            Seq::empty()
        }
    }

    open spec fn decoded_by(&self, b: Seq<u8>) -> bool {
        b.len() >= 1 && *self == b[0]
    }

    fn encode_within(&self, max: usize) -> (r: Result<Vec<u8>, StoreError>) {
        let r = bincode_encode_u8(self, max);
        proof {
            if r is Ok {
                assert forall|tail: Seq<u8>|
                    (#[trigger] Self::decodes(self.enc() + tail))
                        && Self::decoded_enc(self.enc() + tail) == self.enc()
                        && self.decoded_by(self.enc() + tail) by {
                    assert((self.enc() + tail)[0] == *self);
                    assert(Self::decoded_enc(self.enc() + tail) =~= self.enc());
                }
            }
        }
        r
    }

    fn decode_from(b: &[u8]) -> (r: Result<Self, StoreError>) {
        let r = bincode_decode_u8(b);
        proof {
            match r {
                Ok(v) => {
                    assert(v.enc() =~= Self::decoded_enc(b@));
                },
                Err(_) => {},
            }
        }
        r
    }
}

impl Codable for String {
    open spec fn enc(&self) -> Seq<u8> {
        str_enc(self@)
    }

    open spec fn decodes(b: Seq<u8>) -> bool {
        str_dec(b) is Some
    }

    open spec fn decoded_enc(b: Seq<u8>) -> Seq<u8> {
        match str_dec(b) {
            Some(s) => str_enc(s),
            None => Seq::empty(),
        }
    }

    open spec fn decoded_by(&self, b: Seq<u8>) -> bool {
        str_dec(b) == Some(self@)
    }

    fn encode_within(&self, max: usize) -> (r: Result<Vec<u8>, StoreError>) {
        let r = bincode_encode_str(self, max);
        proof {
            if r is Ok {
                assert forall|tail: Seq<u8>|
                    (#[trigger] Self::decodes(self.enc() + tail))
                        && Self::decoded_enc(self.enc() + tail) == self.enc()
                        && self.decoded_by(self.enc() + tail) by {
                    assert(str_dec(str_enc(self@) + tail) == Some(self@));
                }
            }
        }
        r
    }

    fn decode_from(b: &[u8]) -> (r: Result<Self, StoreError>) {
        bincode_decode_str(b)
    }
}

} // verus!
