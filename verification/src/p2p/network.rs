//! Headers of peer-to-peer messages: what a sender signs, and the checks a
//! receiver makes before handling a message.

use crate::model::crypto::SignedByValidator;
use crate::model::hashing::{hex_encode, hex_lower, lemma_hex_len};
use vstd::prelude::*;

verus! {

/// The bytes of a message that its header commits to.
#[derive(Debug, Clone, PartialEq, Eq)]
pub struct HeaderSignableData(pub Vec<u8>);

/// What a message commits to in its header.
pub trait IntoHeaderSignableData {
    fn to_header_signable_data(&self) -> HeaderSignableData;
}

/// When a message was sent, in milliseconds, and what it commits to.
#[derive(Debug, Clone, PartialEq, Eq)]
pub struct MsgHeader {
    pub timestamp: u128,
    pub hash: HeaderSignableData,
}

/// A message with its header, signed by the sending validator.
pub struct MsgWithHeader<T: IntoHeaderSignableData> {
    pub header: SignedByValidator<MsgHeader>,
    pub msg: T,
}

/// Why a received message is refused before it is handled.
#[derive(Debug, Clone, Copy, PartialEq, Eq)]
pub enum HeaderError {
    /// The header's timestamp is more than an hour away from the clock.
    TimestampTooFar,
    /// The header's signature does not verify.
    InvalidSignature,
    /// The header commits to other bytes than the message's.
    HashMismatch,
}

/// Largest distance, in milliseconds, between a header's timestamp and the
/// receiver's clock.
pub const MAX_TIMESTAMP_DRIFT_MS: u128 = 3600000;

/// The verdict on a received header.
pub open spec fn spec_verify_msg_header(
    timestamp: u128,
    now: u128,
    signature_valid: bool,
    signed_hash: Seq<u8>,
    msg_hash: Seq<u8>,
) -> Result<(), HeaderError> {
    let drift = if timestamp >= now { timestamp - now } else { now - timestamp };
    if drift > MAX_TIMESTAMP_DRIFT_MS {
        Err(HeaderError::TimestampTooFar)
    } else if !signature_valid {
        Err(HeaderError::InvalidSignature)
    } else if signed_hash != msg_hash {
        Err(HeaderError::HashMismatch)
    } else {
        Ok(())
    }
}

/// Checks a received header, in order: its timestamp is within an hour of
/// `now`, its signature verifies (`signature_valid`, as checked by the
/// caller's cryptography), and it commits to `msg_data`, what the message
/// itself gives to sign.
pub fn verify_msg_header(
    header: &MsgHeader,
    msg_data: &HeaderSignableData,
    signature_valid: bool,
    now: u128,
) -> (res: Result<(), HeaderError>)
    ensures
        res == spec_verify_msg_header(header.timestamp, now, signature_valid, header.hash.0@, msg_data.0@),
{
    let drift = if header.timestamp >= now { header.timestamp - now } else { now - header.timestamp };
    if drift > MAX_TIMESTAMP_DRIFT_MS {
        return Err(HeaderError::TimestampTooFar);
    }
    if !signature_valid {
        return Err(HeaderError::InvalidSignature);
    }
    if header.hash.0.len() != msg_data.0.len() {
        return Err(HeaderError::HashMismatch);
    }
    let mut i: usize = 0;
    while i < msg_data.0.len()
        invariant
            drift == (if header.timestamp >= now { header.timestamp - now } else { now - header.timestamp }),
            drift <= MAX_TIMESTAMP_DRIFT_MS,
            signature_valid,
            header.hash.0@.len() == msg_data.0@.len(),
            i <= msg_data.0@.len(),
            forall|j: int| 0 <= j < i ==> header.hash.0@[j] == msg_data.0@[j],
        decreases msg_data.0@.len() - i,
    {
        if header.hash.0[i] != msg_data.0[i] {
            return Err(HeaderError::HashMismatch);
        }
        i = i + 1;
    }
    assert(header.hash.0@ =~= msg_data.0@);
    Ok(())
}

/// How a header's hash is shown: "empty", its hex when shorter than 12
/// bytes, else the first 12 hex characters followed by "...".
pub open spec fn header_hash_label(hash: Seq<u8>) -> Seq<char> {
    if hash.len() == 0 {
        seq!['e', 'm', 'p', 't', 'y']
    } else if hash.len() < 12 {
        hex_lower(hash)
    } else {
        hex_lower(hash).take(12) + seq!['.', '.', '.']
    }
}

impl MsgHeader {
    /// The header's hash as it is shown in logs.
    pub fn hash_label(&self) -> (res: String)
        ensures
            res@ == header_hash_label(self.hash.0@),
    {
        let n = self.hash.0.len();
        if n == 0 {
            let empty = "empty";
            proof {
                reveal_strlit("empty");
                assert(empty@ =~= header_hash_label(self.hash.0@));
            }
            return String::from_str(empty);
        }
        let hex = hex_encode(self.hash.0.as_slice());
        if n < 12 {
            return hex;
        }
        proof {
            lemma_hex_len(self.hash.0@);
        }
        let start = hex.as_str().substring_char(0, 12).to_owned();
        let dots = "...";
        proof {
            reveal_strlit("...");
        }
        let res = start.concat(dots);
        proof {
            assert(res@ =~= header_hash_label(self.hash.0@));
        }
        res
    }
}

} // verus!
