//! The byte layout of the records the indexer stores: integers as 8
//! little-endian bytes, byte strings and texts (as UTF-8) prefixed by their
//! length.

use crate::model::hashing::push_bytes;
use vstd::bytes::{lemma_auto_spec_u64_to_from_le_bytes, spec_u64_from_le_bytes, spec_u64_to_le_bytes, u64_from_le_bytes, u64_to_le_bytes};
use vstd::prelude::*;
use vstd::slice::{slice_subrange, slice_to_vec};
use vstd::utf8::{encode_utf8, encode_utf8_decode_utf8, encode_utf8_valid_utf8, valid_utf8};

verus! {

/// An integer as 8 little-endian bytes.
pub open spec fn enc_u64(x: u64) -> Seq<u8> {
    spec_u64_to_le_bytes(x)
}

/// A byte string, prefixed by its length.
pub open spec fn enc_bytes(b: Seq<u8>) -> Seq<u8> {
    enc_u64(b.len() as u64) + b
}

/// A text as its UTF-8 bytes, prefixed by their number.
pub open spec fn enc_str(s: Seq<char>) -> Seq<u8> {
    enc_bytes(encode_utf8(s))
}

pub proof fn lemma_enc_u64_len(x: u64)
    ensures
        enc_u64(x).len() == 8,
{
    lemma_auto_spec_u64_to_from_le_bytes();
}

/// An integer's bytes followed by more bytes give back the integer and
/// the rest.
pub proof fn lemma_enc_u64_split(x1: u64, r1: Seq<u8>, x2: u64, r2: Seq<u8>)
    requires
        enc_u64(x1) + r1 == enc_u64(x2) + r2,
    ensures
        x1 == x2,
        r1 == r2,
{
    lemma_auto_spec_u64_to_from_le_bytes();
    let b = enc_u64(x1) + r1;
    assert(b.subrange(0, 8) =~= enc_u64(x1));
    assert((enc_u64(x2) + r2).subrange(0, 8) =~= enc_u64(x2));
    assert(spec_u64_from_le_bytes(enc_u64(x1)) == spec_u64_from_le_bytes(enc_u64(x2)));
    assert(r1 =~= b.subrange(8, b.len() as int));
    assert(r2 =~= (enc_u64(x2) + r2).subrange(8, b.len() as int));
}

/// A byte string's encoding followed by more bytes gives back the byte
/// string and the rest.
pub proof fn lemma_enc_bytes_split(b1: Seq<u8>, r1: Seq<u8>, b2: Seq<u8>, r2: Seq<u8>)
    requires
        b1.len() <= u64::MAX,
        b2.len() <= u64::MAX,
        enc_bytes(b1) + r1 == enc_bytes(b2) + r2,
    ensures
        b1 == b2,
        r1 == r2,
{
    assert(enc_bytes(b1) + r1 =~= enc_u64(b1.len() as u64) + (b1 + r1));
    assert(enc_bytes(b2) + r2 =~= enc_u64(b2.len() as u64) + (b2 + r2));
    lemma_enc_u64_split(b1.len() as u64, b1 + r1, b2.len() as u64, b2 + r2);
    assert(b1 =~= (b1 + r1).subrange(0, b1.len() as int));
    assert(b2 =~= (b2 + r2).subrange(0, b1.len() as int));
    assert(r1 =~= (b1 + r1).subrange(b1.len() as int, (b1 + r1).len() as int));
    assert(r2 =~= (b2 + r2).subrange(b1.len() as int, (b1 + r1).len() as int));
}

/// A text's encoding followed by more bytes gives back the text and the
/// rest.
pub proof fn lemma_enc_str_split(s1: Seq<char>, r1: Seq<u8>, s2: Seq<char>, r2: Seq<u8>)
    requires
        encode_utf8(s1).len() <= u64::MAX,
        encode_utf8(s2).len() <= u64::MAX,
        enc_str(s1) + r1 == enc_str(s2) + r2,
    ensures
        s1 == s2,
        r1 == r2,
{
    lemma_enc_bytes_split(encode_utf8(s1), r1, encode_utf8(s2), r2);
    encode_utf8_decode_utf8(s1);
    encode_utf8_decode_utf8(s2);
}

/// Calls `String::from_utf8`. Trusted: it succeeds exactly when the bytes
/// are valid UTF-8, and the string it gives encodes to those bytes.
#[verifier::external_body]
fn string_from_utf8(bytes: Vec<u8>) -> (res: Option<String>)
    ensures
        res is Some <==> valid_utf8(bytes@),
        res matches Some(s) ==> encode_utf8(s@) == bytes@,
{
    String::from_utf8(bytes).ok()
}

pub fn put_u64(out: &mut Vec<u8>, x: u64)
    ensures
        final(out)@ == old(out)@ + enc_u64(x),
{
    let b = u64_to_le_bytes(x);
    push_bytes(out, b.as_slice());
}

pub fn put_bytes(out: &mut Vec<u8>, b: &[u8])
    ensures
        final(out)@ == old(out)@ + enc_bytes(b@),
{
    put_u64(out, b.len() as u64);
    push_bytes(out, b);
    assert(out@ =~= old(out)@ + enc_bytes(b@));
}

pub fn put_str(out: &mut Vec<u8>, s: &String)
    ensures
        final(out)@ == old(out)@ + enc_str(s@),
{
    put_bytes(out, s.as_str().as_bytes());
}

/// Reads an integer at `pos`.
pub fn get_u64(b: &[u8], pos: usize) -> (res: Option<(u64, usize)>)
    ensures
        res matches Some((x, end)) ==> end == pos + 8 && end <= b@.len() && b@.subrange(pos as int, end as int) == enc_u64(x),
        forall|x: u64| pos + 8 <= b@.len() && #[trigger] b@.subrange(pos as int, pos + 8) == enc_u64(x)
            ==> res == Some((x, (pos + 8) as usize)),
        pos + 8 <= b@.len() ==> res is Some,
{
    proof {
        lemma_auto_spec_u64_to_from_le_bytes();
    }
    if pos > b.len() || b.len() - pos < 8 {
        return None;
    }
    let end = pos + 8;
    let s = slice_subrange(b, pos, end);
    let x = u64_from_le_bytes(s);
    Some((x, end))
}

/// Reads a length-prefixed byte string at `pos`.
pub fn get_bytes(b: &[u8], pos: usize) -> (res: Option<(Vec<u8>, usize)>)
    ensures
        res matches Some((v, end)) ==> pos <= end <= b@.len() && b@.subrange(pos as int, end as int) == enc_bytes(v@),
        forall|s: Seq<u8>| pos + enc_bytes(s).len() <= b@.len() && #[trigger] b@.subrange(pos as int, pos + enc_bytes(s).len()) == enc_bytes(s)
            ==> (res matches Some((v, end)) && v@ == s && end == pos + enc_bytes(s).len()),
{
    proof {
        lemma_auto_spec_u64_to_from_le_bytes();
    }
    let (len, start) = match get_u64(b, pos) {
        Some(r) => r,
        None => {
            proof {
                assert forall|s: Seq<u8>| pos + enc_bytes(s).len() <= b@.len() implies
                    #[trigger] b@.subrange(pos as int, pos + enc_bytes(s).len()) != enc_bytes(s) by {
                    lemma_enc_u64_len(s.len() as u64);
                }
            }
            return None;
        },
    };
    if b.len() - start < len as usize || len > (b.len() - start) as u64 {
        proof {
            assert forall|s: Seq<u8>| pos + enc_bytes(s).len() <= b@.len() implies
                #[trigger] b@.subrange(pos as int, pos + enc_bytes(s).len()) != enc_bytes(s) by {
                lemma_enc_u64_len(s.len() as u64);
                if b@.subrange(pos as int, pos + enc_bytes(s).len()) == enc_bytes(s) {
                    assert(b@.subrange(pos as int, pos + 8) =~= enc_u64(s.len() as u64));
                }
            }
        }
        return None;
    }
    let end = start + len as usize;
    let v = slice_to_vec(slice_subrange(b, start, end));
    proof {
        assert(b@.subrange(pos as int, end as int) =~= enc_bytes(v@));
        assert forall|s: Seq<u8>| pos + enc_bytes(s).len() <= b@.len() && #[trigger] b@.subrange(pos as int, pos + enc_bytes(s).len()) == enc_bytes(s)
            implies v@ == s && end == pos + enc_bytes(s).len() by {
            lemma_enc_u64_len(s.len() as u64);
            let w = b@.subrange(pos as int, pos + enc_bytes(s).len());
            assert(b@.subrange(pos as int, pos + 8) =~= w.subrange(0, 8));
            assert(w.subrange(0, 8) =~= enc_u64(s.len() as u64));
            assert(s.len() == len);
            assert(w.subrange(8, 8 + s.len() as int) =~= s);
            assert(v@ =~= w.subrange(8, 8 + s.len() as int));
        }
    }
    Some((v, end))
}

/// Reads a length-prefixed UTF-8 text at `pos`.
pub fn get_str(b: &[u8], pos: usize) -> (res: Option<(String, usize)>)
    ensures
        res matches Some((v, end)) ==> pos <= end <= b@.len() && b@.subrange(pos as int, end as int) == enc_str(v@),
        forall|s: Seq<char>| pos + enc_str(s).len() <= b@.len() && #[trigger] b@.subrange(pos as int, pos + enc_str(s).len()) == enc_str(s)
            ==> (res matches Some((v, end)) && v@ == s && end == pos + enc_str(s).len()),
{
    match get_bytes(b, pos) {
        None => {
            proof {
                assert forall|s: Seq<char>| pos + enc_str(s).len() <= b@.len() implies
                    #[trigger] b@.subrange(pos as int, pos + enc_str(s).len()) != enc_str(s) by {
                    if b@.subrange(pos as int, pos + enc_str(s).len()) == enc_str(s) {
                        assert(b@.subrange(pos as int, pos + enc_bytes(encode_utf8(s)).len()) == enc_bytes(encode_utf8(s)));
                    }
                }
            }
            None
        },
        Some((bytes, end)) => {
            let ghost bv = bytes@;
            match string_from_utf8(bytes) {
                None => {
                    proof {
                        assert forall|s: Seq<char>| pos + enc_str(s).len() <= b@.len() implies
                            #[trigger] b@.subrange(pos as int, pos + enc_str(s).len()) != enc_str(s) by {
                            if b@.subrange(pos as int, pos + enc_str(s).len()) == enc_str(s) {
                                assert(b@.subrange(pos as int, pos + enc_bytes(encode_utf8(s)).len()) == enc_bytes(encode_utf8(s)));
                                encode_utf8_valid_utf8(s);
                            }
                        }
                    }
                    None
                },
                Some(text) => {
                    proof {
                        assert forall|s: Seq<char>| pos + enc_str(s).len() <= b@.len() && #[trigger] b@.subrange(pos as int, pos + enc_str(s).len()) == enc_str(s)
                            implies text@ == s && end == pos + enc_str(s).len() by {
                            assert(b@.subrange(pos as int, pos + enc_bytes(encode_utf8(s)).len()) == enc_bytes(encode_utf8(s)));
                            assert(bv == encode_utf8(s));
                            encode_utf8_decode_utf8(s);
                            encode_utf8_decode_utf8(text@);
                        }
                    }
                    Some((text, end))
                },
            }
        },
    }
}

} // verus!
