//! The encoding of the record of an applied update, as the results tree
//! keeps it: the id, the kind and size of the batch, the outcome, and the time
//! the applier took.

use vstd::prelude::*;
use vstd::utf8::{decode_utf8, encode_utf8, encode_utf8_decode_utf8, encode_utf8_valid_utf8, valid_utf8};
use crate::update::{DetailedDuration, UpdateStatus, UpdateStatusView, UpdateType};
use crate::wire::{
    dec_bytes, dec_u64, enc_bytes, enc_u64, lemma_bytes_round_trip, lemma_enc_u64_len,
    lemma_u64_round_trip, put_bytes, put_u64, take_bytes, take_u64,
};

verus! {

/// The byte that stands for the kind of an update.
pub open spec fn kind_byte(t: UpdateType) -> u8 {
    match t {
        UpdateType::DocumentsAddition { .. } => 0,
        UpdateType::DocumentsDeletion { .. } => 1,
        UpdateType::SynonymsAddition { .. } => 2,
        UpdateType::SynonymsDeletion { .. } => 3,
        UpdateType::Malformed { .. } => 4,
    }
}

/// The kind that `kind` stands for, with a batch of `number` items.
pub open spec fn kind_of_byte(kind: u8, number: usize) -> UpdateType {
    if kind == 0 {
        UpdateType::DocumentsAddition { number }
    } else if kind == 1 {
        UpdateType::DocumentsDeletion { number }
    } else if kind == 2 {
        UpdateType::SynonymsAddition { number }
    } else if kind == 3 {
        UpdateType::SynonymsDeletion { number }
    } else {
        UpdateType::Malformed { number }
    }
}

/// The bytes of an outcome: 0 for success, 1 and the message for a failure.
pub open spec fn enc_result(r: Result<(), Seq<char>>) -> Seq<u8> {
    match r {
        Ok(_) => seq![0u8],
        Err(message) => seq![1u8] + enc_bytes(encode_utf8(message)),
    }
}

/// The outcome that stands at `pos`.
pub open spec fn dec_result(s: Seq<u8>, pos: int) -> Option<(Result<(), Seq<char>>, int)> {
    if 0 <= pos < s.len() && s[pos] == 0 {
        Some((Ok(()), pos + 1))
    } else if 0 <= pos < s.len() && s[pos] == 1 {
        match dec_bytes(s, pos + 1) {
            Some((b, q)) => if valid_utf8(b) {
                Some((Err(decode_utf8(b)), q))
            } else {
                None
            },
            None => None,
        }
    } else {
        None
    }
}

/// The bytes of a record.
pub open spec fn enc_status(v: UpdateStatusView) -> Seq<u8> {
    enc_u64(v.update_id) + seq![kind_byte(v.update_type)] + enc_u64(
        v.update_type.number_spec() as u64,
    ) + enc_result(v.result) + enc_u64(v.detailed_duration.main)
}

/// The record that the bytes `s` are the encoding of, if they are one.
pub open spec fn dec_status(s: Seq<u8>) -> Option<UpdateStatusView> {
    match dec_u64(s, 0) {
        Some((update_id, after_id)) => if after_id < s.len() && s[after_id] <= 4 {
            match dec_u64(s, after_id + 1) {
                Some((number, after_number)) => if number <= usize::MAX {
                    match dec_result(s, after_number) {
                        Some((result, after_result)) => match dec_u64(s, after_result) {
                            Some((main, end)) => if end == s.len() {
                                Some(
                                    UpdateStatusView {
                                        update_id,
                                        update_type: kind_of_byte(s[after_id], number as usize),
                                        result,
                                        detailed_duration: DetailedDuration { main },
                                    },
                                )
                            } else {
                                None
                            },
                            None => None,
                        },
                        None => None,
                    }
                } else {
                    None
                },
                None => None,
            }
        } else {
            None
        },
        None => None,
    }
}

/// A record that can be written: the length of its message fits in 64 bits,
/// as that of every string in memory does.
pub open spec fn status_encodable(v: UpdateStatusView) -> bool {
    match v.result {
        Ok(_) => true,
        Err(message) => encode_utf8(message).len() <= u64::MAX,
    }
}

/// Encoding a record and decoding the bytes gives the record back.
pub proof fn lemma_status_round_trip(v: UpdateStatusView)
    requires
        status_encodable(v),
    ensures
        dec_status(enc_status(v)) == Some(v),
{
    let s = enc_status(v);
    let number = v.update_type.number_spec() as u64;
    let e_res = enc_result(v.result);
    lemma_enc_u64_len(v.update_id);
    lemma_enc_u64_len(number);
    lemma_enc_u64_len(v.detailed_duration.main);
    assert(s.subrange(0, 8) =~= enc_u64(v.update_id));
    lemma_u64_round_trip(s, 0, v.update_id);
    assert(s[8] == kind_byte(v.update_type));
    assert(s.subrange(9, 17) =~= enc_u64(number));
    lemma_u64_round_trip(s, 9, number);
    assert(s.subrange(17, 17 + e_res.len() as int) =~= e_res);
    assert(s[17] == e_res[0]);
    match v.result {
        Ok(u) => {
            assert(u == ());
        },
        Err(message) => {
            let b = encode_utf8(message);
            let eb = enc_bytes(b);
            assert(s.subrange(18, 18 + eb.len() as int) =~= eb);
            lemma_bytes_round_trip(s, 18, b);
            encode_utf8_valid_utf8(message);
            encode_utf8_decode_utf8(message);
        },
    }
    let after_result: int = 17 + e_res.len() as int;
    assert(dec_result(s, 17) == Some((v.result, after_result)));
    assert(s.subrange(after_result, after_result + 8) =~= enc_u64(v.detailed_duration.main));
    lemma_u64_round_trip(s, after_result, v.detailed_duration.main);
    assert(kind_of_byte(kind_byte(v.update_type), number as usize) == v.update_type);
}

/// `String::from_utf8` of the standard library: the string whose UTF-8
/// encoding the bytes are, and `None` exactly where they are not valid UTF-8.
#[verifier::external_body]
fn string_from_utf8(bytes: Vec<u8>) -> (r: Option<String>)
    ensures
        r is Some <==> valid_utf8(bytes@),
        r is Some ==> r->0@ == decode_utf8(bytes@),
{
    String::from_utf8(bytes).ok()
}

fn kind_to_byte(t: &UpdateType) -> (b: u8)
    ensures
        b == kind_byte(*t),
{
    match t {
        UpdateType::DocumentsAddition { .. } => 0,
        UpdateType::DocumentsDeletion { .. } => 1,
        UpdateType::SynonymsAddition { .. } => 2,
        UpdateType::SynonymsDeletion { .. } => 3,
        UpdateType::Malformed { .. } => 4,
    }
}

fn kind_from_byte(kind: u8, number: usize) -> (t: UpdateType)
    ensures
        t == kind_of_byte(kind, number),
{
    if kind == 0 {
        UpdateType::DocumentsAddition { number }
    } else if kind == 1 {
        UpdateType::DocumentsDeletion { number }
    } else if kind == 2 {
        UpdateType::SynonymsAddition { number }
    } else if kind == 3 {
        UpdateType::SynonymsDeletion { number }
    } else {
        UpdateType::Malformed { number }
    }
}

/// Encodes a record for the results tree.
pub fn encode_status(status: &UpdateStatus) -> (bytes: Vec<u8>)
    ensures
        bytes@ == enc_status(status@),
        dec_status(bytes@) == Some(status@),
{
    let mut out: Vec<u8> = Vec::new();
    put_u64(&mut out, status.update_id);
    out.push(kind_to_byte(&status.update_type));
    put_u64(&mut out, status.update_type.number() as u64);
    match &status.result {
        Ok(_) => {
            out.push(0u8);
        },
        Err(message) => {
            out.push(1u8);
            let text = message.as_str().as_bytes();
            let length = text.len();
            assert(encode_utf8(message@).len() == length);
            put_bytes(&mut out, text);
        },
    }
    put_u64(&mut out, status.detailed_duration.main);
    proof {
        assert(out@ =~= enc_status(status@));
        lemma_status_round_trip(status@);
    }
    out
}

/// Decodes a record of the results tree: `Some` record exactly where the
/// bytes are the encoding of one, and then that record.
pub fn decode_status(bytes: &[u8]) -> (r: Option<UpdateStatus>)
    ensures
        match r {
            Some(status) => dec_status(bytes@) == Some(status@),
            None => dec_status(bytes@) is None,
        },
{
    let (update_id, after_id) = match take_u64(bytes, 0) {
        Some(x) => x,
        None => {
            return None;
        },
    };
    if after_id >= bytes.len() || bytes[after_id] > 4 {
        return None;
    }
    let kind = bytes[after_id];
    let (number, after_number) = match take_u64(bytes, after_id + 1) {
        Some(x) => x,
        None => {
            return None;
        },
    };
    if number > usize::MAX as u64 {
        return None;
    }
    if after_number >= bytes.len() {
        return None;
    }
    let (result, after_result): (Result<(), String>, usize) = if bytes[after_number] == 0 {
        (Ok(()), after_number + 1)
    } else if bytes[after_number] == 1 {
        match take_bytes(bytes, after_number + 1) {
            Some((b, q)) => match string_from_utf8(b) {
                Some(message) => (Err(message), q),
                None => {
                    return None;
                },
            },
            None => {
                return None;
            },
        }
    } else {
        return None;
    };
    let (main, end) = match take_u64(bytes, after_result) {
        Some(x) => x,
        None => {
            return None;
        },
    };
    if end != bytes.len() {
        return None;
    }
    Some(
        UpdateStatus {
            update_id,
            update_type: kind_from_byte(kind, number as usize),
            result,
            detailed_duration: DetailedDuration { main },
        },
    )
}

} // verus!
