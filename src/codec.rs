//! Encoding of one record to a length-prefixed frame, and back.
use crate::record::{GourceActionType, GourceLogFormat, LogView};
use vstd::prelude::*;
use vstd::utf8::encode_utf8;

verus! {

/// The largest payload a frame can carry: its length is a 16-bit number.
pub const MAX_FRAME_PAYLOAD: usize = 65535;

/// The last `n` bytes of `v`, most significant first.
pub open spec fn be_bytes(v: nat, n: nat) -> Seq<u8>
    decreases n,
{
    if n == 0 {
        Seq::empty()
    } else {
        be_bytes(v / 256, (n - 1) as nat).push((v % 256) as u8)
    }
}

/// A CBOR head: the major type and a value, in the shortest form that holds it.
pub open spec fn cbor_head(major: u8, v: nat) -> Seq<u8> {
    if v <= 23 {
        seq![(major * 32 + v) as u8]
    } else if v <= 0xff {
        seq![(major * 32 + 24) as u8, v as u8]
    } else if v <= 0xffff {
        seq![(major * 32 + 25) as u8] + be_bytes(v, 2)
    } else if v <= 0xffff_ffff {
        seq![(major * 32 + 26) as u8] + be_bytes(v, 4)
    } else {
        seq![(major * 32 + 27) as u8] + be_bytes(v, 8)
    }
}

/// A CBOR integer: major type 0 for `v >= 0`, major type 1 holding `-1 - v` otherwise.
pub open spec fn cbor_int(v: i64) -> Seq<u8> {
    if v < 0 {
        cbor_head(1, (-1 - v) as nat)
    } else {
        cbor_head(0, v as nat)
    }
}

/// A CBOR text string: its UTF-8 length, then its UTF-8 bytes.
pub open spec fn cbor_text(s: Seq<char>) -> Seq<u8> {
    cbor_head(3, encode_utf8(s).len()) + encode_utf8(s)
}

/// The CBOR bytes of the tuple (timestamp, username, action ordinal, file): an
/// array head of four items, then each item.
#[verifier::opaque]
pub open spec fn cbor_packed(timestamp: i64, username: Seq<char>, action: u8, file: Seq<char>) -> Seq<u8> {
    cbor_head(4, 4) + cbor_int(timestamp) + cbor_text(username) + cbor_head(0, action as nat)
        + cbor_text(file)
}

/// What packed CBOR bytes decode to as a tuple (timestamp, username, action ordinal, file),
/// if they decode at all.
pub uninterp spec fn cbor_tuple(bytes: Seq<u8>) -> Option<(i64, Seq<char>, u8, Seq<char>)>;

/// The payload of a record decodes back to that record.
pub open spec fn decodes_back(r: LogView) -> bool {
    record_of(payload_of(r)) == Some(r)
}

/// Every record of `s` decodes back from its payload.
pub open spec fn all_decode_back(s: Seq<LogView>) -> bool {
    forall|i: int| 0 <= i < s.len() ==> decodes_back(#[trigger] s[i])
}

/// Relies on serde_cbor::ser::to_vec_packed on a 4-tuple of an `i64`, a `&str`,
/// a `u8` and a `&str`: it writes an array head, then `serialize_i64`,
/// `serialize_str` and `serialize_u8` write each item with shortest heads; writing
/// into a `Vec` never fails; and serde_cbor::de::from_slice reads every such head
/// back, so the bytes decode to the same tuple.
#[verifier::external_body]
fn cbor_encode(timestamp: i64, username: &str, action: u8, file: &str) -> (r: Option<Vec<u8>>)
    ensures
        r is Some,
        r->Some_0@ == cbor_packed(timestamp, username@, action, file@),
        cbor_tuple(r->Some_0@) == Some((timestamp, username@, action, file@)),
{
    serde_cbor::ser::to_vec_packed(&(timestamp, username, action, file)).ok()
}

/// Relies on serde_cbor::de::from_slice: decodes a whole slice as a tuple, or fails.
#[verifier::external_body]
fn cbor_decode(bytes: &[u8]) -> (r: Option<(i64, String, u8, String)>)
    ensures
        r is Some <==> cbor_tuple(bytes@) is Some,
        r matches Some(t) ==> cbor_tuple(bytes@) == Some((t.0, t.1@, t.2, t.3@)),
{
    serde_cbor::de::from_slice::<(i64, String, u8, String)>(bytes).ok()
}

/// The payload bytes of a record.
pub open spec fn payload_of(r: LogView) -> Seq<u8> {
    cbor_packed(r.timestamp, r.username, r.action.ordinal(), r.file)
}

/// The record that payload bytes stand for, if they stand for one.
pub open spec fn record_of(bytes: Seq<u8>) -> Option<LogView> {
    match cbor_tuple(bytes) {
        Some(t) => match GourceActionType::from_ordinal_spec(t.2) {
            Some(a) => Some(LogView { timestamp: t.0, username: t.1, action: a, file: t.3 }),
            None => None,
        },
        None => None,
    }
}

/// Why a record could not be framed or read back.
#[derive(Debug, Clone, PartialEq, Eq)]
pub enum CodecError {
    /// The record's encoding is longer than a frame can hold.
    RecordTooLarge(GourceLogFormat),
    /// The bytes do not hold the four fields of a record.
    CorruptRecord,
}

/// A frame: a 16-bit length and exactly that many payload bytes.
#[derive(Debug, Clone, PartialEq, Eq)]
pub struct DiskGourceLog {
    pub size: u16,
    pub data: Vec<u8>,
}

impl DiskGourceLog {
    pub open spec fn wf(&self) -> bool {
        self.size as int == self.data@.len()
    }
}

impl GourceLogFormat {
    /// A copy of the record with the same value.
    pub fn duplicate(&self) -> (r: GourceLogFormat)
        ensures
            r@ == self@,
    {
        GourceLogFormat {
            timestamp: self.timestamp,
            username: self.username.clone(),
            kind: self.kind,
            file: self.file.clone(),
        }
    }
}

/// Frames an encoded record: succeeds exactly when the payload fits in a frame.
pub fn frame_payload(log: &GourceLogFormat, data: Vec<u8>) -> (r: Result<DiskGourceLog, CodecError>)
    ensures
        data@.len() <= MAX_FRAME_PAYLOAD ==> (r matches Ok(f) && f.wf() && f.data@ == data@),
        data@.len() > MAX_FRAME_PAYLOAD ==> (r matches Err(CodecError::RecordTooLarge(x))
            && x@ == log@),
{
    if data.len() <= MAX_FRAME_PAYLOAD {
        Ok(DiskGourceLog { size: data.len() as u16, data })
    } else {
        Err(CodecError::RecordTooLarge(log.duplicate()))
    }
}

/// Encodes a record into a frame. A record whose encoding is longer than a frame
/// can hold is refused with `RecordTooLarge`, carrying the record.
pub fn log_to_bytes(log: &GourceLogFormat) -> (r: Result<DiskGourceLog, CodecError>)
    ensures
        r is Ok <==> payload_of(log@).len() <= MAX_FRAME_PAYLOAD,
        r matches Ok(f) ==> f.wf() && f.data@ == payload_of(log@),
        r is Err ==> (r matches Err(CodecError::RecordTooLarge(x)) && x@ == log@),
        decodes_back(log@),
{
    let action = log.kind.to_ordinal();
    match cbor_encode(log.timestamp, log.username.as_str(), action, log.file.as_str()) {
        Some(data) => {
            proof {
                assert(GourceActionType::from_ordinal_spec(action) == Some(log.kind));
            }
            frame_payload(log, data)
        },
        None => {
            proof {
                assert(false);
            }
            Err(CodecError::RecordTooLarge(log.duplicate()))
        },
    }
}

/// Decodes a payload into a record: succeeds exactly when the bytes hold the
/// four fields of one.
pub fn decode_record(data: &[u8]) -> (r: Result<GourceLogFormat, CodecError>)
    ensures
        r is Ok <==> record_of(data@) is Some,
        r matches Ok(x) ==> record_of(data@) == Some(x@),
        r is Err ==> r == Err::<GourceLogFormat, CodecError>(CodecError::CorruptRecord),
{
    match cbor_decode(data) {
        Some(t) => match GourceActionType::from_ordinal(t.2) {
            Some(kind) => Ok(GourceLogFormat { timestamp: t.0, username: t.1, kind, file: t.3 }),
            None => Err(CodecError::CorruptRecord),
        },
        None => Err(CodecError::CorruptRecord),
    }
}

/// Encodes every record of a batch, or fails on the first that cannot be framed.
pub fn serialize_logs(changes: &[GourceLogFormat]) -> (r: Result<Vec<DiskGourceLog>, CodecError>)
    ensures
        r is Ok <==> forall|i: int|
            0 <= i < changes@.len() ==> payload_of(#[trigger] changes@[i]@).len()
                <= MAX_FRAME_PAYLOAD,
        r matches Ok(v) ==> v@.len() == changes@.len() && forall|i: int|
            0 <= i < v@.len() ==> (#[trigger] v@[i]).wf() && v@[i].data@ == payload_of(
                changes@[i]@,
            ) && decodes_back(changes@[i]@),
        r is Err ==> (r matches Err(CodecError::RecordTooLarge(x)) && exists|i: int|
            0 <= i < changes@.len() && #[trigger] changes@[i]@ == x@ && payload_of(x@).len()
                > MAX_FRAME_PAYLOAD),
{
    let mut out: Vec<DiskGourceLog> = Vec::new();
    let mut i: usize = 0;
    while i < changes.len()
        invariant
            i <= changes@.len(),
            out@.len() == i,
            forall|k: int|
                0 <= k < i ==> (#[trigger] out@[k]).wf() && out@[k].data@ == payload_of(
                    changes@[k]@,
                ) && decodes_back(changes@[k]@),
            forall|k: int|
                0 <= k < i ==> payload_of(#[trigger] changes@[k]@).len() <= MAX_FRAME_PAYLOAD,
        decreases changes.len() - i,
    {
        match log_to_bytes(&changes[i]) {
            Ok(f) => out.push(f),
            Err(e) => {
                proof {
                    assert(payload_of(changes@[i as int]@).len() > MAX_FRAME_PAYLOAD);
                }
                return Err(e);
            },
        }
        i = i + 1;
    }
    Ok(out)
}

} // verus!
