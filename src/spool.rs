//! The spool: an append-only run of frames, and the scan that reads it back.
use crate::codec::{decode_record, record_of, CodecError, DiskGourceLog};
use crate::record::GourceLogFormat;
use vstd::prelude::*;

verus! {

/// The two little-endian bytes of a frame length.
pub open spec fn le16(n: u16) -> Seq<u8> {
    seq![(n % 256) as u8, (n / 256) as u8]
}

/// The number that two little-endian bytes hold.
pub open spec fn le16_value(lo: u8, hi: u8) -> int {
    lo as int + 256 * hi as int
}

/// The bytes of one frame on disk: its length, then its payload.
pub open spec fn frame_bytes(f: DiskGourceLog) -> Seq<u8> {
    le16(f.size) + f.data@
}

/// The bytes of a batch of frames written one after the other.
pub open spec fn batch_bytes(fs: Seq<DiskGourceLog>) -> Seq<u8>
    decreases fs.len(),
{
    if fs.len() == 0 {
        Seq::empty()
    } else {
        batch_bytes(fs.drop_last()) + frame_bytes(fs.last())
    }
}

/// The payloads of the complete frames at the start of `s`. A final frame with
/// fewer bytes than its length announces ends the sequence.
pub open spec fn parse_frames(s: Seq<u8>) -> Seq<Seq<u8>>
    decreases s.len(),
{
    if s.len() < 2 {
        Seq::empty()
    } else {
        let n = le16_value(s[0], s[1]);
        if s.len() < 2 + n {
            Seq::empty()
        } else {
            seq![s.subrange(2, 2 + n)] + parse_frames(s.skip(2 + n))
        }
    }
}

/// Every payload decodes to a record.
pub open spec fn all_decode(frames: Seq<Seq<u8>>) -> bool {
    forall|i: int| 0 <= i < frames.len() ==> (record_of(#[trigger] frames[i]) is Some)
}

/// The frame length that two header bytes announce.
pub fn frame_size(header: [u8; 2]) -> (r: u16)
    ensures
        r as int == le16_value(header@[0], header@[1]),
{
    let lo = header[0] as u16;
    let hi = header[1] as u16;
    lo + 256 * hi
}

/// Appends one frame: its length as two little-endian bytes, then its payload.
pub fn log_write(writer: &mut Vec<u8>, log: &DiskGourceLog)
    ensures
        final(writer)@ == old(writer)@ + frame_bytes(*log),
{
    let ghost start = writer@;
    writer.push((log.size % 256) as u8);
    writer.push((log.size / 256) as u8);
    let mut i: usize = 0;
    while i < log.data.len()
        invariant
            i <= log.data@.len(),
            writer@ == start + le16(log.size) + log.data@.subrange(0, i as int),
        decreases log.data.len() - i,
    {
        writer.push(log.data[i]);
        assert(log.data@.subrange(0, i + 1) =~= log.data@.subrange(0, i as int).push(
            log.data@[i as int],
        ));
        i = i + 1;
    }
    assert(log.data@.subrange(0, i as int) =~= log.data@);
}

/// Appends a batch of frames in order, with nothing between them.
pub fn batch_log_write(writer: &mut Vec<u8>, logs: Vec<DiskGourceLog>)
    ensures
        final(writer)@ == old(writer)@ + batch_bytes(logs@),
{
    let ghost start = writer@;
    let mut i: usize = 0;
    while i < logs.len()
        invariant
            i <= logs@.len(),
            writer@ == start + batch_bytes(logs@.subrange(0, i as int)),
        decreases logs.len() - i,
    {
        log_write(writer, &logs[i]);
        proof {
            let s = logs@.subrange(0, i + 1);
            assert(s.drop_last() =~= logs@.subrange(0, i as int));
            assert(s.last() == logs@[i as int]);
        }
        i = i + 1;
    }
    assert(logs@.subrange(0, i as int) =~= logs@);
}

/// A restartable reader over the bytes of a spool.
pub struct DiskLogReader {
    data: Vec<u8>,
    pos: usize,
}

impl DiskLogReader {
    /// The bytes the reader holds.
    pub closed spec fn bytes(&self) -> Seq<u8> {
        self.data@
    }

    /// How far the reader has read.
    pub closed spec fn position(&self) -> int {
        self.pos as int
    }

    /// The bytes still to be read.
    pub open spec fn rest(&self) -> Seq<u8> {
        self.bytes().skip(self.position())
    }

    pub closed spec fn wf(&self) -> bool {
        self.pos <= self.data@.len()
    }

    /// A reader at the start of the given bytes.
    pub fn new(data: Vec<u8>) -> (r: DiskLogReader)
        ensures
            r.wf(),
            r.bytes() == data@,
            r.position() == 0,
            r.rest() == data@,
    {
        let r = DiskLogReader { data, pos: 0 };
        assert(r.data@.skip(0) =~= r.data@);
        r
    }

    /// Counts the complete frames from the start, reading lengths and skipping
    /// payloads, and leaves the reader where it was. A truncated final frame
    /// ends the count, as it ends the reading.
    pub fn record_count(&self) -> (r: u64)
        requires
            self.wf(),
        ensures
            r == parse_frames(self.bytes()).len(),
    {
        let mut p: usize = 0;
        let mut count: u64 = 0;
        assert(self.data@.skip(0) =~= self.data@);
        while self.data.len() - p >= 2
            invariant
                p <= self.data@.len(),
                count as int + parse_frames(self.data@.skip(p as int)).len() == parse_frames(
                    self.data@,
                ).len(),
                count as int <= p as int / 2,
            decreases self.data.len() - p,
        {
            let n = frame_size([self.data[p], self.data[p + 1]]) as usize;
            let ghost s = self.data@.skip(p as int);
            assert(s[0] == self.data@[p as int] && s[1] == self.data@[p + 1]);
            if self.data.len() - p - 2 < n {
                assert(parse_frames(s).len() == 0);
                return count;
            }
            assert(s.skip(2 + n as int) =~= self.data@.skip(p + 2 + n));
            p = p + 2 + n;
            count = count + 1;
        }
        assert(self.data@.skip(p as int).len() < 2);
        count
    }

    /// Reads the next frame's payload, or nothing at the end of the bytes or
    /// at a truncated final frame.
    pub fn next_frame(&mut self) -> (r: Option<Vec<u8>>)
        requires
            old(self).wf(),
        ensures
            final(self).wf(),
            final(self).bytes() == old(self).bytes(),
            parse_frames(old(self).rest()).len() == 0 ==> r is None && final(self).position()
                == old(self).position(),
            r matches Some(v) ==> final(self).position() == old(self).position() + 2 + v@.len(),
            parse_frames(old(self).rest()).len() > 0 ==> (r matches Some(v) && v@ == parse_frames(
                old(self).rest(),
            )[0] && parse_frames(final(self).rest()) == parse_frames(
                old(self).rest(),
            ).drop_first()),
    {
        let ghost s = self.data@.skip(self.pos as int);
        if self.data.len() - self.pos < 2 {
            return None;
        }
        let n = frame_size([self.data[self.pos], self.data[self.pos + 1]]) as usize;
        assert(s[0] == self.data@[self.pos as int] && s[1] == self.data@[self.pos + 1]);
        if self.data.len() - self.pos - 2 < n {
            return None;
        }
        let start = self.pos + 2;
        let mut out: Vec<u8> = Vec::new();
        let mut i: usize = 0;
        while i < n
            invariant
                start + n <= self.data@.len(),
                self.data@.len() <= usize::MAX,
                i <= n,
                out@ == self.data@.subrange(start as int, start + i),
            decreases n - i,
        {
            out.push(self.data[start + i]);
            assert(self.data@.subrange(start as int, start + i + 1) =~= self.data@.subrange(
                start as int,
                start + i,
            ).push(self.data@[start + i]));
            i = i + 1;
        }
        self.pos = start + n;
        proof {
            assert(out@ =~= s.subrange(2, 2 + n as int));
            assert(s.skip(2 + n as int) =~= self.data@.skip(self.pos as int));
            assert((seq![s.subrange(2, 2 + n as int)] + parse_frames(s.skip(2 + n as int))).drop_first()
                =~= parse_frames(s.skip(2 + n as int)));
        }
        Some(out)
    }

    /// Reads the next record: nothing at the end or at a truncated final frame,
    /// `CorruptRecord` for a complete frame that does not decode.
    pub fn next_record(&mut self) -> (r: Option<Result<GourceLogFormat, CodecError>>)
        requires
            old(self).wf(),
        ensures
            final(self).wf(),
            final(self).bytes() == old(self).bytes(),
            parse_frames(old(self).rest()).len() == 0 ==> r is None && final(self).position()
                == old(self).position(),
            parse_frames(old(self).rest()).len() > 0 ==> final(self).position() == old(
                self,
            ).position() + 2 + parse_frames(old(self).rest())[0].len(),
            parse_frames(old(self).rest()).len() > 0 ==> parse_frames(final(self).rest())
                == parse_frames(old(self).rest()).drop_first() && match r {
                Some(Ok(x)) => record_of(parse_frames(old(self).rest())[0]) == Some(x@),
                Some(Err(e)) => record_of(parse_frames(old(self).rest())[0]) is None && e
                    == CodecError::CorruptRecord,
                None => false,
            },
    {
        match self.next_frame() {
            None => None,
            Some(payload) => Some(decode_record(payload.as_slice())),
        }
    }
}

} // verus!
