//! Ingestion: batches of records go either to an in-memory buffer or, encoded,
//! to the spool; finishing sorts whichever was filled.
use crate::codec::{
    all_decode_back, decodes_back, log_to_bytes, payload_of, CodecError, MAX_FRAME_PAYLOAD,
};
use crate::external::{external_sort, external_sort_outcome, SortedRun};
use crate::record::{sorted_logs, views, GourceLogFormat, LogView};
use crate::sort::sort_records;
use crate::spool::{le16, log_write};
use vstd::prelude::*;

verus! {

/// The spool bytes of a sequence of records: each one's frame, in order.
pub open spec fn record_frames(s: Seq<LogView>) -> Seq<u8>
    decreases s.len(),
{
    if s.len() == 0 {
        Seq::empty()
    } else {
        record_frames(s.drop_last()) + le16(payload_of(s.last()).len() as u16) + payload_of(
            s.last(),
        )
    }
}

/// Every record of `s` has a payload that fits in a frame.
pub open spec fn all_fit(s: Seq<LogView>) -> bool {
    forall|i: int| 0 <= i < s.len() ==> payload_of(#[trigger] s[i]).len() <= MAX_FRAME_PAYLOAD
}

/// Encodes a whole batch into spool bytes, or nothing of it: the first record
/// that cannot be framed fails the batch.
pub fn encode_batch(batch: &[GourceLogFormat]) -> (r: Result<Vec<u8>, CodecError>)
    ensures
        r is Ok <==> all_fit(views(batch@)),
        r matches Ok(b) ==> b@ == record_frames(views(batch@)) && all_decode_back(views(batch@)),
        r is Err ==> (r matches Err(CodecError::RecordTooLarge(x)) && exists|i: int|
            0 <= i < batch@.len() && #[trigger] batch@[i]@ == x@ && payload_of(x@).len()
                > MAX_FRAME_PAYLOAD),
{
    let mut out: Vec<u8> = Vec::new();
    let mut i: usize = 0;
    assert(views(batch@.subrange(0, 0)) =~= Seq::<LogView>::empty());
    while i < batch.len()
        invariant
            i <= batch@.len(),
            all_fit(views(batch@.subrange(0, i as int))),
            all_decode_back(views(batch@.subrange(0, i as int))),
            out@ == record_frames(views(batch@.subrange(0, i as int))),
        decreases batch.len() - i,
    {
        match log_to_bytes(&batch[i]) {
            Ok(f) => {
                log_write(&mut out, &f);
                proof {
                    let s = views(batch@.subrange(0, i + 1));
                    assert(s.drop_last() =~= views(batch@.subrange(0, i as int)));
                    assert(s.last() == batch@[i as int]@);
                    assert(f.size as int == payload_of(s.last()).len());
                    assert forall|k: int| 0 <= k < s.len() implies payload_of(#[trigger] s[k]).len()
                        <= MAX_FRAME_PAYLOAD by {
                        if k < i {
                            assert(s[k] == s.drop_last()[k]);
                        }
                    }
                    assert forall|k: int| 0 <= k < s.len() implies decodes_back(#[trigger] s[k]) by {
                        if k < i {
                            assert(s[k] == s.drop_last()[k]);
                        }
                    }
                }
            },
            Err(e) => {
                proof {
                    assert(views(batch@)[i as int] == batch@[i as int]@);
                    assert(payload_of(views(batch@)[i as int]).len() > MAX_FRAME_PAYLOAD);
                }
                return Err(e);
            },
        }
        i = i + 1;
    }
    assert(batch@.subrange(0, i as int) =~= batch@);
    Ok(out)
}

/// Receives the batches of one run, in one of two modes fixed at creation:
/// buffered in memory, or encoded into the spool.
pub struct IngestionAggregator {
    spooled: bool,
    buffer: Vec<GourceLogFormat>,
    spool: Vec<u8>,
    failed: u64,
}

impl IngestionAggregator {
    pub closed spec fn is_spooled(&self) -> bool {
        self.spooled
    }

    /// The records held in memory, in the order they came.
    pub closed spec fn buffered(&self) -> Seq<LogView> {
        views(self.buffer@)
    }

    /// The spool bytes written so far.
    pub closed spec fn spool_bytes(&self) -> Seq<u8> {
        self.spool@
    }

    /// How many batches were dropped because they could not be encoded.
    pub closed spec fn failures(&self) -> int {
        self.failed as int
    }

    pub fn new(spooled: bool) -> (r: IngestionAggregator)
        ensures
            r.is_spooled() == spooled,
            r.buffered() == Seq::<LogView>::empty(),
            r.spool_bytes() == Seq::<u8>::empty(),
            r.failures() == 0,
    {
        let r = IngestionAggregator { spooled, buffer: Vec::new(), spool: Vec::new(), failed: 0 };
        assert(r.buffered() =~= Seq::<LogView>::empty());
        r
    }

    /// How many batches were dropped.
    pub fn failed_batches(&self) -> (r: u64)
        ensures
            r == self.failures(),
    {
        self.failed
    }

    /// Takes one batch. Buffered, its records are appended in order. Spooled,
    /// its frames are appended together, or, when a record's encoding does not
    /// fit in a frame, the batch is dropped whole, counted, and the error
    /// handed back.
    pub fn add_batch(&mut self, batch: Vec<GourceLogFormat>) -> (r: Result<(), CodecError>)
        requires
            old(self).failures() < u64::MAX,
        ensures
            final(self).is_spooled() == old(self).is_spooled(),
            !old(self).is_spooled() ==> {
                &&& r is Ok
                &&& final(self).buffered() == old(self).buffered() + views(batch@)
                &&& final(self).spool_bytes() == old(self).spool_bytes()
                &&& final(self).failures() == old(self).failures()
            },
            old(self).is_spooled() ==> final(self).buffered() == old(self).buffered(),
            old(self).is_spooled() ==> (r is Ok <==> all_fit(views(batch@))),
            old(self).is_spooled() && r is Ok ==> {
                &&& all_fit(views(batch@))
                &&& all_decode_back(views(batch@))
                &&& final(self).spool_bytes() == old(self).spool_bytes() + record_frames(
                    views(batch@),
                )
                &&& final(self).failures() == old(self).failures()
            },
            old(self).is_spooled() && r is Err ==> {
                &&& final(self).spool_bytes() == old(self).spool_bytes()
                &&& final(self).failures() == old(self).failures() + 1
            },
            r matches Err(CodecError::RecordTooLarge(x)) ==> exists|i: int|
                0 <= i < batch@.len() && #[trigger] batch@[i]@ == x@ && payload_of(x@).len()
                    > MAX_FRAME_PAYLOAD,
    {
        if self.spooled {
            match encode_batch(batch.as_slice()) {
                Ok(bytes) => {
                    let ghost before = self.spool@;
                    let mut k: usize = 0;
                    while k < bytes.len()
                        invariant
                            k <= bytes@.len(),
                            self.spool@ == before + bytes@.subrange(0, k as int),
                            self.spooled,
                            self.buffer == old(self).buffer,
                            self.failed == old(self).failed,
                        decreases bytes.len() - k,
                    {
                        self.spool.push(bytes[k]);
                        assert(bytes@.subrange(0, k + 1) =~= bytes@.subrange(0, k as int).push(
                            bytes@[k as int],
                        ));
                        k = k + 1;
                    }
                    assert(bytes@.subrange(0, k as int) =~= bytes@);
                    Ok(())
                },
                Err(e) => {
                    self.failed = self.failed + 1;
                    Err(e)
                },
            }
        } else {
            let ghost before = self.buffer@;
            let ghost incoming = batch@;
            let mut batch = batch;
            self.buffer.append(&mut batch);
            assert(views(self.buffer@) =~= views(before) + views(incoming));
            Ok(())
        }
    }

    /// Ends ingestion and sorts. Buffered records are sorted in memory, with no
    /// chunk; spooled ones go through the external sort under `budget` bytes.
    pub fn finish(self, budget: u64) -> (r: Result<SortedRun, CodecError>)
        ensures
            !self.is_spooled() ==> (r matches Ok(out) && out.chunks == 0 && sorted_logs(
                views(out.records@),
            ) && views(out.records@).to_multiset() == self.buffered().to_multiset()),
            self.is_spooled() ==> external_sort_outcome(self.spool_bytes(), budget as int, r),
    {
        if self.spooled {
            external_sort(self.spool, budget)
        } else {
            let records = sort_records(&self.buffer);
            Ok(SortedRun { records, chunks: 0 })
        }
    }
}

} // verus!
