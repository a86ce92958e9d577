//! Properties that relate several functions of the library, proved.
use crate::codec::{all_decode_back, decodes_back, payload_of, record_of, CodecError};
use crate::external::{chunk_count, decode_all, external_sort_outcome, frame_sizes, SortedRun};
use crate::ingest::{all_fit, record_frames};
use crate::record::{lemma_log_le_total, log_le, sorted_logs, views, LogView};
use crate::spool::{all_decode, le16, le16_value, parse_frames};
use vstd::prelude::*;

verus! {

broadcast use vstd::seq_lib::group_to_multiset_ensures;

/// The payloads of records, in order.
pub open spec fn payloads(s: Seq<LogView>) -> Seq<Seq<u8>> {
    s.map_values(|r: LogView| payload_of(r))
}

/// Two ordered sequences of the same records are the same sequence: the sorted
/// output is determined by the records alone, whatever order they arrived in.
pub proof fn law_sorted_output_is_unique(x: Seq<LogView>, y: Seq<LogView>)
    requires
        sorted_logs(x),
        sorted_logs(y),
        x.to_multiset() == y.to_multiset(),
    ensures
        x == y,
{
    let leq = |a: LogView, b: LogView| log_le(a, b);
    lemma_log_le_total();
    assert(vstd::relations::sorted_by(x, leq)) by {
        assert forall|i: int, j: int| 0 <= i < j < x.len() implies #[trigger] leq(x[i], x[j]) by {
            assert(log_le(x[i], x[j]));
        }
    }
    assert(vstd::relations::sorted_by(y, leq)) by {
        assert forall|i: int, j: int| 0 <= i < j < y.len() implies #[trigger] leq(y[i], y[j]) by {
            assert(log_le(y[i], y[j]));
        }
    }
    vstd::seq_lib::lemma_sorted_unique(x, y, leq);
}

/// Sorting records that are already in order gives them back unchanged: the
/// result of a sort is ordered and holds the same records as its input.
pub proof fn law_sorting_sorted_input_is_identity(input: Seq<LogView>, output: Seq<LogView>)
    requires
        sorted_logs(input),
        sorted_logs(output),
        output.to_multiset() == input.to_multiset(),
    ensures
        output == input,
{
    law_sorted_output_is_unique(output, input);
}

proof fn lemma_le16_value(n: u16)
    ensures
        le16(n).len() == 2,
        le16_value(le16(n)[0], le16(n)[1]) == n as int,
{
    assert((n % 256) as u8 as int == n as int % 256);
    assert((n / 256) as u8 as int == n as int / 256);
}

/// One frame followed by anything parses as its payload, then what follows.
proof fn lemma_parse_frame_then(p: Seq<u8>, t: Seq<u8>)
    requires
        p.len() <= 65535,
    ensures
        parse_frames(le16(p.len() as u16) + p + t) == seq![p] + parse_frames(t),
{
    let x = le16(p.len() as u16) + p + t;
    lemma_le16_value(p.len() as u16);
    assert(x[0] == le16(p.len() as u16)[0]);
    assert(x[1] == le16(p.len() as u16)[1]);
    assert(x.subrange(2, 2 + p.len() as int) =~= p);
    assert(x.skip(2 + p.len() as int) =~= t);
}

/// A frame cut short parses as nothing.
proof fn lemma_parse_partial_frame(p: Seq<u8>, j: int)
    requires
        p.len() <= 65535,
        0 <= j < p.len() + 2,
    ensures
        parse_frames((le16(p.len() as u16) + p).take(j)) == Seq::<Seq<u8>>::empty(),
{
    let x = (le16(p.len() as u16) + p).take(j);
    lemma_le16_value(p.len() as u16);
    if j >= 2 {
        assert(x[0] == le16(p.len() as u16)[0]);
        assert(x[1] == le16(p.len() as u16)[1]);
    }
}

proof fn lemma_spool_then(s: Seq<LogView>, t: Seq<u8>)
    requires
        all_fit(s),
    ensures
        parse_frames(record_frames(s) + t) == payloads(s) + parse_frames(t),
    decreases s.len(),
{
    if s.len() == 0 {
        assert(record_frames(s) + t =~= t);
        assert(payloads(s) + parse_frames(t) =~= parse_frames(t));
    } else {
        let s0 = s.drop_last();
        let p = payload_of(s.last());
        assert(payload_of(s[s.len() - 1]).len() <= 65535);
        assert(all_fit(s0)) by {
            assert forall|i: int| 0 <= i < s0.len() implies payload_of(#[trigger] s0[i]).len()
                <= 65535 by {
                assert(s0[i] == s[i]);
            }
        }
        let t2 = le16(p.len() as u16) + p + t;
        lemma_spool_then(s0, t2);
        lemma_parse_frame_then(p, t);
        assert(record_frames(s) + t =~= record_frames(s0) + t2);
        assert(payloads(s) =~= payloads(s0).push(p));
        assert(payloads(s0) + (seq![p] + parse_frames(t)) =~= payloads(s) + parse_frames(t));
    }
}

/// The spool written for records whose encodings fit in frames reads back as
/// exactly their payloads, in order.
pub proof fn law_spool_round_trip(s: Seq<LogView>)
    requires
        all_fit(s),
    ensures
        parse_frames(record_frames(s)) == payloads(s),
{
    lemma_spool_then(s, Seq::empty());
    assert(record_frames(s) + Seq::<u8>::empty() =~= record_frames(s));
    assert(parse_frames(Seq::<u8>::empty()) =~= Seq::<Seq<u8>>::empty());
    assert(payloads(s) + Seq::<Seq<u8>>::empty() =~= payloads(s));
}

/// A spool cut off at any byte, as by a crash while it was written, reads back
/// as the payloads of the frames complete before the cut, and nothing of the
/// frame that was cut.
pub proof fn law_truncated_spool_reads_complete_frames(s: Seq<LogView>, k: int)
    requires
        all_fit(s),
        0 <= k <= record_frames(s).len(),
    ensures
        exists|m: int|
            0 <= m <= s.len() && record_frames(s.take(m)).len() <= k && (m == s.len()
                || record_frames(s.take(m + 1)).len() > k) && parse_frames(
                record_frames(s).take(k),
            ) == payloads(s.take(m)),
    decreases s.len(),
{
    if s.len() == 0 {
        assert(record_frames(s).take(k) =~= Seq::<u8>::empty());
        assert(payloads(s.take(0)) =~= Seq::<Seq<u8>>::empty());
        assert(s.take(0) =~= s);
    } else {
        let s0 = s.drop_last();
        let p = payload_of(s.last());
        let head = record_frames(s0);
        assert(payload_of(s[s.len() - 1]).len() <= 65535);
        assert(all_fit(s0)) by {
            assert forall|i: int| 0 <= i < s0.len() implies payload_of(#[trigger] s0[i]).len()
                <= 65535 by {
                assert(s0[i] == s[i]);
            }
        }
        let frame = le16(p.len() as u16) + p;
        assert(record_frames(s) =~= head + frame);
        if k <= head.len() {
            law_truncated_spool_reads_complete_frames(s0, k);
            let m = choose|m: int|
                0 <= m <= s0.len() && record_frames(s0.take(m)).len() <= k && (m == s0.len()
                    || record_frames(s0.take(m + 1)).len() > k) && parse_frames(
                    record_frames(s0).take(k),
                ) == payloads(s0.take(m));
            assert(record_frames(s).take(k) =~= head.take(k));
            assert(s0.take(m) =~= s.take(m));
            if m == s0.len() {
                assert(s.take(m + 1) =~= s);
            } else {
                assert(s0.take(m + 1) =~= s.take(m + 1));
            }
        } else if k == record_frames(s).len() {
            law_spool_round_trip(s);
            assert(record_frames(s).take(k) =~= record_frames(s));
            assert(s.take(s.len() as int) =~= s);
        } else {
            let j = k - head.len();
            lemma_le16_value(p.len() as u16);
            lemma_parse_partial_frame(p, j);
            lemma_spool_then(s0, frame.take(j));
            assert(record_frames(s).take(k) =~= head + frame.take(j));
            assert(payloads(s0) + Seq::<Seq<u8>>::empty() =~= payloads(s0));
            assert(s.take(s0.len() as int) =~= s0);
            assert(s.take(s0.len() as int + 1) =~= s);
        }
    }
}

/// Spools that hold the same records in different orders, as concurrent
/// ingestion may write them, are cut into the same number of chunks when every
/// record takes the same number of bytes.
pub proof fn law_chunk_count_independent_of_order(
    a: Seq<Seq<u8>>,
    b: Seq<Seq<u8>>,
    size: nat,
    budget: int,
)
    requires
        a.to_multiset() == b.to_multiset(),
        forall|i: int| 0 <= i < a.len() ==> (#[trigger] a[i]).len() == size,
    ensures
        chunk_count(frame_sizes(a), budget) == chunk_count(frame_sizes(b), budget),
{
    assert(a.to_multiset().len() == a.len());
    assert(b.to_multiset().len() == b.len());
    assert forall|i: int| 0 <= i < b.len() implies (#[trigger] b[i]).len() == size by {
        assert(b.contains(b[i]));
        assert(b.to_multiset().count(b[i]) > 0);
        assert(a.contains(b[i]));
        let j = choose|j: int| 0 <= j < a.len() && a[j] == b[i];
    }
    assert(frame_sizes(a) =~= frame_sizes(b));
}

/// An empty spool has no records and makes no chunk.
pub proof fn law_empty_spool(budget: int)
    ensures
        parse_frames(Seq::<u8>::empty()) == Seq::<Seq<u8>>::empty(),
        decode_all(parse_frames(Seq::<u8>::empty())).len() == 0,
        chunk_count(frame_sizes(parse_frames(Seq::<u8>::empty())), budget) == 0,
{
    assert(parse_frames(Seq::<u8>::empty()) =~= Seq::<Seq<u8>>::empty());
    assert(frame_sizes(Seq::<Seq<u8>>::empty()) =~= Seq::<int>::empty());
}

/// Sorting the spool written for records whose encodings fit gives back as
/// many records as went in, in order.
pub proof fn law_spooled_sort_keeps_every_record(s: Seq<LogView>, budget: int, out: SortedRun)
    requires
        all_fit(s),
        external_sort_outcome(record_frames(s), budget, Ok::<SortedRun, CodecError>(out)),
    ensures
        out.records@.len() == s.len(),
        sorted_logs(views(out.records@)),
{
    law_spool_round_trip(s);
    let d = decode_all(parse_frames(record_frames(s)));
    assert(views(out.records@).to_multiset().len() == d.to_multiset().len());
    assert(views(out.records@).len() == out.records@.len());
}

proof fn lemma_decode_payloads(s: Seq<LogView>)
    requires
        all_decode_back(s),
    ensures
        all_decode(payloads(s)),
        decode_all(payloads(s)) == s,
{
    assert forall|i: int| 0 <= i < payloads(s).len() implies (record_of(
        #[trigger] payloads(s)[i],
    ) is Some) by {
        assert(decodes_back(s[i]));
    }
    assert forall|i: int| 0 <= i < s.len() implies decode_all(payloads(s))[i] == s[i] by {
        assert(decodes_back(s[i]));
    }
    assert(decode_all(payloads(s)) =~= s);
}

/// One frame read back: a frame written for a record, followed by anything,
/// yields that record's payload first, and the payload decodes to the record.
pub proof fn law_frame_reads_back_record(r: LogView, rest: Seq<u8>)
    requires
        payload_of(r).len() <= 65535,
        decodes_back(r),
    ensures
        parse_frames(record_frames(seq![r]) + rest)[0] == payload_of(r),
        record_of(parse_frames(record_frames(seq![r]) + rest)[0]) == Some(r),
{
    assert(all_fit(seq![r]));
    lemma_spool_then(seq![r], rest);
    assert(payloads(seq![r])[0] == payload_of(r));
}

/// A spool written for records that fit in frames and decode back reads back
/// as exactly those records, in order.
pub proof fn law_spool_reads_back_records(s: Seq<LogView>)
    requires
        all_fit(s),
        all_decode_back(s),
    ensures
        all_decode(parse_frames(record_frames(s))),
        decode_all(parse_frames(record_frames(s))) == s,
{
    law_spool_round_trip(s);
    lemma_decode_payloads(s);
}

/// A spool cut off at any byte reads back as the records whose frames were
/// complete before the cut, in order, and nothing of the record that was cut.
pub proof fn law_truncated_spool_decodes_to_prefix(s: Seq<LogView>, k: int)
    requires
        all_fit(s),
        all_decode_back(s),
        0 <= k <= record_frames(s).len(),
    ensures
        exists|m: int|
            0 <= m <= s.len() && (m == s.len() || record_frames(s.take(m + 1)).len() > k)
                && record_frames(#[trigger] s.take(m)).len() <= k && all_decode(
                parse_frames(record_frames(s).take(k)),
            ) && decode_all(parse_frames(record_frames(s).take(k))) == s.take(m),
{
    law_truncated_spool_reads_complete_frames(s, k);
    let m = choose|m: int|
        0 <= m <= s.len() && record_frames(s.take(m)).len() <= k && (m == s.len()
            || record_frames(s.take(m + 1)).len() > k) && parse_frames(
            record_frames(s).take(k),
        ) == payloads(s.take(m));
    assert(all_decode_back(s.take(m))) by {
        assert forall|i: int| 0 <= i < s.take(m).len() implies decodes_back(
            #[trigger] s.take(m)[i],
        ) by {
            assert(s.take(m)[i] == s[i]);
        }
    }
    lemma_decode_payloads(s.take(m));
}

/// Sorting the spool written for records that fit and decode back succeeds,
/// and gives back exactly those records, in order.
pub proof fn law_spooled_sort_gives_back_records(
    s: Seq<LogView>,
    budget: int,
    r: Result<SortedRun, CodecError>,
)
    requires
        all_fit(s),
        all_decode_back(s),
        external_sort_outcome(record_frames(s), budget, r),
    ensures
        r is Ok,
        r matches Ok(out) ==> sorted_logs(views(out.records@)) && views(
            out.records@,
        ).to_multiset() == s.to_multiset(),
{
    law_spool_reads_back_records(s);
}

/// The spool of two batches written one after the other is the spool of their
/// records together: what a run appends is the frames of every accepted batch.
pub proof fn law_batches_concatenate(a: Seq<LogView>, b: Seq<LogView>)
    ensures
        record_frames(a) + record_frames(b) == record_frames(a + b),
    decreases b.len(),
{
    if b.len() == 0 {
        assert(a + b =~= a);
        assert(record_frames(a) + record_frames(b) =~= record_frames(a));
    } else {
        law_batches_concatenate(a, b.drop_last());
        assert((a + b).drop_last() =~= a + b.drop_last());
        assert((a + b).last() == b.last());
        let p = payload_of(b.last());
        assert(record_frames(a) + record_frames(b) =~= record_frames(a) + record_frames(
            b.drop_last(),
        ) + le16(p.len() as u16) + p);
    }
}

} // verus!
