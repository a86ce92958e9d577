//! The external merge sort: the spool is cut into sorted chunks under a byte
//! budget, and the chunks are merged into one ordered sequence.
use crate::codec::{decode_record, record_of, CodecError};
use crate::record::{sorted_logs, views, GourceLogFormat, LogView};
use crate::sort::{select_min, sort_records};
use crate::spool::{all_decode, parse_frames, DiskLogReader};
use vstd::multiset::Multiset;
use vstd::prelude::*;

verus! {

broadcast use vstd::seq_lib::group_to_multiset_ensures;

/// How many chunks the greedy partition makes of the remaining `sizes`, given a
/// chunk that is `open` and already holds `used` bytes: a chunk takes records
/// while its total stays within the budget, and always takes at least one.
pub open spec fn chunk_count_from(sizes: Seq<int>, budget: int, used: int, open: bool) -> nat
    decreases sizes.len(),
{
    if sizes.len() == 0 {
        if open {
            1
        } else {
            0
        }
    } else if open && used + sizes[0] > budget {
        1 + chunk_count_from(sizes.drop_first(), budget, sizes[0], true)
    } else {
        chunk_count_from(
            sizes.drop_first(),
            budget,
            (if open {
                used
            } else {
                0
            }) + sizes[0],
            true,
        )
    }
}

/// How many chunks the greedy partition makes of records of the given sizes.
pub open spec fn chunk_count(sizes: Seq<int>, budget: int) -> nat {
    chunk_count_from(sizes, budget, 0, false)
}

/// The size a record takes in a chunk: its frame, length prefix included.
pub open spec fn frame_sizes(frames: Seq<Seq<u8>>) -> Seq<int> {
    frames.map_values(|p: Seq<u8>| p.len() as int + 2)
}

/// The records that payloads decode to.
pub open spec fn decode_all(frames: Seq<Seq<u8>>) -> Seq<LogView> {
    frames.map_values(|p: Seq<u8>| record_of(p)->Some_0)
}

/// The records of all runs together.
pub open spec fn runs_multiset(runs: Seq<Seq<LogView>>) -> Multiset<LogView>
    decreases runs.len(),
{
    if runs.len() == 0 {
        Multiset::empty()
    } else {
        runs_multiset(runs.drop_last()).add(runs.last().to_multiset())
    }
}

pub open spec fn run_views(runs: Seq<Vec<GourceLogFormat>>) -> Seq<Seq<LogView>> {
    runs.map_values(|r: Vec<GourceLogFormat>| views(r@))
}

/// A chunk being filled: records and the bytes they take, under a budget.
pub struct SortChunk {
    budget: u64,
    used: u64,
    records: Vec<GourceLogFormat>,
}

impl SortChunk {
    pub closed spec fn budget(&self) -> int {
        self.budget as int
    }

    pub closed spec fn used(&self) -> int {
        self.used as int
    }

    pub closed spec fn contents(&self) -> Seq<LogView> {
        views(self.records@)
    }

    /// An empty chunk with the given budget in bytes.
    pub fn new(budget: u64) -> (r: SortChunk)
        ensures
            r.budget() == budget,
            r.used() == 0,
            r.contents() == Seq::<LogView>::empty(),
    {
        let r = SortChunk { budget, used: 0, records: Vec::new() };
        assert(r.contents() =~= Seq::<LogView>::empty());
        r
    }

    /// Adds a record that takes `size` bytes. When the chunk already holds
    /// records and this one would take it over budget, the chunk is handed back
    /// sorted and the record starts the next one.
    pub fn push(&mut self, rec: GourceLogFormat, size: u64) -> (r: Option<Vec<GourceLogFormat>>)
        ensures
            final(self).budget() == old(self).budget(),
            ({
                let full = old(self).contents().len() > 0 && old(self).used() + size > old(
                    self,
                ).budget();
                &&& full ==> (r matches Some(c) && sorted_logs(views(c@)) && views(
                    c@,
                ).to_multiset() == old(self).contents().to_multiset() && final(self).contents()
                    == seq![rec@] && final(self).used() == size)
                &&& !full ==> (r is None && final(self).contents() == old(self).contents().push(
                    rec@,
                ) && final(self).used() == (if old(self).contents().len() > 0 {
                    old(self).used()
                } else {
                    0
                }) + size)
            }),
    {
        let nonempty = self.records.len() > 0;
        if nonempty && (self.used > self.budget || size > self.budget - self.used) {
            let full = sort_records(&self.records);
            let mut next: Vec<GourceLogFormat> = Vec::new();
            next.push(rec);
            self.records = next;
            self.used = size;
            assert(views(self.records@) =~= seq![rec@]);
            Some(full)
        } else {
            let ghost before = views(self.records@);
            self.records.push(rec);
            self.used = if nonempty {
                self.used + size
            } else {
                size
            };
            assert(views(self.records@) =~= before.push(rec@));
            None
        }
    }

    /// Hands back the last chunk sorted, if it holds any record.
    pub fn finish(self) -> (r: Option<Vec<GourceLogFormat>>)
        ensures
            self.contents().len() == 0 ==> r is None,
            self.contents().len() > 0 ==> (r matches Some(c) && sorted_logs(views(c@)) && views(
                c@,
            ).to_multiset() == self.contents().to_multiset()),
    {
        if self.records.len() > 0 {
            Some(sort_records(&self.records))
        } else {
            None
        }
    }
}

/// What is left of the first `n` runs when run `k` has been read up to `pos[k]`.
pub open spec fn rest_multiset(runs: Seq<Seq<LogView>>, pos: Seq<usize>, n: int) -> Multiset<
    LogView,
>
    decreases n,
{
    if n <= 0 {
        Multiset::empty()
    } else {
        rest_multiset(runs, pos, n - 1).add(runs[n - 1].skip(pos[n - 1] as int).to_multiset())
    }
}

proof fn lemma_rest_agree(runs: Seq<Seq<LogView>>, p: Seq<usize>, q: Seq<usize>, n: int)
    requires
        forall|k: int| 0 <= k < n ==> p[k] == q[k],
    ensures
        rest_multiset(runs, p, n) == rest_multiset(runs, q, n),
    decreases n,
{
    if n > 0 {
        lemma_rest_agree(runs, p, q, n - 1);
    }
}

proof fn lemma_rest_start(runs: Seq<Seq<LogView>>, pos: Seq<usize>, n: int)
    requires
        0 <= n <= runs.len(),
        forall|k: int| 0 <= k < n ==> pos[k] == 0,
    ensures
        rest_multiset(runs, pos, n) == runs_multiset(runs.take(n)),
    decreases n,
{
    if n > 0 {
        lemma_rest_start(runs, pos, n - 1);
        assert(runs.take(n).drop_last() =~= runs.take(n - 1));
        assert(runs[n - 1].skip(0) =~= runs[n - 1]);
    }
}

proof fn lemma_rest_end(runs: Seq<Seq<LogView>>, pos: Seq<usize>, n: int)
    requires
        n <= runs.len(),
        n <= pos.len(),
        forall|k: int| 0 <= k < n ==> pos[k] == runs[k].len(),
    ensures
        rest_multiset(runs, pos, n) == Multiset::<LogView>::empty(),
    decreases n,
{
    if n > 0 {
        lemma_rest_end(runs, pos, n - 1);
        assert(runs[n - 1].skip(pos[n - 1] as int).len() == 0);
        assert(runs[n - 1].skip(pos[n - 1] as int).to_multiset() =~= Multiset::empty());
        assert(Multiset::<LogView>::empty().add(Multiset::empty()) =~= Multiset::empty());
    }
}

proof fn lemma_rest_step(runs: Seq<Seq<LogView>>, pos: Seq<usize>, i: int, n: int)
    requires
        0 <= i < n <= pos.len(),
        pos[i] < runs[i].len(),
        pos[i] + 1 <= usize::MAX,
    ensures
        rest_multiset(runs, pos.update(i, (pos[i] + 1) as usize), n) == rest_multiset(
            runs,
            pos,
            n,
        ).remove(runs[i][pos[i] as int]),
        rest_multiset(runs, pos, n).count(runs[i][pos[i] as int]) > 0,
    decreases n,
{
    let q = pos.update(i, (pos[i] + 1) as usize);
    let s = runs[i].skip(pos[i] as int);
    let x = runs[i][pos[i] as int];
    assert(s[0] == x);
    assert(s.drop_first() =~= runs[i].skip(pos[i] + 1));
    assert(s =~= seq![x] + s.drop_first());
    vstd::seq_lib::lemma_multiset_commutative(seq![x], s.drop_first());
    assert(seq![x].to_multiset() =~= Multiset::empty().insert(x)) by {
        assert(seq![x] =~= Seq::<LogView>::empty().push(x));
    }
    if i == n - 1 {
        lemma_rest_agree(runs, q, pos, n - 1);
        assert(rest_multiset(runs, q, n) =~= rest_multiset(runs, pos, n).remove(x));
    } else {
        lemma_rest_step(runs, pos, i, n - 1);
        assert(rest_multiset(runs, q, n) =~= rest_multiset(runs, pos, n).remove(x));
    }
}

/// Merges sorted runs into one ordered sequence of all their records: each
/// step emits the smallest current head, of equal heads the one of the run
/// with the lowest index, and advances only that run.
pub fn merge_runs(runs: Vec<Vec<GourceLogFormat>>) -> (r: Vec<GourceLogFormat>)
    requires
        forall|k: int| 0 <= k < runs@.len() ==> sorted_logs(views(#[trigger] runs@[k]@)),
    ensures
        sorted_logs(views(r@)),
        views(r@).to_multiset() == runs_multiset(run_views(runs@)),
{
    let ghost rv = run_views(runs@);
    let n = runs.len();
    let mut pos: Vec<usize> = Vec::new();
    let mut heads: Vec<Option<GourceLogFormat>> = Vec::new();
    let mut k: usize = 0;
    while k < n
        invariant
            n == runs@.len(),
            rv == run_views(runs@),
            k <= n,
            pos@.len() == k,
            heads@.len() == k,
            forall|j: int| 0 <= j < k ==> pos@[j] == 0,
            forall|j: int|
                0 <= j < k ==> (if 0 < runs@[j]@.len() {
                    (#[trigger] heads@[j]) matches Some(h) && h@ == rv[j][0]
                } else {
                    heads@[j] is None
                }),
        decreases n - k,
    {
        pos.push(0);
        if runs[k].len() > 0 {
            heads.push(Some(runs[k][0].duplicate()));
        } else {
            heads.push(None);
        }
        proof {
            assert(rv[k as int] == views(runs@[k as int]@));
        }
        k = k + 1;
    }
    let mut out: Vec<GourceLogFormat> = Vec::new();
    proof {
        lemma_rest_start(rv, pos@, n as int);
        assert(rv.take(n as int) =~= rv);
        assert(views(out@).to_multiset() =~= Multiset::empty());
        assert(Multiset::<LogView>::empty().add(rest_multiset(rv, pos@, n as int))
            =~= rest_multiset(rv, pos@, n as int));
    }
    loop
        invariant
            n == runs@.len(),
            rv == run_views(runs@),
            forall|j: int| 0 <= j < n ==> sorted_logs(#[trigger] rv[j]),
            pos@.len() == n,
            heads@.len() == n,
            forall|j: int|
                0 <= j < n ==> #[trigger] pos@[j] <= rv[j].len() && (if pos@[j] < rv[j].len() {
                    heads@[j] matches Some(h) && h@ == rv[j][pos@[j] as int]
                } else {
                    heads@[j] is None
                }),
            sorted_logs(views(out@)),
            out@.len() > 0 ==> forall|j: int|
                0 <= j < n && pos@[j] < rv[j].len() ==> crate::record::log_le(
                    views(out@).last(),
                    #[trigger] rv[j][pos@[j] as int],
                ),
            views(out@).to_multiset().add(rest_multiset(rv, pos@, n as int)) == runs_multiset(rv),
        ensures
            sorted_logs(views(out@)),
            views(out@).to_multiset() == runs_multiset(rv),
        decreases rest_multiset(rv, pos@, n as int).len(),
    {
        assert forall|j: int| 0 <= j < n implies rv[j].len() == runs@[j]@.len() by {
            assert(rv[j] == views(runs@[j]@));
        }
        match select_min(&heads) {
            None => {
                proof {
                    assert forall|j: int| 0 <= j < n implies pos@[j] == rv[j].len() by {
                        assert(heads@[j] is None);
                    }
                    lemma_rest_end(rv, pos@, n as int);
                    assert(views(out@).to_multiset().add(Multiset::empty()) =~= views(
                        out@,
                    ).to_multiset());
                }
                break;
            },
            Some(i) => {
                let ghost old_pos = pos@;
                let ghost old_out = views(out@);
                let ghost x = rv[i as int][pos@[i as int] as int];
                assert(pos@[i as int] < rv[i as int].len());
                let len_i = runs[i].len();
                assert(pos@[i as int] < len_i);
                let p = pos[i] + 1;
                let next = if p < len_i {
                    Some(runs[i][p].duplicate())
                } else {
                    None
                };
                let ghost old_heads = heads@;
                match &heads[i] {
                    Some(h) => {
                        out.push(h.duplicate());
                    },
                    None => {},
                }
                heads.set(i, next);
                pos.set(i, p);
                proof {
                    if p < rv[i as int].len() {
                        assert(rv[i as int][p as int] == views(runs@[i as int]@)[p as int]);
                    }
                    lemma_rest_step(rv, old_pos, i as int, n as int);
                    assert(pos@ == old_pos.update(i as int, p));
                    assert(views(out@) =~= old_out.push(x));
                    assert(views(out@).to_multiset() == old_out.to_multiset().insert(x));
                    assert(views(out@).to_multiset().add(rest_multiset(rv, pos@, n as int))
                        =~= old_out.to_multiset().add(rest_multiset(rv, old_pos, n as int)));
                    assert forall|a: int, b: int|
                        0 <= a < b < views(out@).len() implies crate::record::log_le(
                        #[trigger] views(out@)[a],
                        #[trigger] views(out@)[b],
                    ) by {
                        if b == old_out.len() {
                            if a < old_out.len() - 1 {
                                crate::record::lemma_log_cmp_trans(
                                    old_out[a],
                                    old_out.last(),
                                    x,
                                );
                            }
                        } else {
                            assert(views(out@)[a] == old_out[a]);
                            assert(views(out@)[b] == old_out[b]);
                        }
                    }
                    assert forall|j: int|
                        0 <= j < n && pos@[j] < rv[j].len() implies crate::record::log_le(
                        views(out@).last(),
                        #[trigger] rv[j][pos@[j] as int],
                    ) by {
                        if j == i {
                            assert(sorted_logs(rv[j]));
                        } else {
                            assert(old_heads[j] is Some);
                            assert(old_pos[j] == pos@[j]);
                        }
                    }
                }
            },
        }
    }
    out
}

/// What the external sort produced: the ordered records, and how many sorted
/// chunks the partition pass made.
pub struct SortedRun {
    pub records: Vec<GourceLogFormat>,
    pub chunks: usize,
}

proof fn lemma_decode_all_take(frames: Seq<Seq<u8>>, k: int)
    requires
        0 <= k < frames.len(),
    ensures
        decode_all(frames.take(k + 1)) == decode_all(frames.take(k)).push(
            record_of(frames[k])->Some_0,
        ),
{
    assert(decode_all(frames.take(k + 1)) =~= decode_all(frames.take(k)).push(
        record_of(frames[k])->Some_0,
    ));
}

/// What the external sort returns for the given spool bytes and budget: the
/// records of the complete frames, ordered by the key, and the greedy chunk
/// count; or `CorruptRecord` exactly when a complete frame does not decode.
pub open spec fn external_sort_outcome(
    spool: Seq<u8>,
    budget: int,
    r: Result<SortedRun, CodecError>,
) -> bool {
    &&& (r is Ok <==> all_decode(parse_frames(spool)))
    &&& (r is Err ==> r matches Err(CodecError::CorruptRecord))
    &&& (r matches Ok(out) ==> {
        &&& sorted_logs(views(out.records@))
        &&& views(out.records@).to_multiset() == decode_all(parse_frames(spool)).to_multiset()
        &&& out.chunks == chunk_count(frame_sizes(parse_frames(spool)), budget)
    })
}

/// Sorts the records of a spool under a memory budget in bytes: cuts them into
/// chunks by frame size, sorts each chunk, and merges the chunks. Fails with
/// `CorruptRecord` when a complete frame does not decode.
pub fn external_sort(spool: Vec<u8>, budget: u64) -> (r: Result<SortedRun, CodecError>)
    ensures
        external_sort_outcome(spool@, budget as int, r),
{
    let ghost frames = parse_frames(spool@);
    let ghost sizes = frame_sizes(frames);
    let mut reader = DiskLogReader::new(spool);
    let mut chunk = SortChunk::new(budget);
    let mut runs: Vec<Vec<GourceLogFormat>> = Vec::new();
    let ghost mut k: int = 0;
    proof {
        assert(frames.skip(0) =~= frames);
        assert(sizes.skip(0) =~= sizes);
        assert(decode_all(frames.take(0)) =~= Seq::<LogView>::empty());
        assert(run_views(runs@) =~= Seq::<Seq<LogView>>::empty());
    }
    loop
        invariant
            reader.wf(),
            0 <= k <= frames.len(),
            frames == parse_frames(spool@),
            sizes == frame_sizes(frames),
            parse_frames(reader.rest()) == frames.skip(k),
            forall|i: int| 0 <= i < k ==> (record_of(#[trigger] frames[i]) is Some),
            chunk.budget() == budget,
            forall|j: int| 0 <= j < runs@.len() ==> sorted_logs(views(#[trigger] runs@[j]@)),
            runs_multiset(run_views(runs@)).add(chunk.contents().to_multiset()) == decode_all(
                frames.take(k),
            ).to_multiset(),
            runs@.len() + chunk_count_from(
                sizes.skip(k),
                budget as int,
                chunk.used(),
                chunk.contents().len() > 0,
            ) == chunk_count(sizes, budget as int),
            runs@.len() <= k,
        ensures
            k == frames.len(),
            forall|i: int| 0 <= i < k ==> (record_of(#[trigger] frames[i]) is Some),
            forall|j: int| 0 <= j < runs@.len() ==> sorted_logs(views(#[trigger] runs@[j]@)),
            runs_multiset(run_views(runs@)).add(chunk.contents().to_multiset()) == decode_all(
                frames,
            ).to_multiset(),
            runs@.len() + chunk_count_from(
                sizes.skip(k),
                budget as int,
                chunk.used(),
                chunk.contents().len() > 0,
            ) == chunk_count(sizes, budget as int),
        decreases frames.len() - k,
    {
        let ghost old_runs = runs@;
        let ghost old_contents = chunk.contents();
        let ghost old_used = chunk.used();
        match reader.next_frame() {
            None => {
                proof {
                    assert(frames.skip(k).len() == 0);
                    assert(k == frames.len());
                    assert(sizes.skip(k).len() == 0);
                    assert(frames.take(k) =~= frames);
                }
                break;
            },
            Some(payload) => {
                proof {
                    assert(frames.skip(k)[0] == frames[k]);
                    assert(frames.skip(k).drop_first() =~= frames.skip(k + 1));
                    assert(sizes.skip(k)[0] == payload@.len() + 2);
                    assert(sizes.skip(k).drop_first() =~= sizes.skip(k + 1));
                    lemma_decode_all_take(frames, k);
                }
                let size = payload.len() as u64 + 2;
                let rec = match decode_record(payload.as_slice()) {
                    Ok(x) => x,
                    Err(e) => {
                        proof {
                            assert(!(record_of(frames[k]) is Some));
                        }
                        return Err(e);
                    },
                };
                let ghost rv = rec@;
                match chunk.push(rec, size) {
                    Some(full) => {
                        runs.push(full);
                        proof {
                            let rv2 = run_views(runs@);
                            assert(rv2.drop_last() =~= run_views(old_runs));
                            assert(seq![rv].to_multiset() =~= Multiset::empty().insert(rv)) by {
                                assert(seq![rv] =~= Seq::<LogView>::empty().push(rv));
                            }
                            assert(runs_multiset(rv2).add(chunk.contents().to_multiset())
                                =~= runs_multiset(run_views(old_runs)).add(
                                old_contents.to_multiset(),
                            ).insert(rv));
                        }
                    },
                    None => {
                        proof {
                            assert(run_views(runs@) =~= run_views(old_runs));
                            assert(runs_multiset(run_views(runs@)).add(
                                chunk.contents().to_multiset(),
                            ) =~= runs_multiset(run_views(old_runs)).add(
                                old_contents.to_multiset(),
                            ).insert(rv));
                        }
                    },
                }
                proof {
                    k = k + 1;
                }
            },
        }
    }
    let ghost before_runs = runs@;
    let ghost last = chunk.contents();
    match chunk.finish() {
        Some(c) => {
            runs.push(c);
            proof {
                let rv2 = run_views(runs@);
                assert(rv2.drop_last() =~= run_views(before_runs));
            }
        },
        None => {
            proof {
                assert(last.to_multiset() =~= Multiset::empty());
                assert(runs_multiset(run_views(runs@)).add(Multiset::empty()) =~= runs_multiset(
                    run_views(runs@),
                ));
            }
        },
    }
    let chunks = runs.len();
    let records = merge_runs(runs);
    assert(all_decode(frames));
    Ok(SortedRun { records, chunks })
}

} // verus!
