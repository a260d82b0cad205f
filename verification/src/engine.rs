//! The cutting engine: a single forward scan over the input bytes that
//! filters events by the timestamp window and backfills referenced
//! string definitions, proved equal to the model's [`scan`].
use vstd::prelude::*;

use std::collections::HashMap;
use std::collections::HashSet;

use crate::format::{
    event_shape, read_event, read_word, rec_size, word_at, TYPE_EVENT, TYPE_LARGE, TYPE_STRING,
};
use crate::model::{
    cat_bytes, lemma_cat_bytes_app, offsets_wf, out_bytes, rec_bytes_at, resolve, scan, OutRec,
};
use crate::CutError;

verus! {

broadcast use vstd::std_specs::hash::group_hash_axioms;

/// Copy `input[start..end]` onto the end of `out`.
fn copy_range(input: &Vec<u8>, out: &mut Vec<u8>, start: usize, end: usize)
    requires
        start <= end,
        end <= input@.len(),
    ensures
        final(out)@ == old(out)@ + input@.subrange(start as int, end as int),
{
    let mut i: usize = start;
    assert(out@ =~= old(out)@ + input@.subrange(start as int, start as int));
    while i < end
        invariant
            start <= i <= end,
            end <= input@.len(),
            out@ == old(out)@ + input@.subrange(start as int, i as int),
        decreases end - i,
    {
        out.push(input[i]);
        assert(out@ =~= old(out)@ + input@.subrange(start as int, i + 1));
        i = i + 1;
    }
}

/// The streaming filter of one run: the timestamp window, the offset
/// cache of string definitions seen so far, and the emitted-set of
/// string indices already written to the output.
pub struct Cutter {
    pub index_to_offset: HashMap<u16, usize>,
    pub written_indexes: HashSet<u16>,
    pub start_ts: u64,
    pub end_ts: u64,
}

impl Cutter {
    /// A fresh engine for the inclusive window `[start_ts, end_ts]`.
    pub fn new(start_ts: u64, end_ts: u64) -> (c: Cutter)
        ensures
            c.index_to_offset@ == Map::<u16, usize>::empty(),
            c.written_indexes@ == Set::<u16>::empty(),
            c.start_ts == start_ts,
            c.end_ts == end_ts,
    {
        Cutter {
            index_to_offset: HashMap::new(),
            written_indexes: HashSet::new(),
            start_ts,
            end_ts,
        }
    }

    /// Backfill one referenced string index: copy its defining record
    /// to the output on first use, do nothing on a later use, and fail
    /// on an index that was never defined.
    pub fn maybe_write_str_ref(&mut self, input: &Vec<u8>, out: &mut Vec<u8>, idx: u16) -> (r:
        Result<(), CutError>)
        requires
            offsets_wf(old(self).index_to_offset@, input@),
        ensures
            final(self).index_to_offset@ == old(self).index_to_offset@,
            final(self).start_ts == old(self).start_ts,
            final(self).end_ts == old(self).end_ts,
            match r {
                Ok(_) => {
                    if old(self).written_indexes@.contains(idx) {
                        &&& final(self).written_indexes@ == old(self).written_indexes@
                        &&& final(out)@ == old(out)@
                    } else {
                        &&& old(self).index_to_offset@.contains_key(idx)
                        &&& final(self).written_indexes@ == old(self).written_indexes@.insert(idx)
                        &&& final(out)@ == old(out)@ + rec_bytes_at(
                            input@,
                            old(self).index_to_offset@[idx] as int,
                        )
                    }
                },
                Err(e) => {
                    &&& e == (CutError::DanglingReference { index: idx })
                    &&& !old(self).written_indexes@.contains(idx)
                    &&& !old(self).index_to_offset@.contains_key(idx)
                    &&& final(self).written_indexes@ == old(self).written_indexes@
                    &&& final(out)@ == old(out)@
                },
            },
    {
        if self.written_indexes.contains(&idx) {
            return Ok(());
        }
        // a Vec's length is a usize, so every position below fits one
        let _n: usize = input.len();
        match self.index_to_offset.get(&idx) {
            Some(off_ref) => {
                let off: usize = *off_ref;
                proof {
                    assert(old(self).index_to_offset@.contains_key(idx));
                    assert(off == old(self).index_to_offset@[idx]);
                }
                let h = read_word(input, off);
                let size: u64 = (h >> 4) & 0xfff;
                proof {
                    assert((h >> 4) & 0xfff <= 0xfff) by (bit_vector);
                }
                let total: usize = (size as usize) * 8;
                copy_range(input, out, off, off + total);
                self.written_indexes.insert(idx);
                Ok(())
            },
            None => Err(CutError::DanglingReference { index: idx }),
        }
    }

    /// Decide one event's fate: excluded when its determined timestamp
    /// falls outside the window; included otherwise, after every
    /// referenced string index has been backfilled.
    pub fn process_event(
        &mut self,
        input: &Vec<u8>,
        out: &mut Vec<u8>,
        timestamp: Option<u64>,
        refs: &Vec<u16>,
    ) -> (r: Result<bool, CutError>)
        requires
            offsets_wf(old(self).index_to_offset@, input@),
        ensures
            final(self).index_to_offset@ == old(self).index_to_offset@,
            final(self).start_ts == old(self).start_ts,
            final(self).end_ts == old(self).end_ts,
            match r {
                Ok(included) => {
                    if included {
                        &&& (timestamp matches Some(ts) ==> old(self).start_ts <= ts && ts <= old(self).end_ts)
                        &&& match resolve(
                            input@,
                            refs@,
                            0,
                            old(self).index_to_offset@,
                            old(self).written_indexes@,
                        ) {
                            Ok(pr) => final(out)@ == old(out)@ + cat_bytes(pr.0) && final(self).written_indexes@ == pr.1,
                            Err(_) => false,
                        }
                    } else {
                        &&& timestamp matches Some(ts) && (ts < old(self).start_ts || ts > old(self).end_ts)
                        &&& final(out)@ == old(out)@
                        &&& final(self).written_indexes@ == old(self).written_indexes@
                    }
                },
                Err(e) => {
                    &&& resolve(
                        input@,
                        refs@,
                        0,
                        old(self).index_to_offset@,
                        old(self).written_indexes@,
                    ) == Err::<(Seq<OutRec>, Set<u16>), CutError>(e)
                    &&& (timestamp matches Some(ts) ==> old(self).start_ts <= ts && ts <= old(self).end_ts)
                },
            },
    {
        match timestamp {
            Some(ts) => {
                if ts < self.start_ts || ts > self.end_ts {
                    return Ok(false);
                }
            },
            None => {},
        }
        let ghost b = input@;
        let ghost offs0 = self.index_to_offset@;
        let ghost w0 = self.written_indexes@;
        let mut i: usize = 0;
        let ghost mut done: Seq<OutRec> = Seq::empty();
        assert(out@ =~= old(out)@ + cat_bytes(done));
        while i < refs.len()
            invariant
                i <= refs@.len(),
                b == input@,
                offsets_wf(self.index_to_offset@, b),
                self.index_to_offset@ == offs0,
                self.start_ts == old(self).start_ts,
                self.end_ts == old(self).end_ts,
                timestamp matches Some(ts) ==> old(self).start_ts <= ts && ts <= old(self).end_ts,
                offs0 == old(self).index_to_offset@,
                w0 == old(self).written_indexes@,
                out@ == old(out)@ + cat_bytes(done),
                match resolve(b, refs@, i as int, self.index_to_offset@, self.written_indexes@) {
                    Ok(pr) => resolve(b, refs@, 0, offs0, w0) == Ok::<
                        (Seq<OutRec>, Set<u16>),
                        CutError,
                    >((done + pr.0, pr.1)),
                    Err(e) => resolve(b, refs@, 0, offs0, w0) == Err::<
                        (Seq<OutRec>, Set<u16>),
                        CutError,
                    >(e),
                },
            decreases refs@.len() - i,
        {
            let idx: u16 = refs[i];
            let ghost w_pre = self.written_indexes@;
            match self.maybe_write_str_ref(input, out, idx) {
                Ok(_) => {
                    proof {
                        if !w_pre.contains(idx) {
                            let s = OutRec::Str {
                                idx,
                                bytes: rec_bytes_at(b, offs0[idx] as int),
                            };
                            let done0 = done;
                            lemma_cat_bytes_app(done0, seq![s]);
                            assert(out_bytes(s) + Seq::<u8>::empty() =~= out_bytes(s));
                            assert(seq![s].drop_first() =~= Seq::<OutRec>::empty());
                            assert(cat_bytes(seq![s]) == out_bytes(s) + cat_bytes(
                                seq![s].drop_first(),
                            ));
                            done = done0 + seq![s];
                            assert(out@ =~= old(out)@ + cat_bytes(done));
                            match resolve(b, refs@, i + 1, offs0, self.written_indexes@) {
                                Ok(pr) => {
                                    assert(done0 + (seq![s] + pr.0) =~= done + pr.0);
                                },
                                Err(_) => {},
                            }
                        }
                    }
                },
                Err(e) => {
                    return Err(e);
                },
            }
            i = i + 1;
        }
        proof {
            assert(resolve(b, refs@, i as int, offs0, self.written_indexes@) == Ok::<
                (Seq<OutRec>, Set<u16>),
                CutError,
            >((Seq::empty(), self.written_indexes@)));
            assert(done + Seq::<OutRec>::empty() =~= done);
        }
        Ok(true)
    }

    /// One full run: scan the input forward, cache string definitions,
    /// filter events by the window with their references backfilled,
    /// pass every other record through verbatim. The output equals the
    /// model's record sequence, concatenated; the first fatal error
    /// aborts the run.
    pub fn cut(&mut self, input: &Vec<u8>) -> (r: Result<Vec<u8>, CutError>)
        requires
            offsets_wf(old(self).index_to_offset@, input@),
        ensures
            final(self).start_ts == old(self).start_ts,
            final(self).end_ts == old(self).end_ts,
            match (r, scan(
                input@,
                0,
                old(self).index_to_offset@,
                old(self).written_indexes@,
                old(self).start_ts,
                old(self).end_ts,
            )) {
                (Ok(out), Ok(pr)) => out@ == cat_bytes(pr.0),
                (Err(e1), Err(e2)) => e1 == e2,
                _ => false,
            },
    {
        let ghost b = input@;
        let ghost lo = self.start_ts;
        let ghost hi = self.end_ts;
        let ghost offs0 = self.index_to_offset@;
        let ghost w0 = self.written_indexes@;
        let n: usize = input.len();
        let mut out: Vec<u8> = Vec::new();
        let mut pos: usize = 0;
        let ghost mut done: Seq<OutRec> = Seq::empty();
        while pos < n
            invariant
                n == b.len(),
                b == input@,
                pos <= n,
                self.start_ts == lo,
                self.end_ts == hi,
                lo == old(self).start_ts,
                hi == old(self).end_ts,
                offs0 == old(self).index_to_offset@,
                w0 == old(self).written_indexes@,
                offsets_wf(self.index_to_offset@, b),
                out@ == cat_bytes(done),
                match scan(b, pos as int, self.index_to_offset@, self.written_indexes@, lo, hi) {
                    Ok(pr) => scan(b, 0, offs0, w0, lo, hi) == Ok::<
                        (Seq<OutRec>, Set<u16>),
                        CutError,
                    >((done + pr.0, pr.1)),
                    Err(e) => scan(b, 0, offs0, w0, lo, hi) == Err::<
                        (Seq<OutRec>, Set<u16>),
                        CutError,
                    >(e),
                },
            decreases n - pos,
        {
            if n - pos < 8 {
                return Err(CutError::Format { offset: pos });
            }
            let h = read_word(input, pos);
            let t: u64 = h & 0xf;
            let size: u64 = (h >> 4) & 0xfff;
            proof {
                assert((h >> 4) & 0xfff <= 0xfff) by (bit_vector);
            }
            if size == 0 || t == TYPE_LARGE {
                return Err(CutError::Format { offset: pos });
            }
            let total: usize = (size as usize) * 8;
            if t == TYPE_STRING {
                if total > n - pos {
                    // a truncated trailing record: the stream ends here
                    proof {
                        assert(done + Seq::<OutRec>::empty() =~= done);
                    }
                    return Ok(out);
                }
                proof {
                    assert(((h >> 16) & 0x7fff) <= 0x7fff) by (bit_vector);
                }
                let idx: u16 = ((h >> 16) & 0x7fff) as u16;
                let ghost offs_pre = self.index_to_offset@;
                self.index_to_offset.insert(idx, pos);
                proof {
                    assert(self.index_to_offset@ == offs_pre.insert(idx, pos));
                    assert forall|k: u16| #[trigger] self.index_to_offset@.contains_key(k) implies {
                        &&& self.index_to_offset@[k] + 8 <= b.len()
                        &&& rec_size(word_at(b, self.index_to_offset@[k] as int)) >= 1
                        &&& self.index_to_offset@[k] + rec_size(
                            word_at(b, self.index_to_offset@[k] as int),
                        ) * 8 <= b.len()
                    } by {
                        if k != idx {
                            assert(offs_pre.contains_key(k));
                        }
                    }
                }
                pos = pos + total;
            } else if t == TYPE_EVENT {
                if total > n - pos {
                    return Err(CutError::Format { offset: pos });
                }
                let info = match read_event(input, pos, total) {
                    Ok(info) => info,
                    Err(e) => {
                        return Err(e);
                    },
                };
                let ghost w_pre = self.written_indexes@;
                let ghost offs_now = self.index_to_offset@;
                let ghost out_pre = out@;
                let included = match self.process_event(
                    input,
                    &mut out,
                    info.timestamp,
                    &info.refs,
                ) {
                    Ok(wr) => wr,
                    Err(e) => {
                        return Err(e);
                    },
                };
                if included {
                    copy_range(input, &mut out, pos, pos + total);
                    proof {
                        match event_shape(b, pos as int, total as int) {
                            None => {
                                assert(false);
                            },
                            Some(s) => {
                                match resolve(b, s.refs, 0, offs_now, w_pre) {
                                    Err(_) => {
                                        assert(false);
                                    },
                                    Ok(pr) => {
                                        let ev = OutRec::Event {
                                            ts: s.ts,
                                            refs: s.refs,
                                            bytes: b.subrange(pos as int, pos + total),
                                        };
                                        let done0 = done;
                                        lemma_cat_bytes_app(done0, pr.0);
                                        lemma_cat_bytes_app(done0 + pr.0, seq![ev]);
                                        assert(seq![ev].drop_first() =~= Seq::<OutRec>::empty());
                                        assert(cat_bytes(seq![ev]) == out_bytes(ev) + cat_bytes(
                                            seq![ev].drop_first(),
                                        ));
                                        assert(out_bytes(ev) + Seq::<u8>::empty() =~= out_bytes(
                                            ev,
                                        ));
                                        done = done0 + pr.0 + seq![ev];
                                        assert(out@ =~= cat_bytes(done));
                                        match scan(
                                            b,
                                            pos + total,
                                            self.index_to_offset@,
                                            self.written_indexes@,
                                            lo,
                                            hi,
                                        ) {
                                            Ok(pr2) => {
                                                assert(done0 + (pr.0 + seq![ev] + pr2.0) =~= done
                                                    + pr2.0);
                                            },
                                            Err(_) => {},
                                        }
                                    },
                                }
                            },
                        }
                    }
                }
                pos = pos + total;
            } else {
                if total > n - pos {
                    return Err(CutError::Format { offset: pos });
                }
                copy_range(input, &mut out, pos, pos + total);
                proof {
                    let ov = OutRec::Other { bytes: b.subrange(pos as int, pos + total) };
                    let done0 = done;
                    lemma_cat_bytes_app(done0, seq![ov]);
                    assert(seq![ov].drop_first() =~= Seq::<OutRec>::empty());
                    assert(cat_bytes(seq![ov]) == out_bytes(ov) + cat_bytes(
                        seq![ov].drop_first(),
                    ));
                    assert(out_bytes(ov) + Seq::<u8>::empty() =~= out_bytes(ov));
                    done = done0 + seq![ov];
                    assert(out@ =~= cat_bytes(done));
                    match scan(b, pos + total, self.index_to_offset@, self.written_indexes@, lo, hi) {
                        Ok(pr2) => {
                            assert(done0 + (seq![ov] + pr2.0) =~= done + pr2.0);
                        },
                        Err(_) => {},
                    }
                }
                pos = pos + total;
            }
        }
        proof {
            assert(done + Seq::<OutRec>::empty() =~= done);
        }
        Ok(out)
    }
}

} // verus!
