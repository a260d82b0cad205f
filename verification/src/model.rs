//! Mathematical model of one cutting run: a recursive description of
//! the records the engine writes, against which the executable engine
//! is proved.
use vstd::prelude::*;

use crate::format::{
    event_shape, rec_size, rec_type, str_index, word_at, EventShape, TYPE_EVENT, TYPE_LARGE,
    TYPE_STRING,
};
use crate::CutError;

verus! {

/// One record of the output stream.
pub ghost enum OutRec {
    /// A backfilled string definition.
    Str { idx: u16, bytes: Seq<u8> },
    /// A surviving event, copied verbatim.
    Event { ts: Option<u64>, refs: Seq<u16>, bytes: Seq<u8> },
    /// A record of any other type, passed through verbatim.
    Other { bytes: Seq<u8> },
}

pub open spec fn out_bytes(r: OutRec) -> Seq<u8> {
    match r {
        OutRec::Str { bytes, .. } => bytes,
        OutRec::Event { bytes, .. } => bytes,
        OutRec::Other { bytes } => bytes,
    }
}

pub open spec fn is_str(r: OutRec) -> bool {
    r is Str
}

pub open spec fn is_event(r: OutRec) -> bool {
    r is Event
}

pub open spec fn is_other(r: OutRec) -> bool {
    r is Other
}

pub open spec fn str_idx_of(r: OutRec) -> u16
    recommends
        r is Str,
{
    r->Str_idx
}

pub open spec fn ev_ts_of(r: OutRec) -> Option<u64>
    recommends
        r is Event,
{
    r->Event_ts
}

pub open spec fn ev_refs_of(r: OutRec) -> Seq<u16>
    recommends
        r is Event,
{
    r->Event_refs
}

/// The output bytes of a run: the records' bytes, concatenated.
pub open spec fn cat_bytes(rs: Seq<OutRec>) -> Seq<u8>
    decreases rs.len(),
{
    if rs.len() == 0 {
        Seq::empty()
    } else {
        out_bytes(rs[0]) + cat_bytes(rs.drop_first())
    }
}

/// The whole record whose header sits at byte `off`.
pub open spec fn rec_bytes_at(b: Seq<u8>, off: int) -> Seq<u8> {
    b.subrange(off, off + rec_size(word_at(b, off)) * 8)
}

/// Every cached offset names a complete record inside the input.
pub open spec fn offsets_wf(offs: Map<u16, usize>, b: Seq<u8>) -> bool {
    forall|idx: u16|
        #[trigger] offs.contains_key(idx) ==> {
            &&& offs[idx] + 8 <= b.len()
            &&& rec_size(word_at(b, offs[idx] as int)) >= 1
            &&& offs[idx] + rec_size(word_at(b, offs[idx] as int)) * 8 <= b.len()
        }
}

/// Backfill of the references `refs[i..]`: the string records written,
/// in order, and the emitted-set afterwards. An index absent from the
/// offset cache is a dangling reference.
pub open spec fn resolve(
    b: Seq<u8>,
    refs: Seq<u16>,
    i: int,
    offs: Map<u16, usize>,
    written: Set<u16>,
) -> Result<(Seq<OutRec>, Set<u16>), CutError>
    decreases refs.len() - i,
{
    if i < 0 || i >= refs.len() {
        Ok((Seq::empty(), written))
    } else {
        let idx = refs[i];
        if written.contains(idx) {
            resolve(b, refs, i + 1, offs, written)
        } else if !offs.contains_key(idx) {
            Err(CutError::DanglingReference { index: idx })
        } else {
            match resolve(b, refs, i + 1, offs, written.insert(idx)) {
                Ok((rs, w)) => Ok(
                    (
                        seq![OutRec::Str { idx, bytes: rec_bytes_at(b, offs[idx] as int) }] + rs,
                        w,
                    ),
                ),
                Err(e) => Err(e),
            }
        }
    }
}

/// One engine run from byte `p` with the given offset cache and
/// emitted-set: the records written from here on and the final
/// emitted-set, or the first fatal error.
pub open spec fn scan(
    b: Seq<u8>,
    p: int,
    offs: Map<u16, usize>,
    written: Set<u16>,
    lo: u64,
    hi: u64,
) -> Result<(Seq<OutRec>, Set<u16>), CutError>
    decreases b.len() - p,
{
    if p < 0 || p >= b.len() {
        Ok((Seq::empty(), written))
    } else if p + 8 > b.len() {
        Err(CutError::Format { offset: p as usize })
    } else {
        let h = word_at(b, p);
        let total = rec_size(h) * 8;
        if rec_size(h) == 0 || rec_type(h) == TYPE_LARGE {
            Err(CutError::Format { offset: p as usize })
        } else if rec_type(h) == TYPE_STRING {
            if p + total > b.len() {
                Ok((Seq::empty(), written))
            } else {
                scan(b, p + total, offs.insert(str_index(h), p as usize), written, lo, hi)
            }
        } else if rec_type(h) == TYPE_EVENT {
            if p + total > b.len() {
                Err(CutError::Format { offset: p as usize })
            } else {
                match event_shape(b, p, total) {
                    None => Err(CutError::Format { offset: p as usize }),
                    Some(s) => {
                        let included = match s.ts {
                            Some(ts) => lo <= ts && ts <= hi,
                            None => true,
                        };
                        if !included {
                            scan(b, p + total, offs, written, lo, hi)
                        } else {
                            match resolve(b, s.refs, 0, offs, written) {
                                Err(e) => Err(e),
                                Ok((strs, w1)) => {
                                    let ev = OutRec::Event {
                                        ts: s.ts,
                                        refs: s.refs,
                                        bytes: b.subrange(p, p + total),
                                    };
                                    match scan(b, p + total, offs, w1, lo, hi) {
                                        Err(e) => Err(e),
                                        Ok((rest, w2)) => Ok((strs + seq![ev] + rest, w2)),
                                    }
                                },
                            }
                        }
                    },
                }
            }
        } else {
            if p + total > b.len() {
                Err(CutError::Format { offset: p as usize })
            } else {
                match scan(b, p + total, offs, written, lo, hi) {
                    Err(e) => Err(e),
                    Ok((rest, w2)) => Ok(
                        (seq![OutRec::Other { bytes: b.subrange(p, p + total) }] + rest, w2),
                    ),
                }
            }
        }
    }
}

/// The records a whole run over `b` writes, for the inclusive window
/// `[lo, hi]`, or its fatal error.
pub open spec fn cut_model(b: Seq<u8>, lo: u64, hi: u64) -> Result<Seq<OutRec>, CutError> {
    match scan(b, 0, Map::empty(), Set::empty(), lo, hi) {
        Ok((rs, w)) => Ok(rs),
        Err(e) => Err(e),
    }
}

/// How many string records with index `idx` the output holds.
pub open spec fn str_count(rs: Seq<OutRec>, idx: u16) -> nat
    decreases rs.len(),
{
    if rs.len() == 0 {
        0
    } else {
        (if is_str(rs[0]) && str_idx_of(rs[0]) == idx {
            1nat
        } else {
            0nat
        }) + str_count(rs.drop_first(), idx)
    }
}

/// Whether the output holds a string record with index `idx`.
pub open spec fn has_str(rs: Seq<OutRec>, idx: u16) -> bool {
    exists|j: int| 0 <= j < rs.len() && is_str(#[trigger] rs[j]) && str_idx_of(rs[j]) == idx
}

/// `bytes` is, verbatim, a complete string record of the input that
/// defines index `idx`.
pub open spec fn is_string_def(b: Seq<u8>, bytes: Seq<u8>, idx: u16) -> bool {
    exists|off: int|
        {
            &&& 0 <= off
            &&& off + 8 <= b.len()
            &&& off + rec_size(#[trigger] word_at(b, off)) * 8 <= b.len()
            &&& rec_size(word_at(b, off)) >= 1
            &&& rec_type(word_at(b, off)) == TYPE_STRING
            &&& str_index(word_at(b, off)) == idx
            &&& bytes == rec_bytes_at(b, off)
        }
}

/// Every cached offset names a complete string record of the input
/// that defines exactly the index it is cached under.
pub open spec fn offsets_sem(offs: Map<u16, usize>, b: Seq<u8>) -> bool {
    forall|idx: u16|
        #[trigger] offs.contains_key(idx) ==> {
            &&& offs[idx] + 8 <= b.len()
            &&& rec_size(word_at(b, offs[idx] as int)) >= 1
            &&& offs[idx] + rec_size(word_at(b, offs[idx] as int)) * 8 <= b.len()
            &&& rec_type(word_at(b, offs[idx] as int)) == TYPE_STRING
            &&& str_index(word_at(b, offs[idx] as int)) == idx
        }
}

/// The bytes of the input's records from byte `p` on that are neither
/// string nor event records, in input order, up to the first point the
/// scan cannot pass.
pub open spec fn others_from(b: Seq<u8>, p: int) -> Seq<Seq<u8>>
    decreases b.len() - p,
{
    if p < 0 || p >= b.len() || p + 8 > b.len() {
        Seq::empty()
    } else {
        let h = word_at(b, p);
        let total = rec_size(h) * 8;
        if rec_size(h) == 0 || rec_type(h) == TYPE_LARGE || p + total > b.len() {
            Seq::empty()
        } else if rec_type(h) == TYPE_STRING || rec_type(h) == TYPE_EVENT {
            others_from(b, p + total)
        } else {
            seq![b.subrange(p, p + total)] + others_from(b, p + total)
        }
    }
}

/// The bytes of the passthrough records of an output, in order.
pub open spec fn other_bytes(rs: Seq<OutRec>) -> Seq<Seq<u8>>
    decreases rs.len(),
{
    if rs.len() == 0 {
        Seq::empty()
    } else if is_other(rs[0]) {
        seq![out_bytes(rs[0])] + other_bytes(rs.drop_first())
    } else {
        other_bytes(rs.drop_first())
    }
}

/// Byte `q` is a record boundary the forward scan visits when it
/// starts at byte `p`.
pub open spec fn reaches(b: Seq<u8>, p: int, q: int) -> bool
    decreases b.len() - p,
{
    if p == q {
        true
    } else if p < 0 || p + 8 > b.len() || rec_size(word_at(b, p)) == 0 || p + rec_size(
        word_at(b, p),
    ) * 8 > b.len() {
        false
    } else {
        reaches(b, p + rec_size(word_at(b, p)) * 8, q)
    }
}

/// A complete string record defining `idx` sits at byte `q` of the input.
pub open spec fn defines_idx_at(b: Seq<u8>, q: int, idx: u16) -> bool {
    &&& 0 <= q
    &&& q + 8 <= b.len()
    &&& rec_size(word_at(b, q)) >= 1
    &&& q + rec_size(word_at(b, q)) * 8 <= b.len()
    &&& rec_type(word_at(b, q)) == TYPE_STRING
    &&& str_index(word_at(b, q)) == idx
}

/// Some record the scan visits before reaching byte `q` defines `idx`.
pub open spec fn defined_before(b: Seq<u8>, q: int, idx: u16) -> bool {
    exists|d: int| #[trigger] reaches(b, 0, d) && d < q && defines_idx_at(b, d, idx)
}

/// Concatenation splits over sequence append.
pub proof fn lemma_cat_bytes_app(a: Seq<OutRec>, c: Seq<OutRec>)
    ensures
        cat_bytes(a + c) == cat_bytes(a) + cat_bytes(c),
    decreases a.len(),
{
    if a.len() == 0 {
        assert(a + c =~= c);
        assert(cat_bytes(a) + cat_bytes(c) =~= cat_bytes(c));
    } else {
        assert((a + c).drop_first() =~= a.drop_first() + c);
        lemma_cat_bytes_app(a.drop_first(), c);
        assert(out_bytes(a[0]) + (cat_bytes(a.drop_first()) + cat_bytes(c)) =~= (out_bytes(a[0])
            + cat_bytes(a.drop_first())) + cat_bytes(c));
    }
}

} // verus!
