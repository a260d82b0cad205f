//! The guarantees of a successful run, proved of the model that `cut`
//! is proved to implement: window correctness, backfill exactness,
//! passthrough fidelity, and dangling-reference detection.
use vstd::prelude::*;

use crate::format::{event_shape, rec_size, rec_type, str_index, word_at, EventShape, TYPE_EVENT};
use crate::model::{
    cut_model, defined_before, defines_idx_at, ev_refs_of, ev_ts_of, has_str, is_event, is_other,
    is_str, is_string_def, offsets_sem, other_bytes, others_from, out_bytes, reaches, rec_bytes_at,
    resolve, scan, str_count, str_idx_of, OutRec,
};
use crate::CutError;

verus! {

/// Counting string records splits over append.
proof fn lemma_str_count_app(a: Seq<OutRec>, c: Seq<OutRec>, idx: u16)
    ensures
        str_count(a + c, idx) == str_count(a, idx) + str_count(c, idx),
    decreases a.len(),
{
    if a.len() == 0 {
        assert(a + c =~= c);
    } else {
        assert((a + c).drop_first() =~= a.drop_first() + c);
        assert((a + c)[0] == a[0]);
        lemma_str_count_app(a.drop_first(), c, idx);
    }
}

/// An output holds a string record for `idx` exactly when its count is
/// positive.
proof fn lemma_has_str_count(rs: Seq<OutRec>, idx: u16)
    ensures
        has_str(rs, idx) <==> str_count(rs, idx) >= 1,
    decreases rs.len(),
{
    if rs.len() == 0 {
    } else {
        lemma_has_str_count(rs.drop_first(), idx);
        if is_str(rs[0]) && str_idx_of(rs[0]) == idx {
            assert(has_str(rs, idx));
        } else {
            if has_str(rs.drop_first(), idx) {
                let j = choose|j: int|
                    0 <= j < rs.drop_first().len() && is_str(#[trigger] rs.drop_first()[j])
                        && str_idx_of(rs.drop_first()[j]) == idx;
                assert(rs.drop_first()[j] == rs[j + 1]);
                assert(has_str(rs, idx));
            }
            if has_str(rs, idx) {
                let j = choose|j: int|
                    0 <= j < rs.len() && is_str(#[trigger] rs[j]) && str_idx_of(rs[j]) == idx;
                assert(j != 0);
                assert(rs.drop_first()[j - 1] == rs[j]);
                assert(has_str(rs.drop_first(), idx));
            }
        }
    }
}

/// What a successful backfill writes: only string records, each taken
/// verbatim from the cached definition of an index that the reference
/// list names and the emitted-set did not yet hold; the emitted-set
/// afterwards holds exactly the old indices and the newly written
/// ones, and every listed reference.
proof fn lemma_resolve_props(
    b: Seq<u8>,
    refs: Seq<u16>,
    i: int,
    offs: Map<u16, usize>,
    w: Set<u16>,
    rs: Seq<OutRec>,
    w2: Set<u16>,
)
    requires
        0 <= i,
        resolve(b, refs, i, offs, w) == Ok::<(Seq<OutRec>, Set<u16>), CutError>((rs, w2)),
    ensures
        forall|j: int| 0 <= j < rs.len() ==> is_str(#[trigger] rs[j]),
        forall|j: int|
            0 <= j < rs.len() ==> offs.contains_key(str_idx_of(#[trigger] rs[j])) && out_bytes(
                rs[j],
            ) == rec_bytes_at(b, offs[str_idx_of(rs[j])] as int),
        forall|j: int|
            0 <= j < rs.len() ==> exists|k: int|
                i <= k < refs.len() && refs[k] == str_idx_of(#[trigger] rs[j]),
        forall|idx: u16|
            #[trigger] w2.contains(idx) <==> w.contains(idx) || has_str(rs, idx),
        forall|k: int| i <= k < refs.len() ==> w2.contains(#[trigger] refs[k]),
        forall|idx: u16| w.contains(idx) ==> str_count(rs, idx) == 0,
        forall|idx: u16| #[trigger] str_count(rs, idx) <= 1,
    decreases refs.len() - i,
{
    if i >= refs.len() {
        assert(rs =~= Seq::<OutRec>::empty());
        assert(forall|idx: u16| #[trigger] str_count(rs, idx) == 0);
    } else {
        let idx = refs[i];
        if w.contains(idx) {
            lemma_resolve_props(b, refs, i + 1, offs, w, rs, w2);
            assert forall|k: int| i <= k < refs.len() implies w2.contains(
                #[trigger] refs[k],
            ) by {
                if k == i {
                    assert(w.contains(refs[i]));
                }
            }
        } else {
            match resolve(b, refs, i + 1, offs, w.insert(idx)) {
                Ok((rs1, w1)) => {
                    let s = OutRec::Str { idx, bytes: rec_bytes_at(b, offs[idx] as int) };
                    assert(rs == seq![s] + rs1);
                    lemma_resolve_props(b, refs, i + 1, offs, w.insert(idx), rs1, w1);
                    assert(rs[0] == s);
                    assert(rs.drop_first() =~= rs1);
                    // positions shift by one against rs1
                    assert forall|j: int| 0 <= j < rs.len() implies is_str(#[trigger] rs[j]) by {
                        if j > 0 {
                            assert(rs[j] == rs1[j - 1]);
                        }
                    }
                    assert forall|j: int| 0 <= j < rs.len() implies offs.contains_key(
                        str_idx_of(#[trigger] rs[j]),
                    ) && out_bytes(rs[j]) == rec_bytes_at(b, offs[str_idx_of(rs[j])] as int) by {
                        if j > 0 {
                            assert(rs[j] == rs1[j - 1]);
                        }
                    }
                    assert forall|j: int| 0 <= j < rs.len() implies exists|k: int|
                        i <= k < refs.len() && refs[k] == str_idx_of(#[trigger] rs[j]) by {
                        if j == 0 {
                            assert(refs[i] == str_idx_of(rs[0]));
                        } else {
                            assert(rs[j] == rs1[j - 1]);
                            let k = choose|k: int|
                                i + 1 <= k < refs.len() && refs[k] == str_idx_of(rs1[j - 1]);
                            assert(refs[k] == str_idx_of(rs[j]));
                        }
                    }
                    assert forall|idx2: u16| #[trigger]
                        w2.contains(idx2) <==> w.contains(idx2) || has_str(rs, idx2) by {
                        lemma_str_count_app(seq![s], rs1, idx2);
                        assert(seq![s].drop_first() =~= Seq::<OutRec>::empty());
                        lemma_has_str_count(rs, idx2);
                        lemma_has_str_count(rs1, idx2);
                    }
                    assert forall|k: int| i <= k < refs.len() implies w2.contains(
                        #[trigger] refs[k],
                    ) by {
                        if k == i {
                            assert(w.insert(idx).contains(idx));
                            assert(w1.contains(idx));
                        } else {
                            assert(w1.contains(refs[k]));
                        }
                    }
                    assert forall|idx2: u16| w.contains(idx2) implies str_count(rs, idx2)
                        == 0 by {
                        lemma_str_count_app(seq![s], rs1, idx2);
                        assert(seq![s].drop_first() =~= Seq::<OutRec>::empty());
                    }
                    assert forall|idx2: u16| #[trigger] str_count(rs, idx2) <= 1 by {
                        lemma_str_count_app(seq![s], rs1, idx2);
                        assert(seq![s].drop_first() =~= Seq::<OutRec>::empty());
                        if idx2 == idx {
                            assert(w.insert(idx).contains(idx2));
                            assert(str_count(rs1, idx2) == 0);
                        }
                    }
                },
                Err(_) => {
                    assert(false);
                },
            }
        }
    }
}

/// The combined induction over one run: every written event with a
/// determined timestamp lies in the window; every written string
/// record is a verbatim string definition of the input; indices in the
/// incoming emitted-set are never written again, no index twice; the
/// final emitted-set is the incoming one plus what was written; and
/// every index an output event references is either already emitted or
/// defined by an earlier output record.
proof fn lemma_scan_props(
    b: Seq<u8>,
    p: int,
    offs: Map<u16, usize>,
    w: Set<u16>,
    lo: u64,
    hi: u64,
    rs: Seq<OutRec>,
    w2: Set<u16>,
)
    requires
        b.len() <= usize::MAX,
        offsets_sem(offs, b),
        scan(b, p, offs, w, lo, hi) == Ok::<(Seq<OutRec>, Set<u16>), CutError>((rs, w2)),
    ensures
        forall|j: int|
            0 <= j < rs.len() && is_event(#[trigger] rs[j]) ==> (ev_ts_of(rs[j]) matches Some(t)
                ==> lo <= t && t <= hi),
        forall|j: int|
            0 <= j < rs.len() && is_str(#[trigger] rs[j]) ==> is_string_def(
                b,
                out_bytes(rs[j]),
                str_idx_of(rs[j]),
            ),
        forall|idx: u16| w.contains(idx) ==> str_count(rs, idx) == 0,
        forall|idx: u16| #[trigger] str_count(rs, idx) <= 1,
        forall|idx: u16| #[trigger] w2.contains(idx) <==> w.contains(idx) || has_str(rs, idx),
        forall|j: int, idx: u16|
            0 <= j < rs.len() && is_event(rs[j]) && #[trigger] ev_refs_of(rs[j]).contains(idx)
                ==> w.contains(idx) || exists|k: int|
                0 <= k < j && is_str(#[trigger] rs[k]) && str_idx_of(rs[k]) == idx,
    decreases b.len() - p,
{
    if p < 0 || p >= b.len() {
        assert(rs =~= Seq::<OutRec>::empty());
    } else if p + 8 > b.len() {
        assert(false);
    } else {
        let h = word_at(b, p);
        let total = rec_size(h) * 8;
        if rec_size(h) == 0 || rec_type(h) == crate::format::TYPE_LARGE {
            assert(false);
        } else if rec_type(h) == crate::format::TYPE_STRING {
            if p + total > b.len() {
                assert(rs =~= Seq::<OutRec>::empty());
            } else {
                let offs1 = offs.insert(str_index(h), p as usize);
                assert(p as usize == p);
                assert forall|k: u16| #[trigger] offs1.contains_key(k) implies {
                    &&& offs1[k] + 8 <= b.len()
                    &&& rec_size(word_at(b, offs1[k] as int)) >= 1
                    &&& offs1[k] + rec_size(word_at(b, offs1[k] as int)) * 8 <= b.len()
                    &&& rec_type(word_at(b, offs1[k] as int)) == crate::format::TYPE_STRING
                    &&& str_index(word_at(b, offs1[k] as int)) == k
                } by {
                    if k != str_index(h) {
                        assert(offs.contains_key(k));
                    }
                }
                lemma_scan_props(b, p + total, offs1, w, lo, hi, rs, w2);
            }
        } else if rec_type(h) == TYPE_EVENT {
            if p + total > b.len() {
                assert(false);
            } else {
                match event_shape(b, p, total) {
                    None => {
                        assert(false);
                    },
                    Some(s) => {
                        let included = match s.ts {
                            Some(ts) => lo <= ts && ts <= hi,
                            None => true,
                        };
                        if !included {
                            lemma_scan_props(b, p + total, offs, w, lo, hi, rs, w2);
                        } else {
                            match resolve(b, s.refs, 0, offs, w) {
                                Err(_) => {
                                    assert(false);
                                },
                                Ok((strs, w1)) => {
                                    let ev = OutRec::Event {
                                        ts: s.ts,
                                        refs: s.refs,
                                        bytes: b.subrange(p, p + total),
                                    };
                                    match scan(b, p + total, offs, w1, lo, hi) {
                                        Err(_) => {
                                            assert(false);
                                        },
                                        Ok((rest, wr)) => {
                                            assert(rs == strs + seq![ev] + rest);
                                            assert(wr == w2);
                                            lemma_resolve_props(b, s.refs, 0, offs, w, strs, w1);
                                            lemma_scan_props(
                                                b,
                                                p + total,
                                                offs,
                                                w1,
                                                lo,
                                                hi,
                                                rest,
                                                w2,
                                            );
                                            lemma_scan_event_glue(
                                                b, offs, w, lo, hi, rs, w2, s.ts, s.refs, strs,
                                                w1, ev, rest,
                                            );
                                        },
                                    }
                                },
                            }
                        }
                    },
                }
            }
        } else {
            if p + total > b.len() {
                assert(false);
            } else {
                match scan(b, p + total, offs, w, lo, hi) {
                    Err(_) => {
                        assert(false);
                    },
                    Ok((rest, wr)) => {
                        let ov = OutRec::Other { bytes: b.subrange(p, p + total) };
                        assert(rs == seq![ov] + rest);
                        lemma_scan_props(b, p + total, offs, w, lo, hi, rest, w2);
                        assert(rs.drop_first() =~= rest);
                        assert(rs[0] == ov);
                        assert forall|j: int| 0 <= j < rs.len() && is_event(
                            #[trigger] rs[j],
                        ) implies (ev_ts_of(rs[j]) matches Some(t) ==> lo <= t && t <= hi) by {
                            if j > 0 {
                                assert(rs[j] == rest[j - 1]);
                            }
                        }
                        assert forall|j: int| 0 <= j < rs.len() && is_str(
                            #[trigger] rs[j],
                        ) implies is_string_def(b, out_bytes(rs[j]), str_idx_of(rs[j])) by {
                            if j > 0 {
                                assert(rs[j] == rest[j - 1]);
                            }
                        }
                        assert forall|idx: u16| w.contains(idx) implies str_count(rs, idx)
                            == 0 by {
                            lemma_str_count_app(seq![ov], rest, idx);
                            assert(seq![ov].drop_first() =~= Seq::<OutRec>::empty());
                        }
                        assert forall|idx: u16| #[trigger] str_count(rs, idx) <= 1 by {
                            lemma_str_count_app(seq![ov], rest, idx);
                            assert(seq![ov].drop_first() =~= Seq::<OutRec>::empty());
                        }
                        assert forall|idx: u16| #[trigger]
                            w2.contains(idx) <==> w.contains(idx) || has_str(rs, idx) by {
                            lemma_str_count_app(seq![ov], rest, idx);
                            assert(seq![ov].drop_first() =~= Seq::<OutRec>::empty());
                            lemma_has_str_count(rs, idx);
                            lemma_has_str_count(rest, idx);
                        }
                        assert forall|j: int, idx: u16|
                            0 <= j < rs.len() && is_event(rs[j]) && #[trigger] ev_refs_of(
                                rs[j],
                            ).contains(idx) implies w.contains(idx) || exists|k: int|
                            0 <= k < j && is_str(#[trigger] rs[k]) && str_idx_of(rs[k])
                                == idx by {
                            if j > 0 {
                                assert(rs[j] == rest[j - 1]);
                                if !w.contains(idx) {
                                    let k0 = choose|k0: int|
                                        0 <= k0 < j - 1 && is_str(#[trigger] rest[k0])
                                            && str_idx_of(rest[k0]) == idx;
                                    assert(rs[k0 + 1] == rest[k0]);
                                    assert(is_str(rs[k0 + 1]) && str_idx_of(rs[k0 + 1]) == idx);
                                }
                            }
                        }
                    },
                }
            }
        }
    }
}

/// Lifting the claims over the three parts an included event writes:
/// its backfilled strings, the event itself, and the rest of the run.
proof fn lemma_scan_event_glue(
    b: Seq<u8>,
    offs: Map<u16, usize>,
    w: Set<u16>,
    lo: u64,
    hi: u64,
    rs: Seq<OutRec>,
    w2: Set<u16>,
    ts: Option<u64>,
    refs: Seq<u16>,
    strs: Seq<OutRec>,
    w1: Set<u16>,
    ev: OutRec,
    rest: Seq<OutRec>,
)
    requires
        offsets_sem(offs, b),
        rs == strs + seq![ev] + rest,
        ev is Event,
        ev_ts_of(ev) == ts,
        ev_refs_of(ev) == refs,
        ts matches Some(t) ==> lo <= t && t <= hi,
        // what the backfill guarantees
        forall|j: int| 0 <= j < strs.len() ==> is_str(#[trigger] strs[j]),
        forall|j: int|
            0 <= j < strs.len() ==> offs.contains_key(str_idx_of(#[trigger] strs[j]))
                && out_bytes(strs[j]) == rec_bytes_at(b, offs[str_idx_of(strs[j])] as int),
        forall|idx: u16| #[trigger] w1.contains(idx) <==> w.contains(idx) || has_str(strs, idx),
        forall|k: int| 0 <= k < refs.len() ==> w1.contains(#[trigger] refs[k]),
        forall|idx: u16| w.contains(idx) ==> str_count(strs, idx) == 0,
        forall|idx: u16| #[trigger] str_count(strs, idx) <= 1,
        // what the rest of the run guarantees
        forall|j: int|
            0 <= j < rest.len() && is_event(#[trigger] rest[j]) ==> (ev_ts_of(rest[j]) matches Some(
                t,
            ) ==> lo <= t && t <= hi),
        forall|j: int|
            0 <= j < rest.len() && is_str(#[trigger] rest[j]) ==> is_string_def(
                b,
                out_bytes(rest[j]),
                str_idx_of(rest[j]),
            ),
        forall|idx: u16| w1.contains(idx) ==> str_count(rest, idx) == 0,
        forall|idx: u16| #[trigger] str_count(rest, idx) <= 1,
        forall|idx: u16| #[trigger] w2.contains(idx) <==> w1.contains(idx) || has_str(rest, idx),
        forall|j: int, idx: u16|
            0 <= j < rest.len() && is_event(rest[j]) && #[trigger] ev_refs_of(rest[j]).contains(
                idx,
            ) ==> w1.contains(idx) || exists|k: int|
                0 <= k < j && is_str(#[trigger] rest[k]) && str_idx_of(rest[k]) == idx,
    ensures
        forall|j: int|
            0 <= j < rs.len() && is_event(#[trigger] rs[j]) ==> (ev_ts_of(rs[j]) matches Some(t)
                ==> lo <= t && t <= hi),
        forall|j: int|
            0 <= j < rs.len() && is_str(#[trigger] rs[j]) ==> is_string_def(
                b,
                out_bytes(rs[j]),
                str_idx_of(rs[j]),
            ),
        forall|idx: u16| w.contains(idx) ==> str_count(rs, idx) == 0,
        forall|idx: u16| #[trigger] str_count(rs, idx) <= 1,
        forall|idx: u16| #[trigger] w2.contains(idx) <==> w.contains(idx) || has_str(rs, idx),
        forall|j: int, idx: u16|
            0 <= j < rs.len() && is_event(rs[j]) && #[trigger] ev_refs_of(rs[j]).contains(idx)
                ==> w.contains(idx) || exists|k: int|
                0 <= k < j && is_str(#[trigger] rs[k]) && str_idx_of(rs[k]) == idx,
{
    let sl = strs.len() as int;
    assert forall|j: int| 0 <= j < rs.len() implies {
        &&& (j < sl ==> rs[j] == strs[j])
        &&& (j == sl ==> rs[j] == ev)
        &&& (j > sl ==> rs[j] == rest[j - sl - 1])
    } by {}
    // counts split over the three parts
    assert forall|idx: u16|
        str_count(rs, idx) == str_count(strs, idx) + str_count(rest, idx) by {
        lemma_str_count_app(strs + seq![ev], rest, idx);
        lemma_str_count_app(strs, seq![ev], idx);
        assert(seq![ev].drop_first() =~= Seq::<OutRec>::empty());
        assert(seq![ev][0] == ev);
        assert(str_count(Seq::<OutRec>::empty(), idx) == 0);
        assert(str_count(seq![ev], idx) == 0);
    }
    assert forall|j: int| 0 <= j < rs.len() && is_event(#[trigger] rs[j]) implies (ev_ts_of(
        rs[j],
    ) matches Some(t) ==> lo <= t && t <= hi) by {
        if j < sl {
            assert(is_str(strs[j]));
        }
    }
    assert forall|j: int| 0 <= j < rs.len() && is_str(#[trigger] rs[j]) implies is_string_def(
        b,
        out_bytes(rs[j]),
        str_idx_of(rs[j]),
    ) by {
        if j < sl {
            let off = offs[str_idx_of(strs[j])] as int;
            assert(offs.contains_key(str_idx_of(strs[j])));
            assert(rec_type(word_at(b, off)) == crate::format::TYPE_STRING);
            assert(is_string_def(b, out_bytes(rs[j]), str_idx_of(rs[j])));
        }
    }
    assert forall|idx: u16| w.contains(idx) implies str_count(rs, idx) == 0 by {
        assert(w1.contains(idx));
    }
    assert forall|idx: u16| #[trigger] str_count(rs, idx) <= 1 by {
        if str_count(strs, idx) >= 1 {
            lemma_has_str_count(strs, idx);
            assert(w1.contains(idx));
            assert(str_count(rest, idx) == 0);
        }
    }
    assert forall|idx: u16| #[trigger]
        w2.contains(idx) <==> w.contains(idx) || has_str(rs, idx) by {
        lemma_has_str_count(rs, idx);
        lemma_has_str_count(strs, idx);
        lemma_has_str_count(rest, idx);
    }
    assert forall|j: int, idx: u16|
        0 <= j < rs.len() && is_event(rs[j]) && #[trigger] ev_refs_of(rs[j]).contains(idx) implies
        w.contains(idx) || exists|k: int|
            0 <= k < j && is_str(#[trigger] rs[k]) && str_idx_of(rs[k]) == idx by {
        if !w.contains(idx) {
            if j < sl {
                assert(is_str(strs[j]));
            } else if j == sl {
                let k0 = choose|k0: int| 0 <= k0 < refs.len() && refs[k0] == idx;
                assert(refs.contains(idx));
                assert(exists|k0: int| 0 <= k0 < refs.len() && refs[k0] == idx);
                assert(w1.contains(idx));
                lemma_has_str_count(strs, idx);
                let k = choose|k: int|
                    0 <= k < strs.len() && is_str(#[trigger] strs[k]) && str_idx_of(strs[k])
                        == idx;
                assert(rs[k] == strs[k]);
                assert(is_str(rs[k]) && str_idx_of(rs[k]) == idx);
            } else {
                if w1.contains(idx) {
                    lemma_has_str_count(strs, idx);
                    let k = choose|k: int|
                        0 <= k < strs.len() && is_str(#[trigger] strs[k]) && str_idx_of(strs[k])
                            == idx;
                    assert(rs[k] == strs[k]);
                    assert(is_str(rs[k]) && str_idx_of(rs[k]) == idx);
                } else {
                    let k0 = choose|k0: int|
                        0 <= k0 < j - sl - 1 && is_str(#[trigger] rest[k0]) && str_idx_of(
                            rest[k0],
                        ) == idx;
                    assert(rs[k0 + sl + 1] == rest[k0]);
                    assert(is_str(rs[k0 + sl + 1]) && str_idx_of(rs[k0 + sl + 1]) == idx);
                }
            }
        }
    }
}

/// Window correctness, first half: every event a successful run
/// writes whose subtype determines a timestamp has that timestamp
/// inside the inclusive window.
pub proof fn lemma_window_correctness(b: Seq<u8>, lo: u64, hi: u64, rs: Seq<OutRec>)
    requires
        b.len() <= usize::MAX,
        cut_model(b, lo, hi) == Ok::<Seq<OutRec>, CutError>(rs),
    ensures
        forall|j: int|
            0 <= j < rs.len() && is_event(#[trigger] rs[j]) ==> (ev_ts_of(rs[j]) matches Some(t)
                ==> lo <= t && t <= hi),
{
    match scan(b, 0, Map::<u16, usize>::empty(), Set::<u16>::empty(), lo, hi) {
        Ok(pr) => {
            lemma_scan_props(
                b,
                0,
                Map::<u16, usize>::empty(),
                Set::<u16>::empty(),
                lo,
                hi,
                pr.0,
                pr.1,
            );
        },
        Err(_) => {
            assert(false);
        },
    }
}

/// Backfill exactness: an index some written event references appears
/// exactly once among the run's string records, it appears before that
/// event, and what appears is a verbatim string definition of the
/// input for that very index.
pub proof fn lemma_backfill_exactness(
    b: Seq<u8>,
    lo: u64,
    hi: u64,
    rs: Seq<OutRec>,
    j: int,
    idx: u16,
)
    requires
        b.len() <= usize::MAX,
        cut_model(b, lo, hi) == Ok::<Seq<OutRec>, CutError>(rs),
        0 <= j < rs.len(),
        is_event(rs[j]),
        ev_refs_of(rs[j]).contains(idx),
    ensures
        str_count(rs, idx) == 1,
        exists|k: int| 0 <= k < j && is_str(#[trigger] rs[k]) && str_idx_of(rs[k]) == idx,
        forall|k: int|
            0 <= k < rs.len() && is_str(#[trigger] rs[k]) && str_idx_of(rs[k]) == idx
                ==> is_string_def(b, out_bytes(rs[k]), idx),
{
    match scan(b, 0, Map::<u16, usize>::empty(), Set::<u16>::empty(), lo, hi) {
        Ok(pr) => {
            lemma_scan_props(
                b,
                0,
                Map::<u16, usize>::empty(),
                Set::<u16>::empty(),
                lo,
                hi,
                pr.0,
                pr.1,
            );
            let k = choose|k: int|
                0 <= k < j && is_str(#[trigger] rs[k]) && str_idx_of(rs[k]) == idx;
            assert(has_str(rs, idx));
            lemma_has_str_count(rs, idx);
        },
        Err(_) => {
            assert(false);
        },
    }
}

/// Concatenating outputs concatenates their passthrough records.
proof fn lemma_other_bytes_app(a: Seq<OutRec>, c: Seq<OutRec>)
    ensures
        other_bytes(a + c) == other_bytes(a) + other_bytes(c),
    decreases a.len(),
{
    if a.len() == 0 {
        assert(a + c =~= c);
        assert(other_bytes(a) + other_bytes(c) =~= other_bytes(c));
    } else {
        assert((a + c).drop_first() =~= a.drop_first() + c);
        assert((a + c)[0] == a[0]);
        lemma_other_bytes_app(a.drop_first(), c);
        if is_other(a[0]) {
            assert(seq![out_bytes(a[0])] + (other_bytes(a.drop_first()) + other_bytes(c)) =~= (
            seq![out_bytes(a[0])] + other_bytes(a.drop_first())) + other_bytes(c));
        }
    }
}

/// A run's backfilled strings contribute no passthrough records.
proof fn lemma_other_bytes_none(a: Seq<OutRec>)
    requires
        forall|j: int| 0 <= j < a.len() ==> !is_other(#[trigger] a[j]),
    ensures
        other_bytes(a) == Seq::<Seq<u8>>::empty(),
    decreases a.len(),
{
    if a.len() == 0 {
    } else {
        assert(!is_other(a[0]));
        assert(forall|j: int| 0 <= j < a.drop_first().len() ==> a.drop_first()[j] == a[j + 1]);
        lemma_other_bytes_none(a.drop_first());
    }
}

/// The passthrough records of a successful scan from `p` are exactly
/// the input's non-string non-event records from `p` on, in order.
proof fn lemma_scan_others(
    b: Seq<u8>,
    p: int,
    offs: Map<u16, usize>,
    w: Set<u16>,
    lo: u64,
    hi: u64,
    rs: Seq<OutRec>,
    w2: Set<u16>,
)
    requires
        scan(b, p, offs, w, lo, hi) == Ok::<(Seq<OutRec>, Set<u16>), CutError>((rs, w2)),
    ensures
        other_bytes(rs) == others_from(b, p),
    decreases b.len() - p,
{
    if p < 0 || p >= b.len() {
        assert(rs =~= Seq::<OutRec>::empty());
    } else if p + 8 > b.len() {
        assert(false);
    } else {
        let h = word_at(b, p);
        let total = rec_size(h) * 8;
        if rec_size(h) == 0 || rec_type(h) == crate::format::TYPE_LARGE {
            assert(false);
        } else if rec_type(h) == crate::format::TYPE_STRING {
            if p + total > b.len() {
                assert(rs =~= Seq::<OutRec>::empty());
            } else {
                lemma_scan_others(
                    b,
                    p + total,
                    offs.insert(str_index(h), p as usize),
                    w,
                    lo,
                    hi,
                    rs,
                    w2,
                );
            }
        } else if rec_type(h) == TYPE_EVENT {
            if p + total > b.len() {
                assert(false);
            } else {
                match event_shape(b, p, total) {
                    None => {
                        assert(false);
                    },
                    Some(s) => {
                        let included = match s.ts {
                            Some(ts) => lo <= ts && ts <= hi,
                            None => true,
                        };
                        if !included {
                            lemma_scan_others(b, p + total, offs, w, lo, hi, rs, w2);
                        } else {
                            match resolve(b, s.refs, 0, offs, w) {
                                Err(_) => {
                                    assert(false);
                                },
                                Ok((strs, w1)) => {
                                    let ev = OutRec::Event {
                                        ts: s.ts,
                                        refs: s.refs,
                                        bytes: b.subrange(p, p + total),
                                    };
                                    match scan(b, p + total, offs, w1, lo, hi) {
                                        Err(_) => {
                                            assert(false);
                                        },
                                        Ok((rest, wr)) => {
                                            lemma_scan_others(
                                                b,
                                                p + total,
                                                offs,
                                                w1,
                                                lo,
                                                hi,
                                                rest,
                                                wr,
                                            );
                                            lemma_resolve_props(b, s.refs, 0, offs, w, strs, w1);
                                            lemma_other_bytes_app(strs + seq![ev], rest);
                                            lemma_other_bytes_app(strs, seq![ev]);
                                            lemma_other_bytes_none(strs);
                                            assert(seq![ev].drop_first() =~= Seq::<
                                                OutRec,
                                            >::empty());
                                            assert(seq![ev][0] == ev);
                                            assert(other_bytes(Seq::<OutRec>::empty()) == Seq::<
                                                Seq<u8>,
                                            >::empty());
                                            assert(other_bytes(seq![ev]) == Seq::<
                                                Seq<u8>,
                                            >::empty());
                                            assert(other_bytes(rs) =~= other_bytes(rest));
                                        },
                                    }
                                },
                            }
                        }
                    },
                }
            }
        } else {
            if p + total > b.len() {
                assert(false);
            } else {
                match scan(b, p + total, offs, w, lo, hi) {
                    Err(_) => {
                        assert(false);
                    },
                    Ok((rest, wr)) => {
                        let ov = OutRec::Other { bytes: b.subrange(p, p + total) };
                        lemma_scan_others(b, p + total, offs, w, lo, hi, rest, wr);
                        assert(rs == seq![ov] + rest);
                        assert(rs[0] == ov);
                        assert(rs.drop_first() =~= rest);
                        assert(other_bytes(rs) =~= seq![out_bytes(ov)] + other_bytes(rest));
                    },
                }
            }
        }
    }
}

/// Passthrough fidelity: a successful run writes the input's
/// non-string non-event records verbatim, in their input order.
pub proof fn lemma_passthrough_fidelity(b: Seq<u8>, lo: u64, hi: u64, rs: Seq<OutRec>)
    requires
        cut_model(b, lo, hi) == Ok::<Seq<OutRec>, CutError>(rs),
    ensures
        other_bytes(rs) == others_from(b, 0),
{
    match scan(b, 0, Map::<u16, usize>::empty(), Set::<u16>::empty(), lo, hi) {
        Ok(pr) => {
            lemma_scan_others(
                b,
                0,
                Map::<u16, usize>::empty(),
                Set::<u16>::empty(),
                lo,
                hi,
                pr.0,
                pr.1,
            );
        },
        Err(_) => {
            assert(false);
        },
    }
}

/// The scan's record boundaries never move backwards.
proof fn lemma_reaches_le(b: Seq<u8>, p: int, q: int)
    requires
        reaches(b, p, q),
    ensures
        p <= q,
    decreases b.len() - p,
{
    if p == q {
    } else {
        lemma_reaches_le(b, p + rec_size(word_at(b, p)) * 8, q);
    }
}

/// Stepping once more extends reachability.
proof fn lemma_reaches_extend(b: Seq<u8>, x: int, p: int)
    requires
        reaches(b, x, p),
        0 <= p,
        p + 8 <= b.len(),
        rec_size(word_at(b, p)) >= 1,
        p + rec_size(word_at(b, p)) * 8 <= b.len(),
    ensures
        reaches(b, x, p + rec_size(word_at(b, p)) * 8),
    decreases b.len() - x,
{
    if x == p {
        assert(reaches(b, p + rec_size(word_at(b, p)) * 8, p + rec_size(word_at(b, p)) * 8));
    } else {
        lemma_reaches_extend(b, x + rec_size(word_at(b, x)) * 8, p);
    }
}

/// A successful run from `p` writes, verbatim, every event record the
/// scan visits from `p` on whose shape survives the window.
proof fn lemma_scan_complete(
    b: Seq<u8>,
    p: int,
    offs: Map<u16, usize>,
    w: Set<u16>,
    lo: u64,
    hi: u64,
    rs: Seq<OutRec>,
    w2: Set<u16>,
    q: int,
    s: EventShape,
)
    requires
        scan(b, p, offs, w, lo, hi) == Ok::<(Seq<OutRec>, Set<u16>), CutError>((rs, w2)),
        reaches(b, p, q),
        0 <= q,
        q + 8 <= b.len(),
        rec_type(word_at(b, q)) == TYPE_EVENT,
        rec_size(word_at(b, q)) >= 1,
        q + rec_size(word_at(b, q)) * 8 <= b.len(),
        event_shape(b, q, rec_size(word_at(b, q)) * 8) == Some(s),
        s.ts matches Some(t) ==> lo <= t && t <= hi,
    ensures
        exists|j: int|
            0 <= j < rs.len() && rs[j] == (OutRec::Event {
                ts: s.ts,
                refs: s.refs,
                bytes: b.subrange(q, q + rec_size(word_at(b, q)) * 8),
            }),
    decreases b.len() - p,
{
    let target = OutRec::Event {
        ts: s.ts,
        refs: s.refs,
        bytes: b.subrange(q, q + rec_size(word_at(b, q)) * 8),
    };
    if p == q {
        let total = rec_size(word_at(b, p)) * 8;
        match resolve(b, s.refs, 0, offs, w) {
            Err(_) => {
                assert(false);
            },
            Ok((strs, w1)) => {
                match scan(b, p + total, offs, w1, lo, hi) {
                    Err(_) => {
                        assert(false);
                    },
                    Ok((rest, wr)) => {
                        let sl = strs.len() as int;
                        assert(rs == strs + seq![target] + rest);
                        assert(rs[sl] == target);
                    },
                }
            },
        }
    } else {
        let h = word_at(b, p);
        let total = rec_size(h) * 8;
        lemma_reaches_le(b, p, q);
        if rec_type(h) == crate::format::TYPE_STRING {
            lemma_scan_complete(
                b,
                p + total,
                offs.insert(str_index(h), p as usize),
                w,
                lo,
                hi,
                rs,
                w2,
                q,
                s,
            );
        } else if rec_type(h) == TYPE_EVENT {
            match event_shape(b, p, total) {
                None => {
                    assert(false);
                },
                Some(s0) => {
                    let included = match s0.ts {
                        Some(ts) => lo <= ts && ts <= hi,
                        None => true,
                    };
                    if !included {
                        lemma_scan_complete(b, p + total, offs, w, lo, hi, rs, w2, q, s);
                    } else {
                        match resolve(b, s0.refs, 0, offs, w) {
                            Err(_) => {
                                assert(false);
                            },
                            Ok((strs, w1)) => {
                                match scan(b, p + total, offs, w1, lo, hi) {
                                    Err(_) => {
                                        assert(false);
                                    },
                                    Ok((rest, wr)) => {
                                        lemma_scan_complete(
                                            b,
                                            p + total,
                                            offs,
                                            w1,
                                            lo,
                                            hi,
                                            rest,
                                            wr,
                                            q,
                                            s,
                                        );
                                        let sl = strs.len() as int;
                                        let j0 = choose|j0: int|
                                            0 <= j0 < rest.len() && rest[j0] == target;
                                        assert(rs[j0 + sl + 1] == rest[j0]);
                                    },
                                }
                            },
                        }
                    }
                },
            }
        } else {
            match scan(b, p + total, offs, w, lo, hi) {
                Err(_) => {
                    assert(false);
                },
                Ok((rest, wr)) => {
                    lemma_scan_complete(b, p + total, offs, w, lo, hi, rest, wr, q, s);
                    let ov = OutRec::Other { bytes: b.subrange(p, p + total) };
                    assert(rs == seq![ov] + rest);
                    let j0 = choose|j0: int| 0 <= j0 < rest.len() && rest[j0] == target;
                    assert(rs[j0 + 1] == rest[j0]);
                },
            }
        }
    }
}

/// Window correctness, second half: a successful run writes, verbatim,
/// every event record of the input whose determined timestamp lies in
/// the window, and every event record whose subtype determines none.
pub proof fn lemma_window_completeness(
    b: Seq<u8>,
    lo: u64,
    hi: u64,
    rs: Seq<OutRec>,
    q: int,
    s: EventShape,
)
    requires
        cut_model(b, lo, hi) == Ok::<Seq<OutRec>, CutError>(rs),
        reaches(b, 0, q),
        0 <= q,
        q + 8 <= b.len(),
        rec_type(word_at(b, q)) == TYPE_EVENT,
        rec_size(word_at(b, q)) >= 1,
        q + rec_size(word_at(b, q)) * 8 <= b.len(),
        event_shape(b, q, rec_size(word_at(b, q)) * 8) == Some(s),
        s.ts matches Some(t) ==> lo <= t && t <= hi,
    ensures
        exists|j: int|
            0 <= j < rs.len() && rs[j] == (OutRec::Event {
                ts: s.ts,
                refs: s.refs,
                bytes: b.subrange(q, q + rec_size(word_at(b, q)) * 8),
            }),
{
    match scan(b, 0, Map::<u16, usize>::empty(), Set::<u16>::empty(), lo, hi) {
        Ok(pr) => {
            lemma_scan_complete(
                b,
                0,
                Map::<u16, usize>::empty(),
                Set::<u16>::empty(),
                lo,
                hi,
                pr.0,
                pr.1,
                q,
                s,
            );
        },
        Err(_) => {
            assert(false);
        },
    }
}

/// A backfill over a reference list that names an index neither
/// emitted nor cached must fail.
proof fn lemma_resolve_dangles(
    b: Seq<u8>,
    refs: Seq<u16>,
    i: int,
    offs: Map<u16, usize>,
    w: Set<u16>,
    idx: u16,
)
    requires
        0 <= i,
        exists|k: int| i <= k < refs.len() && refs[k] == idx,
        !w.contains(idx),
        !offs.contains_key(idx),
        forall|k2: u16| w.contains(k2) ==> offs.contains_key(k2),
    ensures
        resolve(b, refs, i, offs, w) is Err,
    decreases refs.len() - i,
{
    let k = choose|k: int| i <= k < refs.len() && refs[k] == idx;
    let r0 = refs[i];
    if w.contains(r0) {
        assert(k != i);
        lemma_resolve_dangles(b, refs, i + 1, offs, w, idx);
    } else if !offs.contains_key(r0) {
    } else {
        assert(k != i);
        assert(!w.insert(r0).contains(idx));
        assert forall|k2: u16| w.insert(r0).contains(k2) implies offs.contains_key(k2) by {
            if k2 != r0 {
                assert(w.contains(k2));
            }
        }
        lemma_resolve_dangles(b, refs, i + 1, offs, w.insert(r0), idx);
    }
}

/// A run that meets a surviving event referencing an index no earlier
/// visited string record defines must end in a fatal error.
proof fn lemma_scan_dangling(
    b: Seq<u8>,
    p: int,
    offs: Map<u16, usize>,
    w: Set<u16>,
    lo: u64,
    hi: u64,
    q: int,
    s: EventShape,
    idx: u16,
)
    requires
        forall|k: u16| #[trigger] offs.contains_key(k) ==> defined_before(b, q, k),
        forall|k: u16| w.contains(k) ==> offs.contains_key(k),
        reaches(b, 0, p),
        reaches(b, p, q),
        0 <= q,
        q + 8 <= b.len(),
        rec_type(word_at(b, q)) == TYPE_EVENT,
        rec_size(word_at(b, q)) >= 1,
        q + rec_size(word_at(b, q)) * 8 <= b.len(),
        event_shape(b, q, rec_size(word_at(b, q)) * 8) == Some(s),
        s.ts matches Some(t) ==> lo <= t && t <= hi,
        s.refs.contains(idx),
        !defined_before(b, q, idx),
    ensures
        scan(b, p, offs, w, lo, hi) is Err,
    decreases b.len() - p,
{
    if p == q {
        assert(!offs.contains_key(idx));
        let k = choose|k: int| 0 <= k < s.refs.len() && s.refs[k] == idx;
        lemma_resolve_dangles(b, s.refs, 0, offs, w, idx);
    } else {
        let h = word_at(b, p);
        let total = rec_size(h) * 8;
        lemma_reaches_le(b, p, q);
        lemma_reaches_le(b, 0, p);
        lemma_reaches_extend(b, 0, p);
        if rec_type(h) == crate::format::TYPE_LARGE {
        } else if rec_type(h) == crate::format::TYPE_STRING {
            let offs1 = offs.insert(str_index(h), p as usize);
            assert forall|k: u16| #[trigger] offs1.contains_key(k) implies defined_before(
                b,
                q,
                k,
            ) by {
                if k == str_index(h) {
                    assert(reaches(b, 0, p) && p < q && defines_idx_at(b, p, k));
                } else {
                    assert(offs.contains_key(k));
                }
            }
            lemma_scan_dangling(b, p + total, offs1, w, lo, hi, q, s, idx);
        } else if rec_type(h) == TYPE_EVENT {
            match event_shape(b, p, total) {
                None => {},
                Some(s0) => {
                    let included = match s0.ts {
                        Some(ts) => lo <= ts && ts <= hi,
                        None => true,
                    };
                    if !included {
                        lemma_scan_dangling(b, p + total, offs, w, lo, hi, q, s, idx);
                    } else {
                        match resolve(b, s0.refs, 0, offs, w) {
                            Err(_) => {},
                            Ok((strs, w1)) => {
                                lemma_resolve_props(b, s0.refs, 0, offs, w, strs, w1);
                                assert forall|k2: u16| w1.contains(k2) implies offs.contains_key(
                                    k2,
                                ) by {
                                    if !w.contains(k2) {
                                        lemma_has_str_count(strs, k2);
                                        let j = choose|j: int|
                                            0 <= j < strs.len() && is_str(#[trigger] strs[j])
                                                && str_idx_of(strs[j]) == k2;
                                    }
                                }
                                lemma_scan_dangling(b, p + total, offs, w1, lo, hi, q, s, idx);
                            },
                        }
                    }
                },
            }
        } else {
            lemma_scan_dangling(b, p + total, offs, w, lo, hi, q, s, idx);
        }
    }
}

/// Dangling-reference detection: an input holding an event that the
/// window keeps, referencing an index that no string record visited
/// earlier defines, makes the whole run fail — never a silently
/// incomplete output.
pub proof fn lemma_dangling_reference_detected(
    b: Seq<u8>,
    lo: u64,
    hi: u64,
    q: int,
    s: EventShape,
    idx: u16,
)
    requires
        reaches(b, 0, q),
        0 <= q,
        q + 8 <= b.len(),
        rec_type(word_at(b, q)) == TYPE_EVENT,
        rec_size(word_at(b, q)) >= 1,
        q + rec_size(word_at(b, q)) * 8 <= b.len(),
        event_shape(b, q, rec_size(word_at(b, q)) * 8) == Some(s),
        s.ts matches Some(t) ==> lo <= t && t <= hi,
        s.refs.contains(idx),
        !defined_before(b, q, idx),
    ensures
        cut_model(b, lo, hi) is Err,
{
    lemma_scan_dangling(
        b,
        0,
        Map::<u16, usize>::empty(),
        Set::<u16>::empty(),
        lo,
        hi,
        q,
        s,
        idx,
    );
}

/// A successful scan writes a string record only for a later written
/// event that references its index.
proof fn lemma_scan_necessity(
    b: Seq<u8>,
    p: int,
    offs: Map<u16, usize>,
    w: Set<u16>,
    lo: u64,
    hi: u64,
    rs: Seq<OutRec>,
    w2: Set<u16>,
)
    requires
        scan(b, p, offs, w, lo, hi) == Ok::<(Seq<OutRec>, Set<u16>), CutError>((rs, w2)),
    ensures
        forall|k: int|
            0 <= k < rs.len() && is_str(#[trigger] rs[k]) ==> exists|j: int|
                k < j < rs.len() && is_event(#[trigger] rs[j]) && ev_refs_of(rs[j]).contains(
                    str_idx_of(rs[k]),
                ),
    decreases b.len() - p,
{
    if p < 0 || p >= b.len() {
        assert(rs =~= Seq::<OutRec>::empty());
    } else if p + 8 > b.len() {
        assert(false);
    } else {
        let h = word_at(b, p);
        let total = rec_size(h) * 8;
        if rec_size(h) == 0 || rec_type(h) == crate::format::TYPE_LARGE {
            assert(false);
        } else if rec_type(h) == crate::format::TYPE_STRING {
            if p + total > b.len() {
                assert(rs =~= Seq::<OutRec>::empty());
            } else {
                lemma_scan_necessity(
                    b,
                    p + total,
                    offs.insert(str_index(h), p as usize),
                    w,
                    lo,
                    hi,
                    rs,
                    w2,
                );
            }
        } else if rec_type(h) == TYPE_EVENT {
            if p + total > b.len() {
                assert(false);
            } else {
                match event_shape(b, p, total) {
                    None => {
                        assert(false);
                    },
                    Some(s) => {
                        let included = match s.ts {
                            Some(ts) => lo <= ts && ts <= hi,
                            None => true,
                        };
                        if !included {
                            lemma_scan_necessity(b, p + total, offs, w, lo, hi, rs, w2);
                        } else {
                            match resolve(b, s.refs, 0, offs, w) {
                                Err(_) => {
                                    assert(false);
                                },
                                Ok((strs, w1)) => {
                                    let ev = OutRec::Event {
                                        ts: s.ts,
                                        refs: s.refs,
                                        bytes: b.subrange(p, p + total),
                                    };
                                    match scan(b, p + total, offs, w1, lo, hi) {
                                        Err(_) => {
                                            assert(false);
                                        },
                                        Ok((rest, wr)) => {
                                            lemma_resolve_props(b, s.refs, 0, offs, w, strs, w1);
                                            lemma_scan_necessity(
                                                b,
                                                p + total,
                                                offs,
                                                w1,
                                                lo,
                                                hi,
                                                rest,
                                                wr,
                                            );
                                            let sl = strs.len() as int;
                                            assert(rs == strs + seq![ev] + rest);
                                            assert(rs[sl] == ev);
                                            assert forall|k: int|
                                                0 <= k < rs.len() && is_str(
                                                    #[trigger] rs[k],
                                                ) implies exists|j: int|
                                                k < j < rs.len() && is_event(#[trigger] rs[j])
                                                    && ev_refs_of(rs[j]).contains(
                                                    str_idx_of(rs[k]),
                                                ) by {
                                                if k < sl {
                                                    assert(rs[k] == strs[k]);
                                                    let k0 = choose|k0: int|
                                                        0 <= k0 < s.refs.len() && s.refs[k0]
                                                            == str_idx_of(strs[k]);
                                                    assert(s.refs[k0] == str_idx_of(rs[k]));
                                                    assert(ev_refs_of(rs[sl]).contains(
                                                        str_idx_of(rs[k]),
                                                    ));
                                                    assert(is_event(rs[sl]));
                                                } else if k == sl {
                                                    assert(!is_str(ev));
                                                } else {
                                                    assert(rs[k] == rest[k - sl - 1]);
                                                    let j0 = choose|j0: int|
                                                        k - sl - 1 < j0 < rest.len() && is_event(
                                                            #[trigger] rest[j0],
                                                        ) && ev_refs_of(rest[j0]).contains(
                                                            str_idx_of(rest[k - sl - 1]),
                                                        );
                                                    assert(rs[j0 + sl + 1] == rest[j0]);
                                                    assert(is_event(rs[j0 + sl + 1])
                                                        && ev_refs_of(rs[j0 + sl + 1]).contains(
                                                        str_idx_of(rs[k]),
                                                    ));
                                                }
                                            }
                                        },
                                    }
                                },
                            }
                        }
                    },
                }
            }
        } else {
            if p + total > b.len() {
                assert(false);
            } else {
                match scan(b, p + total, offs, w, lo, hi) {
                    Err(_) => {
                        assert(false);
                    },
                    Ok((rest, wr)) => {
                        let ov = OutRec::Other { bytes: b.subrange(p, p + total) };
                        lemma_scan_necessity(b, p + total, offs, w, lo, hi, rest, wr);
                        assert(rs == seq![ov] + rest);
                        assert forall|k: int|
                            0 <= k < rs.len() && is_str(#[trigger] rs[k]) implies exists|j: int|
                            k < j < rs.len() && is_event(#[trigger] rs[j]) && ev_refs_of(
                                rs[j],
                            ).contains(str_idx_of(rs[k])) by {
                            if k > 0 {
                                assert(rs[k] == rest[k - 1]);
                                let j0 = choose|j0: int|
                                    k - 1 < j0 < rest.len() && is_event(#[trigger] rest[j0])
                                        && ev_refs_of(rest[j0]).contains(
                                        str_idx_of(rest[k - 1]),
                                    );
                                assert(rs[j0 + 1] == rest[j0]);
                                assert(is_event(rs[j0 + 1]) && ev_refs_of(rs[j0 + 1]).contains(
                                    str_idx_of(rs[k]),
                                ));
                            } else {
                                assert(!is_str(rs[0]));
                            }
                        }
                    },
                }
            }
        }
    }
}

/// No unnecessary strings: a successful run writes a string record
/// only when a later written event references its index.
pub proof fn lemma_no_unreferenced_strings(b: Seq<u8>, lo: u64, hi: u64, rs: Seq<OutRec>)
    requires
        cut_model(b, lo, hi) == Ok::<Seq<OutRec>, CutError>(rs),
    ensures
        forall|k: int|
            0 <= k < rs.len() && is_str(#[trigger] rs[k]) ==> exists|j: int|
                k < j < rs.len() && is_event(#[trigger] rs[j]) && ev_refs_of(rs[j]).contains(
                    str_idx_of(rs[k]),
                ),
{
    match scan(b, 0, Map::<u16, usize>::empty(), Set::<u16>::empty(), lo, hi) {
        Ok(pr) => {
            lemma_scan_necessity(
                b,
                0,
                Map::<u16, usize>::empty(),
                Set::<u16>::empty(),
                lo,
                hi,
                pr.0,
                pr.1,
            );
        },
        Err(_) => {
            assert(false);
        },
    }
}

} // verus!
