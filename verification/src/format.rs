//! The fixed binary record layout: 8-byte little-endian header words,
//! bit fields of record and event headers, and extraction of the
//! timestamp and string references of an event record.
use vstd::prelude::*;

verus! {

/// Record type tag of a string record.
pub const TYPE_STRING: u64 = 2;

/// Record type tag of an event record.
pub const TYPE_EVENT: u64 = 4;

/// Record type tag of a large record, whose size is not carried in the
/// common size field; this design cannot size it.
pub const TYPE_LARGE: u64 = 15;

/// Greatest event subtype whose payload layout this design knows.
pub const EVENT_KNOWN_MAX: u64 = 10;

/// Greatest event subtype that carries a timestamp this design can
/// determine (instant, counter, duration begin/end/complete).
pub const EVENT_TIMED_MAX: u64 = 4;

/// The 64-bit word stored little-endian at byte position `p`.
pub open spec fn word_at(b: Seq<u8>, p: int) -> u64 {
    (b[p] as u64) | ((b[p + 1] as u64) << 8) | ((b[p + 2] as u64) << 16) | ((b[p + 3] as u64)
        << 24) | ((b[p + 4] as u64) << 32) | ((b[p + 5] as u64) << 40) | ((b[p + 6] as u64) << 48)
        | ((b[p + 7] as u64) << 56)
}

/// Record type tag: bits 0..4 of the header word.
pub open spec fn rec_type(h: u64) -> u64 {
    h & 0xf
}

/// Record size in 8-byte words, header included: bits 4..16.
pub open spec fn rec_size(h: u64) -> u64 {
    (h >> 4) & 0xfff
}

/// Index defined by a string record: the 15 index bits 16..31 of its
/// header. An indexed reference can never carry the top bit, which
/// marks inline text, so only the low 15 bits name an index.
pub open spec fn str_index(h: u64) -> u16 {
    (((h >> 16) & 0x7fff)) as u16
}

/// Event subtype: bits 16..20 of an event header.
pub open spec fn ev_type(h: u64) -> u64 {
    (h >> 16) & 0xf
}

/// Argument count of an event: bits 20..24.
pub open spec fn ev_argc(h: u64) -> u64 {
    (h >> 20) & 0xf
}

/// Thread reference of an event: bits 24..32; zero means the two koid
/// words follow the timestamp inline.
pub open spec fn ev_thread(h: u64) -> u64 {
    (h >> 24) & 0xff
}

/// Category string reference of an event: bits 32..48.
pub open spec fn ev_cat(h: u64) -> u64 {
    (h >> 32) & 0xffff
}

/// Name string reference of an event: bits 48..64.
pub open spec fn ev_name(h: u64) -> u64 {
    h >> 48
}

/// Argument type tag: bits 0..4 of an argument header word.
pub open spec fn arg_type(h: u64) -> u64 {
    h & 0xf
}

/// Argument size in words, its header included: bits 4..16.
pub open spec fn arg_size(h: u64) -> u64 {
    (h >> 4) & 0xfff
}

/// Name reference of an argument: bits 16..32.
pub open spec fn arg_name(h: u64) -> u64 {
    (h >> 16) & 0xffff
}

/// Value reference of a string argument: bits 32..48.
pub open spec fn arg_value(h: u64) -> u64 {
    (h >> 32) & 0xffff
}

/// The string index a 16-bit reference field names: none when the
/// field is zero (empty) or has its high bit set (inline text).
pub open spec fn ref_index(r: u64) -> Seq<u16> {
    if r == 0 || r >= 0x8000 {
        Seq::empty()
    } else {
        seq![r as u16]
    }
}

/// Payload words an inline reference's padded text occupies.
pub open spec fn inline_words(r: u64) -> int {
    if r >= 0x8000 {
        ((r & 0x7fff) + 7) / 8
    } else {
        0
    }
}

/// What the engine reads out of one event record: the timestamp, where
/// the design can determine one, and the indexed string references in
/// encounter order (name, category, then per argument its name and, for
/// a string argument, its value).
pub ghost struct EventShape {
    pub ts: Option<u64>,
    pub refs: Seq<u16>,
}

/// Indexed references of the `n` arguments laid out from byte `p` up to
/// `end`, or `None` when the argument headers do not fit that room.
pub open spec fn args_refs(b: Seq<u8>, p: int, end: int, n: nat) -> Option<Seq<u16>>
    decreases n,
{
    if n == 0 {
        Some(Seq::empty())
    } else if p + 8 > end {
        None
    } else {
        let h = word_at(b, p);
        if arg_size(h) == 0 || p + arg_size(h) * 8 > end {
            None
        } else {
            let head = ref_index(arg_name(h)) + if arg_type(h) == 6 {
                ref_index(arg_value(h))
            } else {
                Seq::empty()
            };
            match args_refs(b, p + arg_size(h) * 8, end, (n - 1) as nat) {
                Some(rest) => Some(head + rest),
                None => None,
            }
        }
    }
}

/// The timestamp and indexed string references of the event record of
/// `total` bytes starting at `p`, or `None` when its payload does not
/// follow the layout. A subtype this design does not know is taken
/// opaquely: no timestamp, no references.
pub open spec fn event_shape(b: Seq<u8>, p: int, total: int) -> Option<EventShape> {
    let h = word_at(b, p);
    if ev_type(h) > EVENT_KNOWN_MAX {
        Some(EventShape { ts: None, refs: Seq::empty() })
    } else if total < 16 {
        None
    } else {
        let koids: int = if ev_thread(h) == 0 {
            16
        } else {
            0
        };
        let q = p + 16 + koids + inline_words(ev_cat(h)) * 8 + inline_words(ev_name(h)) * 8;
        if q > p + total {
            None
        } else {
            match args_refs(b, q, p + total, ev_argc(h) as nat) {
                Some(ar) => Some(
                    EventShape {
                        ts: if ev_type(h) <= EVENT_TIMED_MAX {
                            Some(word_at(b, p + 8))
                        } else {
                            None
                        },
                        refs: ref_index(ev_name(h)) + ref_index(ev_cat(h)) + ar,
                    },
                ),
                None => None,
            }
        }
    }
}

/// Exec twin of [`EventShape`].
pub struct EventInfo {
    pub timestamp: Option<u64>,
    pub refs: Vec<u16>,
}

/// Payload words an inline reference's padded text occupies.
fn inline_word_count(r: u64) -> (w: usize)
    ensures
        w == inline_words(r),
        w <= 4096,
{
    proof {
        assert(r & 0x7fff <= 0x7fff) by (bit_vector);
    }
    if r >= 0x8000 {
        ((((r & 0x7fff) + 7) / 8) as usize)
    } else {
        0
    }
}

/// Append the index a reference field names, if it names one.
fn push_ref(refs: &mut Vec<u16>, r: u64)
    ensures
        final(refs)@ == old(refs)@ + ref_index(r),
{
    if r != 0 && r < 0x8000 {
        refs.push(r as u16);
        assert(refs@ =~= old(refs)@ + ref_index(r));
    } else {
        assert(refs@ =~= old(refs)@ + ref_index(r));
    }
}

/// Read the timestamp and indexed string references of the event
/// record of `total` bytes starting at `pos`, exactly as
/// [`event_shape`] describes them.
pub fn read_event(input: &Vec<u8>, pos: usize, total: usize) -> (r: Result<
    EventInfo,
    crate::CutError,
>)
    requires
        pos + total <= input@.len(),
        8 <= total,
    ensures
        match (r, event_shape(input@, pos as int, total as int)) {
            (Ok(info), Some(s)) => info.timestamp == s.ts && info.refs@ == s.refs,
            (Err(e), None) => e == (crate::CutError::Format { offset: pos }),
            _ => false,
        },
{
    let ghost b = input@;
    // a Vec's length is a usize, so every position below fits one
    let _n: usize = input.len();
    let h = read_word(input, pos);
    let et: u64 = (h >> 16) & 0xf;
    if et > 10 {
        return Ok(EventInfo { timestamp: None, refs: Vec::new() });
    }
    if total < 16 {
        return Err(crate::CutError::Format { offset: pos });
    }
    let ts = read_word(input, pos + 8);
    let mut off: usize = 16;
    if (h >> 24) & 0xff == 0 {
        off = 32;
    }
    let cat: u64 = (h >> 32) & 0xffff;
    let name: u64 = h >> 48;
    off = off + inline_word_count(cat) * 8 + inline_word_count(name) * 8;
    if off > total {
        return Err(crate::CutError::Format { offset: pos });
    }
    let ghost q0: int = pos + off;
    let argc: u64 = (h >> 20) & 0xf;
    let ghost shape_of_args = |ar: Option<Seq<u16>>| match ar {
        Some(a) => Some(
            EventShape {
                ts: if et <= 4 {
                    Some(ts)
                } else {
                    None
                },
                refs: ref_index(name) + ref_index(cat) + a,
            },
        ),
        None => None::<EventShape>,
    };
    assert(event_shape(b, pos as int, total as int) == shape_of_args(
        args_refs(b, q0, pos + total, argc as nat),
    ));
    let mut refs: Vec<u16> = Vec::new();
    push_ref(&mut refs, name);
    push_ref(&mut refs, cat);
    let ghost base_refs = refs@;
    assert(base_refs =~= ref_index(name) + ref_index(cat));
    let mut remaining: u64 = argc;
    let ghost mut collected: Seq<u16> = Seq::empty();
    assert(refs@ =~= base_refs + collected);
    while remaining > 0
        invariant
            pos + total <= b.len(),
            pos + total <= usize::MAX,
            b == input@,
            16 <= total,
            off <= total,
            refs@ == base_refs + collected,
            event_shape(b, pos as int, total as int) == shape_of_args(
                args_refs(b, q0, pos + total, argc as nat),
            ),
            shape_of_args == (|ar: Option<Seq<u16>>| match ar {
                Some(a) => Some(
                    EventShape {
                        ts: if et <= 4 {
                            Some(ts)
                        } else {
                            None
                        },
                        refs: ref_index(name) + ref_index(cat) + a,
                    },
                ),
                None => None::<EventShape>,
            }),
            base_refs == ref_index(name) + ref_index(cat),
            match args_refs(b, pos + off, pos + total, remaining as nat) {
                Some(rest) => args_refs(b, q0, pos + total, argc as nat) == Some(collected + rest),
                None => args_refs(b, q0, pos + total, argc as nat) is None,
            },
        decreases remaining,
    {
        let ghost off0 = off;
        let ghost rem0 = remaining;
        let ghost col0 = collected;
        if 8 > total - off {
            return Err(crate::CutError::Format { offset: pos });
        }
        let ah = read_word(input, pos + off);
        let asz: u64 = (ah >> 4) & 0xfff;
        proof {
            assert((ah >> 4) & 0xfff <= 0xfff) by (bit_vector);
        }
        if asz == 0 {
            return Err(crate::CutError::Format { offset: pos });
        }
        if (asz as usize) * 8 > total - off {
            return Err(crate::CutError::Format { offset: pos });
        }
        let ghost head = ref_index(arg_name(ah)) + if arg_type(ah) == 6 {
            ref_index(arg_value(ah))
        } else {
            Seq::<u16>::empty()
        };
        push_ref(&mut refs, (ah >> 16) & 0xffff);
        if ah & 0xf == 6 {
            push_ref(&mut refs, (ah >> 32) & 0xffff);
        }
        proof {
            collected = col0 + head;
            assert(refs@ =~= base_refs + collected);
        }
        off = off + (asz as usize) * 8;
        remaining = remaining - 1;
        proof {
            match args_refs(b, pos + off, pos + total, remaining as nat) {
                Some(rest) => {
                    assert(args_refs(b, pos + off0, pos + total, rem0 as nat) == Some(
                        head + rest,
                    ));
                    assert(col0 + (head + rest) =~= collected + rest);
                },
                None => {
                    assert(args_refs(b, pos + off0, pos + total, rem0 as nat) is None);
                },
            }
        }
    }
    proof {
        assert(args_refs(b, pos + off, pos + total, 0) == Some(Seq::<u16>::empty()));
        assert(collected + Seq::<u16>::empty() =~= collected);
        assert(base_refs + collected =~= ref_index(name) + ref_index(cat) + collected);
    }
    Ok(EventInfo { timestamp: if et <= 4 { Some(ts) } else { None }, refs })
}

/// Read the little-endian word at `pos`.
pub fn read_word(input: &Vec<u8>, pos: usize) -> (r: u64)
    requires
        pos + 8 <= input@.len(),
    ensures
        r == word_at(input@, pos as int),
{
    // a Vec's length is a usize, so every position below fits one
    let _n: usize = input.len();
    (input[pos] as u64) | ((input[pos + 1] as u64) << 8) | ((input[pos + 2] as u64) << 16) | ((
    input[pos + 3] as u64) << 24) | ((input[pos + 4] as u64) << 32) | ((input[pos + 5] as u64)
        << 40) | ((input[pos + 6] as u64) << 48) | ((input[pos + 7] as u64) << 56)
}

} // verus!
