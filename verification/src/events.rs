//! The textual event-stream codec: one comma-terminated record per frame,
//! four pipe-separated fields per record, with a seed sentinel record and
//! skip-frame handling on decode.

use vstd::prelude::*;
use crate::decimal::{
    CH_COMMA,
    dec_int_valued,
    dec_int_value,
    CH_PIPE,
    all_digits,
    dec_value_is,
    dec_eq_int,
    digits_value,
    find_first,
    is_float_text,
    lemma_find_first,
    lemma_find_first_at,
    spec_parse_i32,
    spec_parse_u32,
    parse_i32_bytes,
    parse_u32_bytes,
    spec_dec_digits,
    spec_dec_int,
    push_dec_u32,
    push_dec_i32,
};
use crate::error::ReplayError;
use crate::types::{
    FloatText,
    GameMode,
    Key,
    KeyMania,
    KeyTaiko,
    ReplayEvent,
    ReplayEventCatch,
    ReplayEventMania,
    ReplayEventOsu,
    ReplayEventTaiko,
};

verus! {

/// The ghost shape of one event: what each variant holds, with coordinate
/// texts as byte sequences.
pub enum EventV {
    Osu { t: i32, x: Seq<u8>, y: Seq<u8>, k: u32 },
    Taiko { t: i32, x: i32, k: u32 },
    Catch { t: i32, x: Seq<u8>, dash: bool },
    Mania { t: i32, k: u32 },
}

impl View for ReplayEvent {
    type V = EventV;

    open spec fn view(&self) -> EventV {
        match self {
            ReplayEvent::Osu(e) => EventV::Osu { t: e.time_delta, x: e.x@, y: e.y@, k: e.keys.0 },
            ReplayEvent::Taiko(e) => EventV::Taiko { t: e.time_delta, x: e.x, k: e.keys.0 },
            ReplayEvent::Catch(e) => EventV::Catch { t: e.time_delta, x: e.x@, dash: e.dashing },
            ReplayEvent::Mania(e) => EventV::Mania { t: e.time_delta, k: e.keys.0 },
        }
    }
}

/// The mode an event belongs to.
pub open spec fn event_mode(e: EventV) -> GameMode {
    match e {
        EventV::Osu { .. } => GameMode::Std,
        EventV::Taiko { .. } => GameMode::Taiko,
        EventV::Catch { .. } => GameMode::Catch,
        EventV::Mania { .. } => GameMode::Mania,
    }
}

/// The time delta of an event.
pub open spec fn event_delta(e: EventV) -> i32 {
    match e {
        EventV::Osu { t, .. } => t,
        EventV::Taiko { t, .. } => t,
        EventV::Catch { t, .. } => t,
        EventV::Mania { t, .. } => t,
    }
}

/// A well-formed event: its coordinate texts match the float grammar.
pub open spec fn event_wf(e: EventV) -> bool {
    match e {
        EventV::Osu { x, y, .. } => is_float_text(x) && is_float_text(y),
        EventV::Catch { x, .. } => is_float_text(x),
        _ => true,
    }
}

/// The views of a sequence of events.
pub open spec fn events_view(s: Seq<ReplayEvent>) -> Seq<EventV> {
    Seq::new(s.len(), |i: int| s[i]@)
}

/// Splitting `s` at every occurrence of `d`: splitting the empty sequence
/// gives one empty piece.
pub open spec fn spec_split(s: Seq<u8>, d: u8) -> Seq<Seq<u8>>
    decreases s.len(),
    via spec_split_decreases
{
    let i = find_first(s, d, d);
    if i == s.len() {
        seq![s]
    } else {
        seq![s.take(i)] + spec_split(s.skip(i + 1), d)
    }
}

#[via_fn]
proof fn spec_split_decreases(s: Seq<u8>, d: u8) {
    lemma_find_first(s, d, d);
}

/// The record list of an event-stream text: one trailing delimiter is
/// stripped, and an empty remainder has no records at all.
pub open spec fn spec_records(s: Seq<u8>) -> Seq<Seq<u8>> {
    let t = if s.len() > 0 && s.last() == CH_COMMA {
        s.drop_last()
    } else {
        s
    };
    if t.len() == 0 {
        seq![]
    } else {
        spec_split(t, CH_COMMA)
    }
}

/// The event a surviving record builds, by mode: Std reads `x|y`, Taiko an
/// integer `x`, Catch `x` and a dashing flag, Mania its key bits from the
/// second field. A numeric field that does not parse makes the whole decode
/// fail.
pub open spec fn spec_mode_event(mode: GameMode, td: i32, f1: Seq<u8>, f2: Seq<u8>, k: u32) -> Option<
    EventV,
> {
    match mode {
        GameMode::Std => {
            if is_float_text(f1) && is_float_text(f2) {
                Some(EventV::Osu { t: td, x: f1, y: f2, k })
            } else {
                None
            }
        },
        GameMode::Taiko => {
            match spec_parse_i32(f1) {
                Some(x) => Some(EventV::Taiko { t: td, x, k }),
                None => None,
            }
        },
        GameMode::Catch => {
            if is_float_text(f1) {
                Some(EventV::Catch { t: td, x: f1, dash: k == 1 })
            } else {
                None
            }
        },
        GameMode::Mania => {
            match spec_parse_u32(f1) {
                Some(kk) => Some(EventV::Mania { t: td, k: kk }),
                None => None,
            }
        },
    }
}

/// Decoding the records from index `i` on. A record without exactly four
/// fields is silently discarded; a last record with time delta -12345 is the
/// seed sentinel; a record among the first two whose second and third fields
/// hold the values 256 and -500 is a skip frame and is discarded.
pub open spec fn spec_parse_records(recs: Seq<Seq<u8>>, i: int, mode: GameMode) -> Option<
    (Seq<EventV>, Option<i32>),
>
    decreases recs.len() - i,
    when 0 <= i <= recs.len()
{
    if i >= recs.len() {
        Some((seq![], None))
    } else {
        let fields = spec_split(recs[i], CH_PIPE);
        if fields.len() != 4 {
            spec_parse_records(recs, i + 1, mode)
        } else {
            match (spec_parse_i32(fields[0]), spec_parse_u32(fields[3])) {
                (Some(td), Some(k)) => {
                    if td == -12345 && i == recs.len() - 1 {
                        Some((seq![], Some(k as i32)))
                    } else if i < 2 && dec_value_is(fields[1], 256) && dec_value_is(
                        fields[2],
                        -500,
                    ) {
                        spec_parse_records(recs, i + 1, mode)
                    } else {
                        match spec_mode_event(mode, td, fields[1], fields[2], k) {
                            None => None,
                            Some(ev) => {
                                match spec_parse_records(recs, i + 1, mode) {
                                    None => None,
                                    Some(p) => Some((seq![ev] + p.0, p.1)),
                                }
                            },
                        }
                    }
                },
                _ => None,
            }
        }
    }
}

/// Decoding a whole event-stream text: the record walk over its record list.
pub open spec fn spec_parse_events(s: Seq<u8>, mode: GameMode) -> Option<
    (Seq<EventV>, Option<i32>),
> {
    spec_parse_records(spec_records(s), 0, mode)
}

/// Copies a byte slice.
pub fn to_vec(s: &[u8]) -> (r: Vec<u8>)
    ensures
        r@ == s@,
{
    let mut v: Vec<u8> = Vec::new();
    let n = s.len();
    let mut i: usize = 0;
    while i < n
        invariant
            n == s@.len(),
            0 <= i <= n,
            v@ =~= s@.take(i as int),
        decreases n - i,
    {
        v.push(s[i]);
        i = i + 1;
    }
    proof {
        assert(v@ =~= s@);
    }
    v
}

/// Splits `s[from..to]` at every `d`.
#[verifier::loop_isolation(false)]
pub fn split_bytes(s: &[u8], from: usize, to: usize, d: u8) -> (r: Vec<Vec<u8>>)
    requires
        from <= to <= s@.len(),
    ensures
        r.deep_view() == spec_split(s@.subrange(from as int, to as int), d),
{
    let ghost whole = s@.subrange(from as int, to as int);
    let mut r: Vec<Vec<u8>> = Vec::new();
    let mut pos: usize = from;
    loop
        invariant
            from <= pos <= to <= s@.len(),
            spec_split(whole, d) =~~= r.deep_view() + spec_split(
                s@.subrange(pos as int, to as int),
                d,
            ),
        decreases to - pos + 1,
    {
        let ghost rest = s@.subrange(pos as int, to as int);
        let f = crate::decimal::find_in(s, pos, to, d, d);
        proof {
            lemma_find_first(rest, d, d);
            if f < to {
                assert(rest.take(f - pos) =~= s@.subrange(pos as int, f as int));
                assert(rest.skip(f - pos + 1) =~= s@.subrange(f + 1 as int, to as int));
            }
        }
        let mut piece: Vec<u8> = Vec::new();
        let mut i: usize = pos;
        while i < f
            invariant
                pos <= i <= f <= to <= s@.len(),
                piece@ =~= s@.subrange(pos as int, i as int),
            decreases f - i,
        {
            piece.push(s[i]);
            i = i + 1;
        }
        let ghost old_r = r.deep_view();
        r.push(piece);
        proof {
            assert(r.deep_view() =~~= old_r + seq![s@.subrange(pos as int, f as int)]);
        }
        if f == to {
            proof {
                assert(s@.subrange(pos as int, f as int) =~= rest);
                assert(spec_split(rest, d) =~= seq![rest]);
                assert(spec_split(whole, d) =~~= r.deep_view());
            }
            return r;
        }
        proof {
            assert(spec_split(rest, d) =~~= seq![s@.subrange(pos as int, f as int)] + spec_split(
                s@.subrange(f + 1 as int, to as int),
                d,
            ));
        }
        pos = f + 1;
    }
}

/// Decodes an event-stream text given as raw bytes.
#[verifier::loop_isolation(false)]
#[verifier::rlimit(100)]
pub fn parse_event_bytes(data: &[u8], mode: GameMode) -> (r: Result<
    (Vec<ReplayEvent>, Option<i32>),
    ReplayError,
>)
    ensures
        match spec_parse_events(data@, mode) {
            Some(p) => r matches Ok(v) && events_view(v.0@) == p.0 && v.1 == p.1,
            None => r matches Err(e) && e is Parse,
        },
{
    let n = data.len();
    let end: usize = if n > 0 && data[n - 1] == CH_COMMA {
        n - 1
    } else {
        n
    };
    proof {
        if n > 0 && data@.last() == CH_COMMA {
            assert(data@.subrange(0, end as int) =~= data@.drop_last());
        } else {
            assert(data@.subrange(0, end as int) =~= data@);
        }
    }
    if end == 0 {
        proof {
            assert(spec_records(data@) =~= Seq::<Seq<u8>>::empty());
        }
        return Ok((Vec::new(), None));
    }
    let recs = split_bytes(data, 0, end, CH_COMMA);
    let ghost recsv = spec_records(data@);
    proof {
        assert(recs.deep_view() == recsv);
    }
    let count = recs.len();
    proof {
        assert(count == recsv.len());
    }
    let mut acc: Vec<ReplayEvent> = Vec::new();
    let mut rng_seed: Option<i32> = None;
    let mut i: usize = 0;
    while i < count
        invariant
            0 <= i <= count,
            count == recsv.len(),
            recs.deep_view() == recsv,
            rng_seed is Some ==> i == count,
            match spec_parse_records(recsv, i as int, mode) {
                None => spec_parse_records(recsv, 0, mode) is None,
                Some(p) => spec_parse_records(recsv, 0, mode) matches Some(q) && q.0
                    == events_view(acc@) + p.0 && q.1 == (if rng_seed is Some {
                    rng_seed
                } else {
                    p.1
                }),
            },
        decreases count - i,
    {
        let rec: &Vec<u8> = &recs[i];
        proof {
            assert(rec@ == recsv[i as int]);
        }
        let fields = split_bytes(rec.as_slice(), 0, rec.len(), CH_PIPE);
        let ghost fieldsv = spec_split(recsv[i as int], CH_PIPE);
        proof {
            assert(rec@.subrange(0, rec@.len() as int) =~= rec@);
            assert(fields.deep_view() == fieldsv);
        }
        if fields.len() != 4 {
            i = i + 1;
            continue ;
        }
        proof {
            assert(fields@[0]@ == fieldsv[0]);
            assert(fields@[1]@ == fieldsv[1]);
            assert(fields@[2]@ == fieldsv[2]);
            assert(fields@[3]@ == fieldsv[3]);
        }
        let td = match parse_i32_bytes(fields[0].as_slice()) {
            Some(v) => v,
            None => {
                return Err(ReplayError::Parse(String::from_str("invalid time_delta")));
            },
        };
        let k = match parse_u32_bytes(fields[3].as_slice()) {
            Some(v) => v,
            None => {
                return Err(ReplayError::Parse(String::from_str("invalid keys")));
            },
        };
        if td == -12345 && i == count - 1 {
            rng_seed = Some(#[verifier::truncate] (k as i32));
            i = i + 1;
            continue ;
        }
        if i < 2 && dec_eq_int(fields[1].as_slice(), 256) && dec_eq_int(fields[2].as_slice(), -500)
             {
            i = i + 1;
            continue ;
        }
        let ghost specev = spec_mode_event(mode, td, fieldsv[1], fieldsv[2], k);
        let ev: ReplayEvent = match mode {
            GameMode::Std => {
                let fx = match FloatText::from_bytes(to_vec(fields[1].as_slice())) {
                    Some(f) => f,
                    None => {
                        return Err(ReplayError::Parse(String::from_str("invalid x coordinate")));
                    },
                };
                let fy = match FloatText::from_bytes(to_vec(fields[2].as_slice())) {
                    Some(f) => f,
                    None => {
                        return Err(ReplayError::Parse(String::from_str("invalid y coordinate")));
                    },
                };
                ReplayEvent::Osu(ReplayEventOsu { time_delta: td, x: fx, y: fy, keys: Key(k) })
            },
            GameMode::Taiko => {
                let x = match parse_i32_bytes(fields[1].as_slice()) {
                    Some(v) => v,
                    None => {
                        return Err(ReplayError::Parse(String::from_str("invalid x coordinate")));
                    },
                };
                ReplayEvent::Taiko(ReplayEventTaiko { time_delta: td, x, keys: KeyTaiko(k) })
            },
            GameMode::Catch => {
                let fx = match FloatText::from_bytes(to_vec(fields[1].as_slice())) {
                    Some(f) => f,
                    None => {
                        return Err(ReplayError::Parse(String::from_str("invalid x coordinate")));
                    },
                };
                ReplayEvent::Catch(ReplayEventCatch { time_delta: td, x: fx, dashing: k == 1 })
            },
            GameMode::Mania => {
                let kk = match parse_u32_bytes(fields[1].as_slice()) {
                    Some(v) => v,
                    None => {
                        return Err(ReplayError::Parse(String::from_str("invalid keys")));
                    },
                };
                ReplayEvent::Mania(ReplayEventMania { time_delta: td, keys: KeyMania(kk) })
            },
        };
        proof {
            assert(specev matches Some(sv) && sv == ev@);
        }
        let ghost old_acc = acc@;
        acc.push(ev);
        proof {
            assert(events_view(acc@) =~= events_view(old_acc) + seq![ev@]);
            assert(events_view(old_acc) + (seq![ev@] + spec_parse_records(
                recsv,
                i + 1,
                mode,
            )->Some_0.0) =~= (events_view(old_acc) + seq![ev@]) + spec_parse_records(
                recsv,
                i + 1,
                mode,
            )->Some_0.0) by {
                if spec_parse_records(recsv, i + 1, mode) is Some {
                }
            }
        }
        i = i + 1;
    }
    Ok((acc, rng_seed))
}

pub const CH_DIGIT_ZERO: u8 = 48;

pub const CH_DIGIT_ONE: u8 = 49;

/// The record one event encodes to, final comma included.
pub open spec fn spec_event_record(e: EventV) -> Seq<u8> {
    match e {
        EventV::Osu { t, x, y, k } => spec_dec_int(t as int) + seq![CH_PIPE] + x + seq![CH_PIPE] + y
            + seq![CH_PIPE] + spec_dec_digits(k as int) + seq![CH_COMMA],
        EventV::Taiko { t, x, k } => spec_dec_int(t as int) + seq![CH_PIPE] + spec_dec_int(x as int)
            + seq![CH_PIPE, CH_DIGIT_ZERO, CH_PIPE] + spec_dec_digits(k as int) + seq![CH_COMMA],
        EventV::Catch { t, x, dash } => spec_dec_int(t as int) + seq![CH_PIPE] + x + seq![
            CH_PIPE,
            CH_DIGIT_ZERO,
            CH_PIPE,
        ] + (if dash {
            seq![CH_DIGIT_ONE]
        } else {
            seq![CH_DIGIT_ZERO]
        }) + seq![CH_COMMA],
        EventV::Mania { t, k } => spec_dec_int(t as int) + seq![CH_PIPE] + spec_dec_digits(k as int)
            + seq![CH_PIPE, CH_DIGIT_ZERO, CH_PIPE, CH_DIGIT_ZERO, CH_COMMA],
    }
}

/// The final record that stores an RNG seed: time delta -12345 and the seed
/// in the fourth field.
pub open spec fn spec_seed_record(seed: i32) -> Seq<u8> {
    seq![45u8, 49u8, 50u8, 51u8, 52u8, 53u8, CH_PIPE, CH_DIGIT_ZERO, CH_PIPE, CH_DIGIT_ZERO, CH_PIPE]
        + spec_dec_int(seed as int) + seq![CH_COMMA]
}

/// The whole event-stream text: one record per event in order, then the seed
/// record if a seed is present.
pub open spec fn spec_events_text(evs: Seq<EventV>, seed: Option<i32>) -> Seq<u8>
    decreases evs.len(),
{
    if evs.len() == 0 {
        match seed {
            None => seq![],
            Some(s) => spec_seed_record(s),
        }
    } else {
        spec_event_record(evs[0]) + spec_events_text(evs.skip(1), seed)
    }
}

/// Appends the bytes of `b` to `out`.
pub fn push_bytes(out: &mut Vec<u8>, b: &Vec<u8>)
    ensures
        final(out)@ == old(out)@ + b@,
{
    let n = b.len();
    let mut i: usize = 0;
    while i < n
        invariant
            n == b@.len(),
            0 <= i <= n,
            out@ =~= old(out)@ + b@.take(i as int),
        decreases n - i,
    {
        out.push(b[i]);
        i = i + 1;
    }
    proof {
        assert(out@ =~= old(out)@ + b@);
    }
}

/// Appends the record of one event.
fn push_event_record(out: &mut Vec<u8>, e: &ReplayEvent)
    ensures
        final(out)@ == old(out)@ + spec_event_record(e@),
        event_wf(e@),
{
    match e {
        ReplayEvent::Osu(ev) => {
            proof {
                use_type_invariant(&ev.x);
                ev.x.lemma_wf();
                use_type_invariant(&ev.y);
                ev.y.lemma_wf();
            }
            push_dec_i32(out, ev.time_delta);
            out.push(CH_PIPE);
            push_bytes(out, ev.x.bytes());
            out.push(CH_PIPE);
            push_bytes(out, ev.y.bytes());
            out.push(CH_PIPE);
            push_dec_u32(out, ev.keys.0);
            out.push(CH_COMMA);
            proof {
                assert(final(out)@ =~= old(out)@ + spec_event_record(e@));
            }
        },
        ReplayEvent::Taiko(ev) => {
            push_dec_i32(out, ev.time_delta);
            out.push(CH_PIPE);
            push_dec_i32(out, ev.x);
            out.push(CH_PIPE);
            out.push(CH_DIGIT_ZERO);
            out.push(CH_PIPE);
            push_dec_u32(out, ev.keys.0);
            out.push(CH_COMMA);
            proof {
                assert(final(out)@ =~= old(out)@ + spec_event_record(e@));
            }
        },
        ReplayEvent::Catch(ev) => {
            proof {
                use_type_invariant(&ev.x);
                ev.x.lemma_wf();
            }
            push_dec_i32(out, ev.time_delta);
            out.push(CH_PIPE);
            push_bytes(out, ev.x.bytes());
            out.push(CH_PIPE);
            out.push(CH_DIGIT_ZERO);
            out.push(CH_PIPE);
            if ev.dashing {
                out.push(CH_DIGIT_ONE);
            } else {
                out.push(CH_DIGIT_ZERO);
            }
            out.push(CH_COMMA);
            proof {
                assert(final(out)@ =~= old(out)@ + spec_event_record(e@));
            }
        },
        ReplayEvent::Mania(ev) => {
            push_dec_i32(out, ev.time_delta);
            out.push(CH_PIPE);
            push_dec_u32(out, ev.keys.0);
            out.push(CH_PIPE);
            out.push(CH_DIGIT_ZERO);
            out.push(CH_PIPE);
            out.push(CH_DIGIT_ZERO);
            out.push(CH_COMMA);
            proof {
                assert(final(out)@ =~= old(out)@ + spec_event_record(e@));
            }
        },
    }
}

/// Encodes an event sequence and an optional seed as event-stream text.
#[verifier::loop_isolation(false)]
pub fn encode_events(events: &Vec<ReplayEvent>, rng_seed: Option<i32>) -> (r: Vec<u8>)
    ensures
        r@ == spec_events_text(events_view(events@), rng_seed),
        forall|j: int| 0 <= j < events@.len() ==> event_wf(#[trigger] events_view(events@)[j]),
{
    let ghost evs = events_view(events@);
    let mut out: Vec<u8> = Vec::new();
    let n = events.len();
    proof {
        assert(evs.skip(0) =~= evs);
    }
    let mut i: usize = 0;
    while i < n
        invariant
            0 <= i <= n,
            n == events@.len(),
            evs == events_view(events@),
            spec_events_text(evs, rng_seed) =~= out@ + spec_events_text(
                evs.skip(i as int),
                rng_seed,
            ),
            forall|j: int| 0 <= j < i ==> event_wf(#[trigger] evs[j]),
        decreases n - i,
    {
        push_event_record(&mut out, &events[i]);
        proof {
            assert(evs.skip(i as int)[0] == evs[i as int]);
            assert(evs.skip(i as int).skip(1) =~= evs.skip(i + 1));
        }
        i = i + 1;
    }
    proof {
        assert(evs.skip(n as int) =~= Seq::<EventV>::empty());
    }
    match rng_seed {
        None => out,
        Some(seed) => {
            out.push(45u8);
            out.push(49u8);
            out.push(50u8);
            out.push(51u8);
            out.push(52u8);
            out.push(53u8);
            out.push(CH_PIPE);
            out.push(CH_DIGIT_ZERO);
            out.push(CH_PIPE);
            out.push(CH_DIGIT_ZERO);
            out.push(CH_PIPE);
            push_dec_i32(&mut out, seed);
            out.push(CH_COMMA);
            proof {
                assert(out@ =~= spec_events_text(evs, rng_seed));
            }
            out
        },
    }
}

/// Splitting a piece without the delimiter gives just that piece.
proof fn lemma_split_single(s: Seq<u8>, d: u8)
    requires
        forall|i: int| 0 <= i < s.len() ==> s[i] != d,
    ensures
        spec_split(s, d) == seq![s],
{
    lemma_find_first_at(s, d, d, s.len() as int);
}

/// Splitting a delimited head off: the piece before the first delimiter is
/// the first part.
proof fn lemma_split_head(a: Seq<u8>, rest: Seq<u8>, d: u8)
    requires
        forall|i: int| 0 <= i < a.len() ==> a[i] != d,
    ensures
        spec_split(a + seq![d] + rest, d) == seq![a] + spec_split(rest, d),
{
    let s = a + seq![d] + rest;
    assert forall|i: int| 0 <= i < a.len() implies s[i] != d by {
        assert(s[i] == a[i]);
    }
    assert(s[a.len() as int] == d);
    lemma_find_first_at(s, d, d, a.len() as int);
    assert(s.take(a.len() as int) =~= a);
    assert(s.skip(a.len() as int + 1) =~= rest);
}

/// Splitting four delimited pieces gives exactly those four fields.
proof fn lemma_split_four(f0: Seq<u8>, f1: Seq<u8>, f2: Seq<u8>, f3: Seq<u8>, d: u8)
    requires
        forall|i: int| 0 <= i < f0.len() ==> f0[i] != d,
        forall|i: int| 0 <= i < f1.len() ==> f1[i] != d,
        forall|i: int| 0 <= i < f2.len() ==> f2[i] != d,
        forall|i: int| 0 <= i < f3.len() ==> f3[i] != d,
    ensures
        spec_split(f0 + seq![d] + f1 + seq![d] + f2 + seq![d] + f3, d) == seq![f0, f1, f2, f3],
{
    let whole = f0 + seq![d] + f1 + seq![d] + f2 + seq![d] + f3;
    let r1 = f1 + seq![d] + f2 + seq![d] + f3;
    let r2 = f2 + seq![d] + f3;
    assert(whole =~= f0 + seq![d] + r1);
    lemma_split_head(f0, r1, d);
    assert(r1 =~= f1 + seq![d] + r2);
    lemma_split_head(f1, r2, d);
    lemma_split_head(f2, f3, d);
    lemma_split_single(f3, d);
    assert(seq![f0] + (seq![f1] + (seq![f2] + (seq![f3]))) =~= seq![f0, f1, f2, f3]);
}

/// The law that one encoded event decodes back to itself: for every
/// well-formed event whose time delta is not the seed sentinel and whose
/// coordinates are not the skip-frame pair, encoding it alone and decoding
/// the text under its own mode yields exactly that event and no seed.
pub proof fn lemma_event_round_trip(e: EventV, mode: GameMode)
    requires
        event_wf(e),
        event_mode(e) == mode,
        event_delta(e) != -12345,
        e matches EventV::Osu { x, y, .. } ==> !(dec_value_is(x, 256) && dec_value_is(y, -500)),
    ensures
        spec_parse_events(spec_events_text(seq![e], None), mode) == Some((seq![e], None::<i32>)),
{
    assert(seq![e].last() == e);
    assert(events_encodable(seq![e], None, mode)) by {
        assert(forall|j: int| 0 <= j < 1 ==> #[trigger] seq![e][j] == e);
    }
    lemma_events_text_round_trip(seq![e], None, mode);
}

/// The record of one event without its final comma.
pub open spec fn spec_event_body(e: EventV) -> Seq<u8> {
    match e {
        EventV::Osu { t, x, y, k } => spec_dec_int(t as int) + seq![CH_PIPE] + x + seq![CH_PIPE] + y
            + seq![CH_PIPE] + spec_dec_digits(k as int),
        EventV::Taiko { t, x, k } => spec_dec_int(t as int) + seq![CH_PIPE] + spec_dec_int(x as int)
            + seq![CH_PIPE] + seq![CH_DIGIT_ZERO] + seq![CH_PIPE] + spec_dec_digits(k as int),
        EventV::Catch { t, x, dash } => spec_dec_int(t as int) + seq![CH_PIPE] + x + seq![CH_PIPE]
            + seq![CH_DIGIT_ZERO] + seq![CH_PIPE] + (if dash {
            seq![CH_DIGIT_ONE]
        } else {
            seq![CH_DIGIT_ZERO]
        }),
        EventV::Mania { t, k } => spec_dec_int(t as int) + seq![CH_PIPE] + spec_dec_digits(k as int)
            + seq![CH_PIPE] + seq![CH_DIGIT_ZERO] + seq![CH_PIPE] + seq![CH_DIGIT_ZERO],
    }
}

/// A skip-frame-looking event: a Std frame whose coordinates hold the values
/// 256 and -500.
pub open spec fn event_skip_like(e: EventV) -> bool {
    match e {
        EventV::Osu { x, y, .. } => dec_value_is(x, 256) && dec_value_is(y, -500),
        _ => false,
    }
}

/// The shared shape of the event-body facts.
pub open spec fn event_body_facts(e: EventV) -> bool {
    &&& spec_event_record(e) == spec_event_body(e) + seq![CH_COMMA]
    &&& spec_event_body(e).len() > 0
    &&& forall|i: int|
        0 <= i < spec_event_body(e).len() ==> #[trigger] spec_event_body(e)[i] != CH_COMMA
            && spec_event_body(e)[i] < 128
    &&& ({
        let fields = spec_split(spec_event_body(e), CH_PIPE);
        &&& fields.len() == 4
        &&& spec_parse_i32(fields[0]) == Some(event_delta(e))
        &&& spec_parse_u32(fields[3]) is Some
        &&& spec_mode_event(
            event_mode(e),
            event_delta(e),
            fields[1],
            fields[2],
            spec_parse_u32(fields[3])->Some_0,
        ) == Some(e)
        &&& (e matches EventV::Osu { x, y, .. } ==> fields[1] == x && fields[2] == y)
        &&& (!(e matches EventV::Osu { .. }) ==> fields[2] == seq![CH_DIGIT_ZERO])
    })
}

proof fn lemma_zero_one_digits()
    ensures
        digits_value(seq![CH_DIGIT_ZERO]) == 0,
        digits_value(seq![CH_DIGIT_ONE]) == 1,
        all_digits(seq![CH_DIGIT_ZERO]),
        all_digits(seq![CH_DIGIT_ONE]),
        is_float_text(seq![CH_DIGIT_ZERO]),
        dec_int_valued(seq![CH_DIGIT_ZERO]),
        dec_int_value(seq![CH_DIGIT_ZERO]) == 0,
        forall|i: int|
            0 <= i < 1 ==> seq![CH_DIGIT_ZERO][i] != CH_COMMA && seq![CH_DIGIT_ZERO][i] != CH_PIPE
                && seq![CH_DIGIT_ZERO][i] < 128,
{
    assert(digits_value(Seq::<u8>::empty()) == 0);
    assert(seq![CH_DIGIT_ZERO].drop_last() =~= Seq::<u8>::empty());
    assert(seq![CH_DIGIT_ONE].drop_last() =~= Seq::<u8>::empty());
    crate::decimal::lemma_digits_dec_value(seq![CH_DIGIT_ZERO]);
}

#[verifier::rlimit(60)]
proof fn lemma_event_body_osu(t: i32, x: Seq<u8>, y: Seq<u8>, k: u32)
    requires
        is_float_text(x),
        is_float_text(y),
    ensures
        event_body_facts(EventV::Osu { t, x, y, k }),
{
    let e = EventV::Osu { t, x, y, k };
    lemma_zero_one_digits();
    crate::decimal::lemma_float_no_seps(x);
    crate::decimal::lemma_float_no_seps(y);
    body_fields(spec_dec_int(t as int), x, y, spec_dec_digits(k as int), t as int, k as int);
    assert(spec_event_record(e) =~= spec_event_body(e) + seq![CH_COMMA]);
    assert(spec_event_body(e) =~= spec_dec_int(t as int) + seq![CH_PIPE] + x + seq![CH_PIPE] + y
        + seq![CH_PIPE] + spec_dec_digits(k as int));
}

#[verifier::rlimit(60)]
proof fn lemma_event_body_taiko(t: i32, x: i32, k: u32)
    ensures
        event_body_facts(EventV::Taiko { t, x, k }),
{
    let e = EventV::Taiko { t, x, k };
    lemma_zero_one_digits();
    crate::decimal::lemma_dec_int_no_seps(x as int);
    crate::decimal::lemma_parse_dec_i32(x as int);
    body_fields(
        spec_dec_int(t as int),
        spec_dec_int(x as int),
        seq![CH_DIGIT_ZERO],
        spec_dec_digits(k as int),
        t as int,
        k as int,
    );
    assert(spec_event_record(e) =~= spec_event_body(e) + seq![CH_COMMA]);
    assert(spec_event_body(e) =~= spec_dec_int(t as int) + seq![CH_PIPE] + spec_dec_int(x as int)
        + seq![CH_PIPE] + seq![CH_DIGIT_ZERO] + seq![CH_PIPE] + spec_dec_digits(k as int));
}

#[verifier::rlimit(100)]
proof fn lemma_event_body_catch(t: i32, x: Seq<u8>, dash: bool)
    requires
        is_float_text(x),
    ensures
        event_body_facts(EventV::Catch { t, x, dash }),
{
    let e = EventV::Catch { t, x, dash };
    lemma_zero_one_digits();
    crate::decimal::lemma_float_no_seps(x);
    let f3 = if dash {
        seq![CH_DIGIT_ONE]
    } else {
        seq![CH_DIGIT_ZERO]
    };
    let kv: int = if dash {
        1
    } else {
        0
    };
    assert(spec_dec_digits(kv) =~= f3);
    body_fields(spec_dec_int(t as int), x, seq![CH_DIGIT_ZERO], f3, t as int, kv);
    assert(spec_event_record(e) =~= spec_event_body(e) + seq![CH_COMMA]);
    assert(spec_event_body(e) =~= spec_dec_int(t as int) + seq![CH_PIPE] + x + seq![CH_PIPE] + seq![
        CH_DIGIT_ZERO,
    ] + seq![CH_PIPE] + f3);
}

#[verifier::rlimit(60)]
proof fn lemma_event_body_mania(t: i32, k: u32)
    ensures
        event_body_facts(EventV::Mania { t, k }),
{
    let e = EventV::Mania { t, k };
    lemma_zero_one_digits();
    crate::decimal::lemma_parse_dec_u32(k as int);
    crate::decimal::lemma_dec_digits(k as int);
    assert(forall|i: int|
        0 <= i < spec_dec_digits(k as int).len() ==> crate::decimal::is_digit(
            #[trigger] spec_dec_digits(k as int)[i],
        ));
    body_fields(
        spec_dec_int(t as int),
        spec_dec_digits(k as int),
        seq![CH_DIGIT_ZERO],
        seq![CH_DIGIT_ZERO],
        t as int,
        0,
    );
    assert(spec_event_record(e) =~= spec_event_body(e) + seq![CH_COMMA]);
    assert(spec_event_body(e) =~= spec_dec_int(t as int) + seq![CH_PIPE] + spec_dec_digits(k as int)
        + seq![CH_PIPE] + seq![CH_DIGIT_ZERO] + seq![CH_PIPE] + seq![CH_DIGIT_ZERO]);
}

/// The field facts of one encoded event record.
proof fn lemma_event_body(e: EventV)
    requires
        event_wf(e),
    ensures
        event_body_facts(e),
{
    match e {
        EventV::Osu { t, x, y, k } => lemma_event_body_osu(t, x, y, k),
        EventV::Taiko { t, x, k } => lemma_event_body_taiko(t, x, k),
        EventV::Catch { t, x, dash } => lemma_event_body_catch(t, x, dash),
        EventV::Mania { t, k } => lemma_event_body_mania(t, k),
    }
}

/// The split and parse facts of a four-field body.
proof fn body_fields(f0: Seq<u8>, f1: Seq<u8>, f2: Seq<u8>, f3: Seq<u8>, t: int, k: int)
    requires
        i32::MIN <= t <= i32::MAX,
        0 <= k <= u32::MAX,
        f0 == spec_dec_int(t),
        forall|i: int| 0 <= i < f1.len() ==> f1[i] != CH_COMMA && f1[i] != CH_PIPE && f1[i] < 128,
        forall|i: int| 0 <= i < f2.len() ==> f2[i] != CH_COMMA && f2[i] != CH_PIPE && f2[i] < 128,
        f3 == spec_dec_digits(k),
    ensures
        ({
            let body = f0 + seq![CH_PIPE] + f1 + seq![CH_PIPE] + f2 + seq![CH_PIPE] + f3;
            &&& body.len() > 0
            &&& forall|i: int|
                0 <= i < body.len() ==> #[trigger] body[i] != CH_COMMA && body[i] < 128
            &&& spec_split(body, CH_PIPE) == seq![f0, f1, f2, f3]
            &&& spec_parse_i32(f0) == Some(t as i32)
            &&& spec_parse_u32(f3) == Some(k as u32)
        }),
{
    let body = f0 + seq![CH_PIPE] + f1 + seq![CH_PIPE] + f2 + seq![CH_PIPE] + f3;
    crate::decimal::lemma_dec_int_no_seps(t);
    crate::decimal::lemma_dec_digits(k);
    crate::decimal::lemma_parse_dec_i32(t);
    crate::decimal::lemma_parse_dec_u32(k);
    assert forall|i: int|
        0 <= i < body.len() implies #[trigger] body[i] != CH_COMMA && body[i] < 128 by {
        let n0 = f0.len() as int;
        let n1 = f1.len() as int;
        let n2 = f2.len() as int;
        if i < n0 {
            assert(body[i] == f0[i]);
        } else if i == n0 {
            assert(body[i] == CH_PIPE);
        } else if i < n0 + 1 + n1 {
            assert(body[i] == f1[i - n0 - 1]);
        } else if i == n0 + 1 + n1 {
            assert(body[i] == CH_PIPE);
        } else if i < n0 + 1 + n1 + 1 + n2 {
            assert(body[i] == f2[i - n0 - 1 - n1 - 1]);
        } else if i == n0 + 1 + n1 + 1 + n2 {
            assert(body[i] == CH_PIPE);
        } else {
            assert(body[i] == f3[i - n0 - 1 - n1 - 1 - n2 - 1]);
            assert(crate::decimal::is_digit(f3[i - n0 - 1 - n1 - 1 - n2 - 1]));
        }
    }
    assert forall|i: int| 0 <= i < f0.len() implies f0[i] != CH_PIPE by {}
    assert forall|i: int| 0 <= i < f3.len() implies f3[i] != CH_PIPE by {
        assert(crate::decimal::is_digit(f3[i]));
    }
    lemma_split_four(f0, f1, f2, f3, CH_PIPE);
}

/// The seed sentinel record without its final comma.
pub open spec fn spec_seed_body(seed: i32) -> Seq<u8> {
    seq![45u8, 49u8, 50u8, 51u8, 52u8, 53u8, CH_PIPE, CH_DIGIT_ZERO, CH_PIPE, CH_DIGIT_ZERO, CH_PIPE]
        + spec_dec_int(seed as int)
}

/// The field facts of the seed record, for a nonnegative seed.
proof fn lemma_seed_body(seed: i32)
    requires
        seed >= 0,
    ensures
        spec_seed_record(seed) == spec_seed_body(seed) + seq![CH_COMMA],
        spec_seed_body(seed).len() > 0,
        forall|i: int|
            0 <= i < spec_seed_body(seed).len() ==> #[trigger] spec_seed_body(seed)[i] != CH_COMMA
                && spec_seed_body(seed)[i] < 128,
        ({
            let fields = spec_split(spec_seed_body(seed), CH_PIPE);
            &&& fields.len() == 4
            &&& spec_parse_i32(fields[0]) == Some(-12345i32)
            &&& spec_parse_u32(fields[3]) == Some(seed as u32)
        }),
{
    let f0 = seq![45u8, 49u8, 50u8, 51u8, 52u8, 53u8];
    assert(f0 =~= spec_dec_int(-12345)) by {
        reveal_with_fuel(crate::decimal::spec_dec_digits, 6);
        assert(spec_dec_digits(12345) =~= seq![49u8, 50u8, 51u8, 52u8, 53u8]);
    }
    crate::decimal::lemma_dec_digits(seed as int);
    body_fields(
        spec_dec_int(-12345),
        seq![CH_DIGIT_ZERO],
        seq![CH_DIGIT_ZERO],
        spec_dec_digits(seed as int),
        -12345,
        seed as int,
    );
    crate::decimal::lemma_digits_dec_value(seq![CH_DIGIT_ZERO]);
    assert(spec_seed_body(seed) =~= spec_dec_int(-12345) + seq![CH_PIPE] + seq![CH_DIGIT_ZERO]
        + seq![CH_PIPE] + seq![CH_DIGIT_ZERO] + seq![CH_PIPE] + spec_dec_digits(seed as int));
    assert(spec_seed_record(seed) =~= spec_seed_body(seed) + seq![CH_COMMA]);
    assert(spec_dec_int(seed as int) == spec_dec_digits(seed as int));
}

/// The record bodies an event text splits into: one per event, then the seed
/// sentinel if a seed is present.
pub open spec fn spec_record_list(evs: Seq<EventV>, seed: Option<i32>) -> Seq<Seq<u8>> {
    match seed {
        None => Seq::new(evs.len(), |i: int| spec_event_body(evs[i])),
        Some(s) => Seq::new(
            evs.len() + 1,
            |i: int|
                if i < evs.len() {
                    spec_event_body(evs[i])
                } else {
                    spec_seed_body(s)
                },
        ),
    }
}

/// A nonempty event text ends with the record delimiter.
proof fn lemma_text_last(evs: Seq<EventV>, seed: Option<i32>)
    requires
        evs.len() > 0 || seed is Some,
        seed matches Some(s) ==> s >= 0,
        forall|j: int| 0 <= j < evs.len() ==> event_wf(#[trigger] evs[j]),
    ensures
        spec_events_text(evs, seed).len() > 0,
        spec_events_text(evs, seed).last() == CH_COMMA,
    decreases evs.len(),
{
    if evs.len() == 0 {
        let s = seed->Some_0;
        lemma_seed_body(s);
        assert(spec_events_text(evs, seed) == spec_seed_record(s));
        assert((spec_seed_body(s) + seq![CH_COMMA]).last() == CH_COMMA);
    } else {
        assert(event_wf(evs[0]));
        lemma_event_body(evs[0]);
        if evs.len() == 1 && seed is None {
            assert(evs.skip(1) =~= Seq::<EventV>::empty());
            assert(spec_events_text(evs.skip(1), seed) =~= Seq::<u8>::empty());
            assert(spec_events_text(evs, seed) =~= spec_event_record(evs[0]));
            assert((spec_event_body(evs[0]) + seq![CH_COMMA]).last() == CH_COMMA);
        } else {
            assert(forall|j: int|
                0 <= j < evs.skip(1).len() ==> event_wf(#[trigger] evs.skip(1)[j]));
            lemma_text_last(evs.skip(1), seed);
            let rest = spec_events_text(evs.skip(1), seed);
            assert(spec_events_text(evs, seed) == spec_event_record(evs[0]) + rest);
            assert((spec_event_record(evs[0]) + rest).last() == rest.last());
        }
    }
}

/// The record list of an encoded event text is its bodies in order.
proof fn lemma_records_structure(evs: Seq<EventV>, seed: Option<i32>)
    requires
        seed matches Some(s) ==> s >= 0,
        forall|j: int| 0 <= j < evs.len() ==> event_wf(#[trigger] evs[j]),
    ensures
        spec_records(spec_events_text(evs, seed)) == spec_record_list(evs, seed),
    decreases evs.len(),
{
    let text = spec_events_text(evs, seed);
    if evs.len() == 0 {
        match seed {
            None => {
                assert(text =~= Seq::<u8>::empty());
                assert(spec_records(text) =~~= spec_record_list(evs, seed));
            },
            Some(s) => {
                lemma_seed_body(s);
                assert(text == spec_seed_record(s));
                assert(text =~= spec_seed_body(s) + seq![CH_COMMA]);
                assert(text.last() == CH_COMMA);
                assert(text.drop_last() =~= spec_seed_body(s));
                lemma_split_single(spec_seed_body(s), CH_COMMA);
                assert(spec_records(text) =~~= spec_record_list(evs, seed));
            },
        }
    } else {
        assert(event_wf(evs[0]));
        lemma_event_body(evs[0]);
        let body0 = spec_event_body(evs[0]);
        let rest = spec_events_text(evs.skip(1), seed);
        assert(forall|j: int| 0 <= j < evs.skip(1).len() ==> event_wf(#[trigger] evs.skip(1)[j]));
        lemma_records_structure(evs.skip(1), seed);
        assert(text == spec_event_record(evs[0]) + rest);
        if evs.len() == 1 && seed is None {
            assert(evs.skip(1) =~= Seq::<EventV>::empty());
            assert(rest =~= Seq::<u8>::empty());
            assert(text =~= body0 + seq![CH_COMMA]);
            assert(text.drop_last() =~= body0);
            lemma_split_single(body0, CH_COMMA);
            assert(spec_records(text) =~~= spec_record_list(evs, seed));
        } else {
            lemma_text_last(evs.skip(1), seed);
            assert(text.last() == rest.last()) by {
                assert(text == (spec_event_record(evs[0]) + rest));
                assert(rest.len() > 0);
            }
            assert(text.drop_last() =~= body0 + seq![CH_COMMA] + rest.drop_last());
            lemma_split_head(body0, rest.drop_last(), CH_COMMA);
            assert(rest.drop_last().len() > 0) by {
                if evs.skip(1).len() > 0 {
                    lemma_event_body(evs.skip(1)[0]);
                    let brest = spec_events_text(evs.skip(1).skip(1), seed);
                    assert(rest == spec_event_record(evs.skip(1)[0]) + brest);
                    assert(rest.len() == spec_event_body(evs.skip(1)[0]).len() + 1 + brest.len());
                } else {
                    lemma_seed_body(seed->Some_0);
                    assert(rest == spec_seed_record(seed->Some_0));
                }
            }
            assert(spec_records(rest) == spec_split(rest.drop_last(), CH_COMMA));
            assert(spec_records(text) =~~= seq![body0] + spec_record_list(evs.skip(1), seed));
            assert(seq![body0] + spec_record_list(evs.skip(1), seed) =~~= spec_record_list(
                evs,
                seed,
            ));
        }
    }
}

/// An event sequence and seed that the textual format stores losslessly: the
/// events match the mode and are well-formed, a seed is nonnegative, a last
/// event does not spell the seed sentinel, and the first two events do not
/// spell skip frames.
pub open spec fn events_encodable(evs: Seq<EventV>, seed: Option<i32>, mode: GameMode) -> bool {
    &&& forall|j: int|
        0 <= j < evs.len() ==> event_wf(#[trigger] evs[j]) && event_mode(evs[j]) == mode
    &&& (seed matches Some(s) ==> s >= 0)
    &&& (seed is None && evs.len() > 0 ==> event_delta(evs.last()) != -12345)
    &&& forall|j: int| 0 <= j < evs.len() && j < 2 ==> !event_skip_like(#[trigger] evs[j])
}

/// Walking the record list from index `i` yields the remaining events and the
/// seed.
proof fn lemma_parse_record_list(evs: Seq<EventV>, seed: Option<i32>, mode: GameMode, i: int)
    requires
        events_encodable(evs, seed, mode),
        0 <= i <= evs.len(),
    ensures
        spec_parse_records(spec_record_list(evs, seed), i, mode) == Some((evs.skip(i), seed)),
    decreases evs.len() - i,
{
    let recs = spec_record_list(evs, seed);
    if i == evs.len() {
        match seed {
            None => {
                assert(evs.skip(i) =~= Seq::<EventV>::empty());
            },
            Some(s) => {
                lemma_seed_body(s);
                assert(recs[i] == spec_seed_body(s));
                let fields = spec_split(recs[i], CH_PIPE);
                assert(spec_parse_records(recs, i + 1, mode) == Some((
                    Seq::<EventV>::empty(),
                    None::<i32>,
                )));
                assert((seed->Some_0 as u32) as i32 == seed->Some_0);
                assert(evs.skip(i) =~= Seq::<EventV>::empty());
            },
        }
    } else {
        assert(event_wf(evs[i]) && event_mode(evs[i]) == mode);
        lemma_event_body(evs[i]);
        assert(recs[i] == spec_event_body(evs[i]));
        let fields = spec_split(recs[i], CH_PIPE);
        let td = event_delta(evs[i]);
        // The sentinel branch is never taken: a last event is only last when
        // no seed follows, and then its delta is not the sentinel.
        if td == -12345 && i == recs.len() - 1 {
            assert(seed is None && i == evs.len() - 1);
            assert(evs.last() == evs[i]);
            assert(false);
        }
        // The skip branch is never taken among the first two records.
        if i < 2 {
            assert(!event_skip_like(evs[i]));
            if !(evs[i] matches EventV::Osu { .. }) {
                crate::decimal::lemma_digits_dec_value(seq![CH_DIGIT_ZERO]);
                assert(digits_value(seq![CH_DIGIT_ZERO]) == 0) by {
                    assert(seq![CH_DIGIT_ZERO].drop_last() =~= Seq::<u8>::empty());
                    assert(digits_value(Seq::<u8>::empty()) == 0);
                }
                assert(!dec_value_is(fields[2], -500));
            }
        }
        lemma_parse_record_list(evs, seed, mode, i + 1);
        assert(evs.skip(i) =~= seq![evs[i]] + evs.skip(i + 1));
    }
}

/// The law that an encodable event stream round-trips: decoding the encoded
/// text under the same mode yields exactly the events and the seed.
pub proof fn lemma_events_text_round_trip(evs: Seq<EventV>, seed: Option<i32>, mode: GameMode)
    requires
        events_encodable(evs, seed, mode),
    ensures
        spec_parse_events(spec_events_text(evs, seed), mode) == Some((evs, seed)),
{
    lemma_records_structure(evs, seed);
    lemma_parse_record_list(evs, seed, mode, 0);
    assert(evs.skip(0) =~= evs);
}

/// Splitting a two-field body gives exactly those fields.
pub proof fn lemma_split_two(f0: Seq<u8>, f1: Seq<u8>, d: u8)
    requires
        forall|i: int| 0 <= i < f0.len() ==> f0[i] != d,
        forall|i: int| 0 <= i < f1.len() ==> f1[i] != d,
    ensures
        spec_split(f0 + seq![d] + f1, d) == seq![f0, f1],
{
    lemma_split_head(f0, f1, d);
    lemma_split_single(f1, d);
    assert(seq![f0] + seq![f1] =~= seq![f0, f1]);
}

/// Splitting a piece without the delimiter gives just that piece.
pub proof fn lemma_split_one(s: Seq<u8>, d: u8)
    requires
        forall|i: int| 0 <= i < s.len() ==> s[i] != d,
    ensures
        spec_split(s, d) == seq![s],
{
    lemma_split_single(s, d);
}

/// Splitting a delimited head off, for the other textual sub-format.
pub proof fn lemma_split_head_pub(a: Seq<u8>, rest: Seq<u8>, d: u8)
    requires
        forall|i: int| 0 <= i < a.len() ==> a[i] != d,
    ensures
        spec_split(a + seq![d] + rest, d) == seq![a] + spec_split(rest, d),
{
    lemma_split_head(a, rest, d);
}

/// Every byte of an encoded event text is ASCII.
pub proof fn lemma_events_text_ascii(evs: Seq<EventV>, seed: Option<i32>)
    requires
        seed matches Some(s) ==> s >= 0,
        forall|j: int| 0 <= j < evs.len() ==> event_wf(#[trigger] evs[j]),
    ensures
        forall|i: int|
            0 <= i < spec_events_text(evs, seed).len() ==> #[trigger] spec_events_text(
                evs,
                seed,
            )[i] < 128,
    decreases evs.len(),
{
    let text = spec_events_text(evs, seed);
    if evs.len() == 0 {
        match seed {
            None => {},
            Some(s) => {
                lemma_seed_body(s);
                assert forall|i: int| 0 <= i < text.len() implies #[trigger] text[i] < 128 by {
                    assert(text == spec_seed_body(s) + seq![CH_COMMA]);
                    if i < spec_seed_body(s).len() {
                        assert(text[i] == spec_seed_body(s)[i]);
                    }
                }
            },
        }
    } else {
        assert(event_wf(evs[0]));
        lemma_event_body(evs[0]);
        assert(forall|j: int| 0 <= j < evs.skip(1).len() ==> event_wf(#[trigger] evs.skip(1)[j]));
        lemma_events_text_ascii(evs.skip(1), seed);
        let rest = spec_events_text(evs.skip(1), seed);
        let body0 = spec_event_body(evs[0]);
        assert(text == spec_event_record(evs[0]) + rest);
        assert forall|i: int| 0 <= i < text.len() implies #[trigger] text[i] < 128 by {
            if i < body0.len() {
                assert(text[i] == body0[i]);
            } else if i == body0.len() {
                assert(text[i] == CH_COMMA);
            } else {
                assert(text[i] == rest[i - body0.len() - 1]);
            }
        }
    }
}

} // verus!
