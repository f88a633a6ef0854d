//! The textual life-bar codec: comma-terminated `time|life` records. Unlike
//! the event stream, a record with the wrong field count is a hard error.

use vstd::prelude::*;
use crate::decimal::{
    CH_COMMA,
    CH_PIPE,
    dec_int_value,
    dec_int_valued,
    dec_int_value_clipped,
    is_float_text,
    lemma_float_no_seps,
    lemma_dec_int_no_seps,
    lemma_parse_dec_i32,
    parse_i32_bytes,
    push_dec_i32,
    spec_dec_int,
    spec_parse_i32,
};
use crate::error::ReplayError;
use crate::events::{spec_split, to_vec};
use crate::types::{FloatText, LifeBarState};

verus! {

/// The ghost shape of one life-bar state: a time and a life value text.
pub type LifeV = (i32, Seq<u8>);

/// The views of a life-bar sequence.
pub open spec fn lifebar_view(s: Seq<LifeBarState>) -> Seq<LifeV> {
    Seq::new(s.len(), |i: int| (s[i].time, s[i].life@))
}

/// A well-formed life-bar state: its life text matches the float grammar.
pub open spec fn life_wf(l: LifeV) -> bool {
    is_float_text(l.1)
}

/// Decoding one `time|life` record: exactly two fields, a time that parses as
/// a signed integer and a life that parses as a float.
pub open spec fn spec_parse_life_record(rec: Seq<u8>) -> Option<LifeV> {
    let fields = spec_split(rec, CH_PIPE);
    if fields.len() != 2 {
        None
    } else {
        match spec_parse_i32(fields[0]) {
            None => None,
            Some(t) => {
                if is_float_text(fields[1]) {
                    Some((t, fields[1]))
                } else {
                    None
                }
            },
        }
    }
}

/// Decoding the records from index `i` on; the first bad record fails the
/// whole curve.
pub open spec fn spec_parse_life_records(recs: Seq<Seq<u8>>, i: int) -> Option<Seq<LifeV>>
    decreases recs.len() - i,
    when 0 <= i <= recs.len()
{
    if i >= recs.len() {
        Some(seq![])
    } else {
        match spec_parse_life_record(recs[i]) {
            None => None,
            Some(l) => {
                match spec_parse_life_records(recs, i + 1) {
                    None => None,
                    Some(rest) => Some(seq![l] + rest),
                }
            },
        }
    }
}

/// Decoding a whole life-bar text: one trailing delimiter is stripped, and
/// every remaining record must be well-formed.
pub open spec fn spec_parse_lifebar(s: Seq<u8>) -> Option<Seq<LifeV>> {
    let t = if s.len() > 0 && s.last() == CH_COMMA {
        s.drop_last()
    } else {
        s
    };
    spec_parse_life_records(spec_split(t, CH_COMMA), 0)
}

/// The clamp of an exact decimal value into the 32-bit signed range, as a
/// saturating cast performs it.
pub open spec fn clamp_i32(x: int) -> int {
    if x > i32::MAX {
        i32::MAX as int
    } else if x < i32::MIN {
        i32::MIN as int
    } else {
        x
    }
}

/// The text a life value is written back as: an integer-valued life loses its
/// fractional part (and is clamped into 32 bits); any other text is kept.
pub open spec fn spec_life_out(life: Seq<u8>) -> Seq<u8> {
    if dec_int_valued(life) {
        spec_dec_int(clamp_i32(dec_int_value(life)))
    } else {
        life
    }
}

/// The text of one life-bar record, final comma included.
pub open spec fn spec_life_record(l: LifeV) -> Seq<u8> {
    spec_dec_int(l.0 as int) + seq![CH_PIPE] + spec_life_out(l.1) + seq![CH_COMMA]
}

/// The text of a whole life-bar curve.
pub open spec fn spec_life_text(states: Seq<LifeV>) -> Seq<u8>
    decreases states.len(),
{
    if states.len() == 0 {
        seq![]
    } else {
        spec_life_record(states[0]) + spec_life_text(states.skip(1))
    }
}

/// Decodes a life-bar text given as raw bytes.
#[verifier::loop_isolation(false)]
pub fn parse_life_bytes(data: &[u8]) -> (r: Result<Vec<LifeBarState>, ReplayError>)
    ensures
        match spec_parse_lifebar(data@) {
            Some(ls) => r matches Ok(v) && lifebar_view(v@) == ls,
            None => r matches Err(e) && e is Parse,
        },
{
    let n = data.len();
    let end: usize = if n > 0 && data[n - 1] == CH_COMMA {
        n - 1
    } else {
        n
    };
    proof {
        if n > 0 && data@.last() == CH_COMMA {
            assert(data@.subrange(0, end as int) =~= data@.drop_last());
        } else {
            assert(data@.subrange(0, end as int) =~= data@);
        }
    }
    let recs = crate::events::split_bytes(data, 0, end, CH_COMMA);
    let ghost recsv = spec_split(data@.subrange(0, end as int), CH_COMMA);
    proof {
        assert(recs.deep_view() == recsv);
    }
    let count = recs.len();
    let mut acc: Vec<LifeBarState> = Vec::new();
    let mut i: usize = 0;
    while i < count
        invariant
            0 <= i <= count,
            count == recsv.len(),
            recs.deep_view() == recsv,
            match spec_parse_life_records(recsv, i as int) {
                None => spec_parse_life_records(recsv, 0) is None,
                Some(rest) => spec_parse_life_records(recsv, 0) matches Some(all) && all
                    == lifebar_view(acc@) + rest,
            },
        decreases count - i,
    {
        let rec: &Vec<u8> = &recs[i];
        proof {
            assert(rec@ == recsv[i as int]);
        }
        let fields = crate::events::split_bytes(rec.as_slice(), 0, rec.len(), CH_PIPE);
        let ghost fieldsv = spec_split(recsv[i as int], CH_PIPE);
        proof {
            assert(rec@.subrange(0, rec@.len() as int) =~= rec@);
            assert(fields.deep_view() == fieldsv);
        }
        if fields.len() != 2 {
            return Err(ReplayError::Parse(String::from_str("invalid life bar state format")));
        }
        proof {
            assert(fields@[0]@ == fieldsv[0]);
            assert(fields@[1]@ == fieldsv[1]);
        }
        let t = match parse_i32_bytes(fields[0].as_slice()) {
            Some(v) => v,
            None => {
                return Err(ReplayError::Parse(String::from_str("invalid time")));
            },
        };
        let life = match FloatText::from_bytes(to_vec(fields[1].as_slice())) {
            Some(f) => f,
            None => {
                return Err(ReplayError::Parse(String::from_str("invalid life")));
            },
        };
        let state = LifeBarState { time: t, life };
        let ghost old_acc = acc@;
        acc.push(state);
        proof {
            assert(lifebar_view(acc@) =~= lifebar_view(old_acc) + seq![(t, fieldsv[1])]);
            assert(lifebar_view(old_acc) + (seq![(t, fieldsv[1])] + spec_parse_life_records(
                recsv,
                i + 1,
            )->Some_0) =~= (lifebar_view(old_acc) + seq![(t, fieldsv[1])])
                + spec_parse_life_records(recsv, i + 1)->Some_0) by {
                if spec_parse_life_records(recsv, i + 1) is Some {
                }
            }
        }
        i = i + 1;
    }
    Ok(acc)
}

/// Encodes a life-bar curve as its text.
#[verifier::loop_isolation(false)]
pub fn encode_lifebar(states: &Vec<LifeBarState>) -> (r: Vec<u8>)
    ensures
        r@ == spec_life_text(lifebar_view(states@)),
        forall|j: int| 0 <= j < states@.len() ==> life_wf(#[trigger] lifebar_view(states@)[j]),
{
    let ghost lv = lifebar_view(states@);
    let mut out: Vec<u8> = Vec::new();
    let n = states.len();
    proof {
        assert(lv.skip(0) =~= lv);
    }
    let mut i: usize = 0;
    while i < n
        invariant
            0 <= i <= n,
            n == states@.len(),
            lv == lifebar_view(states@),
            spec_life_text(lv) =~= out@ + spec_life_text(lv.skip(i as int)),
            forall|j: int| 0 <= j < i ==> life_wf(#[trigger] lv[j]),
        decreases n - i,
    {
        let st = &states[i];
        let ghost out_start = out@;
        proof {
            use_type_invariant(&st.life);
            st.life.lemma_wf();
        }
        push_dec_i32(&mut out, st.time);
        out.push(CH_PIPE);
        match dec_int_value_clipped(st.life.bytes().as_slice()) {
            Some(v) => {
                let c: i32 = if v > 0x7fff_ffff {
                    0x7fff_ffff
                } else if v < -0x8000_0000 {
                    -0x8000_0000
                } else {
                    v as i32
                };
                proof {
                    assert(c as int == clamp_i32(dec_int_value(st.life@)));
                }
                push_dec_i32(&mut out, c);
            },
            None => {
                crate::events::push_bytes(&mut out, st.life.bytes());
            },
        }
        out.push(CH_COMMA);
        proof {
            assert(out@ =~= out_start + spec_life_record(lv[i as int]));
            assert(lv.skip(i as int)[0] == lv[i as int]);
            assert(lv.skip(i as int).skip(1) =~= lv.skip(i + 1));
        }
        i = i + 1;
    }
    proof {
        assert(lv.skip(n as int) =~= Seq::<LifeV>::empty());
    }
    out
}

/// One life-bar record without its final comma.
pub open spec fn spec_life_body(l: LifeV) -> Seq<u8> {
    spec_dec_int(l.0 as int) + seq![CH_PIPE] + spec_life_out(l.1)
}

/// The curve as decode reads it back: times exact, each life value in its
/// written-back form.
pub open spec fn reformat_lifebar(states: Seq<LifeV>) -> Seq<LifeV> {
    Seq::new(states.len(), |i: int| (states[i].0, spec_life_out(states[i].1)))
}

/// The written-back life value is itself a float text.
pub proof fn lemma_life_out_wf(life: Seq<u8>)
    requires
        is_float_text(life),
    ensures
        is_float_text(spec_life_out(life)),
{
    if dec_int_valued(life) {
        crate::decimal::lemma_dec_int_float(clamp_i32(dec_int_value(life)));
    }
}

/// The field facts of one encoded life-bar record.
proof fn lemma_life_body(l: LifeV)
    requires
        life_wf(l),
    ensures
        spec_life_record(l) == spec_life_body(l) + seq![CH_COMMA],
        spec_life_body(l).len() > 0,
        forall|i: int|
            0 <= i < spec_life_body(l).len() ==> #[trigger] spec_life_body(l)[i] != CH_COMMA
                && spec_life_body(l)[i] < 128,
        spec_parse_life_record(spec_life_body(l)) == Some((l.0, spec_life_out(l.1))),
{
    let f0 = spec_dec_int(l.0 as int);
    let f1 = spec_life_out(l.1);
    let body = spec_life_body(l);
    crate::decimal::lemma_dec_int_no_seps(l.0 as int);
    crate::decimal::lemma_parse_dec_i32(l.0 as int);
    lemma_life_out_wf(l.1);
    crate::decimal::lemma_float_no_seps(f1);
    assert(spec_life_record(l) =~= body + seq![CH_COMMA]);
    assert forall|i: int|
        0 <= i < body.len() implies #[trigger] body[i] != CH_COMMA && body[i] < 128 by {
        let n0 = f0.len() as int;
        if i < n0 {
            assert(body[i] == f0[i]);
        } else if i == n0 {
            assert(body[i] == CH_PIPE);
        } else {
            assert(body[i] == f1[i - n0 - 1]);
        }
    }
    assert forall|i: int| 0 <= i < f0.len() implies f0[i] != CH_PIPE by {}
    crate::events::lemma_split_two(f0, f1, CH_PIPE);
}

/// A nonempty curve text ends with the record delimiter, and its record list
/// is its bodies in order.
proof fn lemma_life_records_structure(states: Seq<LifeV>)
    requires
        states.len() > 0,
        forall|j: int| 0 <= j < states.len() ==> life_wf(#[trigger] states[j]),
    ensures
        spec_life_text(states).len() > 0,
        spec_life_text(states).last() == CH_COMMA,
        spec_split(spec_life_text(states).drop_last(), CH_COMMA) == Seq::new(
            states.len(),
            |i: int| spec_life_body(states[i]),
        ),
    decreases states.len(),
{
    lemma_life_body(states[0]);
    let body0 = spec_life_body(states[0]);
    let rest = spec_life_text(states.skip(1));
    assert(spec_life_text(states) == spec_life_record(states[0]) + rest);
    if states.len() == 1 {
        assert(states.skip(1) =~= Seq::<LifeV>::empty());
        assert(rest =~= Seq::<u8>::empty());
        assert(spec_life_text(states) =~= body0 + seq![CH_COMMA]);
        assert(spec_life_text(states).drop_last() =~= body0);
        crate::events::lemma_split_one(body0, CH_COMMA);
        assert(spec_split(body0, CH_COMMA) =~~= Seq::new(
            states.len(),
            |i: int| spec_life_body(states[i]),
        ));
    } else {
        assert(forall|j: int|
            0 <= j < states.skip(1).len() ==> life_wf(#[trigger] states.skip(1)[j]));
        lemma_life_records_structure(states.skip(1));
        assert(spec_life_text(states) =~= body0 + seq![CH_COMMA] + rest);
        assert(spec_life_text(states).last() == rest.last());
        assert(spec_life_text(states).drop_last() =~= body0 + seq![CH_COMMA] + rest.drop_last());
        crate::events::lemma_split_head_pub(body0, rest.drop_last(), CH_COMMA);
        assert(spec_split(spec_life_text(states).drop_last(), CH_COMMA) =~~= Seq::new(
            states.len(),
            |i: int| spec_life_body(states[i]),
        ));
    }
}

/// Walking the record list from index `i` yields the remaining states, in
/// their written-back form.
proof fn lemma_parse_life_list(states: Seq<LifeV>, i: int)
    requires
        forall|j: int| 0 <= j < states.len() ==> life_wf(#[trigger] states[j]),
        0 <= i <= states.len(),
    ensures
        spec_parse_life_records(Seq::new(states.len(), |k: int| spec_life_body(states[k])), i)
            == Some(reformat_lifebar(states).skip(i)),
    decreases states.len() - i,
{
    let recs = Seq::new(states.len(), |k: int| spec_life_body(states[k]));
    if i == states.len() {
        assert(reformat_lifebar(states).skip(i) =~= Seq::<LifeV>::empty());
    } else {
        lemma_life_body(states[i]);
        lemma_parse_life_list(states, i + 1);
        assert(reformat_lifebar(states).skip(i) =~= seq![
            (states[i].0, spec_life_out(states[i].1)),
        ] + reformat_lifebar(states).skip(i + 1));
    }
}

/// The law that an encoded life-bar curve round-trips: decoding the encoded
/// text yields the same times, with each life value in its written-back form
/// (an integer-valued text loses its fractional part; nothing else changes).
pub proof fn lemma_lifebar_text_round_trip(states: Seq<LifeV>)
    requires
        states.len() > 0,
        forall|j: int| 0 <= j < states.len() ==> life_wf(#[trigger] states[j]),
    ensures
        spec_parse_lifebar(spec_life_text(states)) == Some(reformat_lifebar(states)),
{
    lemma_life_records_structure(states);
    lemma_parse_life_list(states, 0);
    assert(reformat_lifebar(states).skip(0) =~= reformat_lifebar(states));
}

/// Every byte of an encoded life-bar text is ASCII.
pub proof fn lemma_life_text_ascii(states: Seq<LifeV>)
    requires
        forall|j: int| 0 <= j < states.len() ==> life_wf(#[trigger] states[j]),
    ensures
        forall|i: int|
            0 <= i < spec_life_text(states).len() ==> #[trigger] spec_life_text(states)[i] < 128,
    decreases states.len(),
{
    let text = spec_life_text(states);
    if states.len() > 0 {
        lemma_life_body(states[0]);
        assert(forall|j: int|
            0 <= j < states.skip(1).len() ==> life_wf(#[trigger] states.skip(1)[j]));
        lemma_life_text_ascii(states.skip(1));
        let rest = spec_life_text(states.skip(1));
        let body0 = spec_life_body(states[0]);
        assert(text == spec_life_record(states[0]) + rest);
        assert forall|i: int| 0 <= i < text.len() implies #[trigger] text[i] < 128 by {
            if i < body0.len() {
                assert(text[i] == body0[i]);
            } else if i == body0.len() {
                assert(text[i] == CH_COMMA);
            } else {
                assert(text[i] == rest[i - body0.len() - 1]);
            }
        }
    }
}

/// A nonempty curve has nonempty text.
pub proof fn lemma_life_text_nonempty(states: Seq<LifeV>)
    requires
        states.len() > 0,
        forall|j: int| 0 <= j < states.len() ==> life_wf(#[trigger] states[j]),
    ensures
        spec_life_text(states).len() > 0,
{
    lemma_life_records_structure(states);
}

} // verus!
