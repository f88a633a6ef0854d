//! Core types for replay data: game modes, mod and key bit-sets, events and
//! the life-bar curve.

use vstd::prelude::*;
use crate::decimal::{is_float_text, is_float_text_bytes};

verus! {

/// The game modes a replay can belong to, stored as the bytes 0 to 3.
#[derive(Debug, Clone, Copy, PartialEq, Eq, Structural)]
pub enum GameMode {
    Std,
    Taiko,
    Catch,
    Mania,
}

/// The mode denoted by a mode byte: 0 to 3 name the four modes; every other
/// byte falls back to Std, by design rather than as an error.
pub open spec fn spec_mode_of_byte(value: u8) -> GameMode {
    if value == 1 {
        GameMode::Taiko
    } else if value == 2 {
        GameMode::Catch
    } else if value == 3 {
        GameMode::Mania
    } else {
        GameMode::Std
    }
}

/// The byte a mode is stored as.
pub open spec fn spec_mode_byte(mode: GameMode) -> u8 {
    match mode {
        GameMode::Std => 0,
        GameMode::Taiko => 1,
        GameMode::Catch => 2,
        GameMode::Mania => 3,
    }
}

impl From<u8> for GameMode {
    /// Decodes a mode byte; an unknown byte falls back to Std.
    fn from(value: u8) -> (r: GameMode) {
        match value {
            1 => GameMode::Taiko,
            2 => GameMode::Catch,
            3 => GameMode::Mania,
            _ => GameMode::Std,
        }
    }
}

impl vstd::std_specs::convert::FromSpecImpl<u8> for GameMode {
    open spec fn obeys_from_spec() -> bool {
        true
    }

    open spec fn from_spec(value: u8) -> GameMode {
        spec_mode_of_byte(value)
    }
}

impl GameMode {
    /// The byte this mode is stored as.
    pub fn value(&self) -> (r: u8)
        ensures
            r == spec_mode_byte(*self),
    {
        match self {
            GameMode::Std => 0,
            GameMode::Taiko => 1,
            GameMode::Catch => 2,
            GameMode::Mania => 3,
        }
    }
}

/// Gameplay modifiers as a bit-set over one `u32`.
#[derive(Debug, Clone, Copy, PartialEq, Eq, Structural)]
pub struct Mod(pub u32);

impl Mod {
    pub const NO_MOD: u32 = 0u32;

    pub const NO_FAIL: u32 = 1u32 << 0;

    pub const EASY: u32 = 1u32 << 1;

    pub const TOUCH_DEVICE: u32 = 1u32 << 2;

    pub const HIDDEN: u32 = 1u32 << 3;

    pub const HARD_ROCK: u32 = 1u32 << 4;

    pub const SUDDEN_DEATH: u32 = 1u32 << 5;

    pub const DOUBLE_TIME: u32 = 1u32 << 6;

    pub const RELAX: u32 = 1u32 << 7;

    pub const HALF_TIME: u32 = 1u32 << 8;

    pub const NIGHTCORE: u32 = 1u32 << 9;

    pub const FLASHLIGHT: u32 = 1u32 << 10;

    pub const AUTOPLAY: u32 = 1u32 << 11;

    pub const SPUN_OUT: u32 = 1u32 << 12;

    pub const AUTOPILOT: u32 = 1u32 << 13;

    pub const PERFECT: u32 = 1u32 << 14;

    pub const KEY4: u32 = 1u32 << 15;

    pub const KEY5: u32 = 1u32 << 16;

    pub const KEY6: u32 = 1u32 << 17;

    pub const KEY7: u32 = 1u32 << 18;

    pub const KEY8: u32 = 1u32 << 19;

    pub const FADE_IN: u32 = 1u32 << 20;

    pub const RANDOM: u32 = 1u32 << 21;

    pub const CINEMA: u32 = 1u32 << 22;

    pub const TARGET: u32 = 1u32 << 23;

    pub const KEY9: u32 = 1u32 << 24;

    pub const KEY_COOP: u32 = 1u32 << 25;

    pub const KEY1: u32 = 1u32 << 26;

    pub const KEY3: u32 = 1u32 << 27;

    pub const KEY2: u32 = 1u32 << 28;

    pub const SCORE_V2: u32 = 1u32 << 29;

    pub const MIRROR: u32 = 1u32 << 30;

    /// Whether every bit of `other` is set in `self`: containment is
    /// bitwise-and-equals-operand, not mere overlap.
    pub fn contains(&self, other: Self) -> (r: bool)
        ensures
            r == ((self.0 & other.0) == other.0),
    {
        (self.0 & other.0) == other.0
    }

    /// The raw bit-set.
    pub fn value(&self) -> (r: u32)
        ensures
            r == self.0,
    {
        self.0
    }
}

impl From<u32> for Mod {
    fn from(value: u32) -> (r: Mod) {
        Mod(value)
    }
}

impl vstd::std_specs::convert::FromSpecImpl<u32> for Mod {
    open spec fn obeys_from_spec() -> bool {
        true
    }

    open spec fn from_spec(value: u32) -> Mod {
        Mod(value)
    }
}

/// Keys pressed in a Std frame: mouse buttons, keyboard keys and smoke.
#[derive(Debug, Clone, Copy, PartialEq, Eq, Structural)]
pub struct Key(pub u32);

impl Key {
    pub const M1: u32 = 1u32 << 0;

    pub const M2: u32 = 1u32 << 1;

    pub const K1: u32 = 1u32 << 2;

    pub const K2: u32 = 1u32 << 3;

    pub const SMOKE: u32 = 1u32 << 4;

    /// The raw bit-set.
    pub fn value(&self) -> (r: u32)
        ensures
            r == self.0,
    {
        self.0
    }
}

impl From<u32> for Key {
    fn from(value: u32) -> (r: Key) {
        Key(value)
    }
}

impl vstd::std_specs::convert::FromSpecImpl<u32> for Key {
    open spec fn obeys_from_spec() -> bool {
        true
    }

    open spec fn from_spec(value: u32) -> Key {
        Key(value)
    }
}

/// Drum hits in a Taiko frame.
#[derive(Debug, Clone, Copy, PartialEq, Eq, Structural)]
pub struct KeyTaiko(pub u32);

impl KeyTaiko {
    pub const LEFT_DON: u32 = 1u32 << 0;

    pub const LEFT_KAT: u32 = 1u32 << 1;

    pub const RIGHT_DON: u32 = 1u32 << 2;

    pub const RIGHT_KAT: u32 = 1u32 << 3;

    /// The raw bit-set.
    pub fn value(&self) -> (r: u32)
        ensures
            r == self.0,
    {
        self.0
    }
}

impl From<u32> for KeyTaiko {
    fn from(value: u32) -> (r: KeyTaiko) {
        KeyTaiko(value)
    }
}

impl vstd::std_specs::convert::FromSpecImpl<u32> for KeyTaiko {
    open spec fn obeys_from_spec() -> bool {
        true
    }

    open spec fn from_spec(value: u32) -> KeyTaiko {
        KeyTaiko(value)
    }
}

/// Lane keys in a Mania frame, up to eighteen lanes.
#[derive(Debug, Clone, Copy, PartialEq, Eq, Structural)]
pub struct KeyMania(pub u32);

impl KeyMania {
    pub const K1: u32 = 1u32 << 0;

    pub const K2: u32 = 1u32 << 1;

    pub const K3: u32 = 1u32 << 2;

    pub const K4: u32 = 1u32 << 3;

    pub const K5: u32 = 1u32 << 4;

    pub const K6: u32 = 1u32 << 5;

    pub const K7: u32 = 1u32 << 6;

    pub const K8: u32 = 1u32 << 7;

    pub const K9: u32 = 1u32 << 8;

    pub const K10: u32 = 1u32 << 9;

    pub const K11: u32 = 1u32 << 10;

    pub const K12: u32 = 1u32 << 11;

    pub const K13: u32 = 1u32 << 12;

    pub const K14: u32 = 1u32 << 13;

    pub const K15: u32 = 1u32 << 14;

    pub const K16: u32 = 1u32 << 15;

    pub const K17: u32 = 1u32 << 16;

    pub const K18: u32 = 1u32 << 17;

    /// The raw bit-set.
    pub fn value(&self) -> (r: u32)
        ensures
            r == self.0,
    {
        self.0
    }
}

impl From<u32> for KeyMania {
    fn from(value: u32) -> (r: KeyMania) {
        KeyMania(value)
    }
}

impl vstd::std_specs::convert::FromSpecImpl<u32> for KeyMania {
    open spec fn obeys_from_spec() -> bool {
        true
    }

    open spec fn from_spec(value: u32) -> KeyMania {
        KeyMania(value)
    }
}

/// A coordinate or life value, kept as its decimal source text. The numeric
/// meaning is the exact decimal value of that text; the text always matches
/// the float grammar.
#[derive(Debug)]
pub struct FloatText {
    text: Vec<u8>,
}

impl Clone for FloatText {
    fn clone(&self) -> (r: FloatText)
        ensures
            r@ == self@,
    {
        proof {
            use_type_invariant(self);
        }
        let n = self.text.len();
        let mut v: Vec<u8> = Vec::new();
        let mut i: usize = 0;
        while i < n
            invariant
                n == self.text@.len(),
                0 <= i <= n,
                v@ =~= self.text@.take(i as int),
            decreases n - i,
        {
            v.push(self.text[i]);
            i = i + 1;
        }
        proof {
            assert(v@ =~= self.text@);
        }
        FloatText { text: v }
    }
}

impl View for FloatText {
    type V = Seq<u8>;

    closed spec fn view(&self) -> Seq<u8> {
        self.text@
    }
}

impl FloatText {
    /// Every value of this type holds a text that matches the float grammar.
    #[verifier::type_invariant]
    pub closed spec fn wf(self) -> bool {
        is_float_text(self.text@)
    }

    /// What well-formedness says of the view.
    pub proof fn lemma_wf(&self)
        requires
            self.wf(),
        ensures
            is_float_text(self@),
    {
    }

    /// Wraps a decimal text; `None` when it does not match the float grammar.
    pub fn from_bytes(text: Vec<u8>) -> (r: Option<FloatText>)
        ensures
            r matches Some(f) ==> f@ == text@ && is_float_text(text@),
            r is None <==> !is_float_text(text@),
    {
        if is_float_text_bytes(text.as_slice()) {
            Some(FloatText { text })
        } else {
            None
        }
    }

    /// Wraps a decimal text given as a string slice.
    pub fn new(text: &str) -> (r: Option<FloatText>)
        ensures
            r matches Some(f) ==> f@ == text.spec_bytes() && is_float_text(text.spec_bytes()),
            r is None <==> !is_float_text(text.spec_bytes()),
    {
        let v = text.as_bytes_vec();
        FloatText::from_bytes(v)
    }

    /// The decimal text itself.
    pub fn bytes(&self) -> (r: &Vec<u8>)
        ensures
            r@ == self@,
    {
        &self.text
    }
}

impl PartialEq for FloatText {
    #[verifier::loop_isolation(false)]
    fn eq(&self, other: &FloatText) -> (r: bool) {
        let a = self.text.as_slice();
        let b = other.text.as_slice();
        if a.len() != b.len() {
            proof {
                assert(self.text@ != other.text@);
            }
            return false;
        }
        let n = a.len();
        let mut i: usize = 0;
        while i < n
            invariant
                n == a@.len() == b@.len(),
                0 <= i <= n,
                forall|j: int| 0 <= j < i ==> a@[j] == b@[j],
            decreases n - i,
        {
            if a[i] != b[i] {
                proof {
                    assert(self.text@[i as int] != other.text@[i as int]);
                }
                return false;
            }
            i = i + 1;
        }
        proof {
            assert(a@ =~= b@);
        }
        true
    }
}

impl vstd::std_specs::cmp::PartialEqSpecImpl for FloatText {
    open spec fn obeys_eq_spec() -> bool {
        true
    }

    open spec fn eq_spec(&self, other: &FloatText) -> bool {
        self@ == other@
    }
}

use vstd::string::StrSliceExecFns;
use vstd::string::StringSliceAdditionalSpecFns;

/// One frame of a Std replay.
#[derive(Debug, Clone)]
pub struct ReplayEventOsu {
    /// Milliseconds since the previous frame.
    pub time_delta: i32,
    /// Cursor x, as decimal text.
    pub x: FloatText,
    /// Cursor y, as decimal text.
    pub y: FloatText,
    /// The keys held during this frame.
    pub keys: Key,
}

/// One frame of a Taiko replay.
#[derive(Debug, Clone)]
pub struct ReplayEventTaiko {
    /// Milliseconds since the previous frame.
    pub time_delta: i32,
    /// The x field the client writes.
    pub x: i32,
    /// The drum hits of this frame.
    pub keys: KeyTaiko,
}

/// One frame of a Catch replay.
#[derive(Debug, Clone)]
pub struct ReplayEventCatch {
    /// Milliseconds since the previous frame.
    pub time_delta: i32,
    /// Catcher x, as decimal text.
    pub x: FloatText,
    /// Whether the catcher is dashing.
    pub dashing: bool,
}

/// One frame of a Mania replay.
#[derive(Debug, Clone)]
pub struct ReplayEventMania {
    /// Milliseconds since the previous frame.
    pub time_delta: i32,
    /// The lane keys held during this frame.
    pub keys: KeyMania,
}

/// One frame of a replay, tagged by game mode. A well-formed replay holds
/// only the variant of its own mode.
#[derive(Debug, Clone)]
pub enum ReplayEvent {
    Osu(ReplayEventOsu),
    Taiko(ReplayEventTaiko),
    Catch(ReplayEventCatch),
    Mania(ReplayEventMania),
}

impl ReplayEvent {
    /// Milliseconds since the previous frame, whatever the mode.
    pub fn time_delta(&self) -> (r: i32)
        ensures
            r == self.spec_time_delta(),
    {
        match self {
            ReplayEvent::Osu(event) => event.time_delta,
            ReplayEvent::Taiko(event) => event.time_delta,
            ReplayEvent::Catch(event) => event.time_delta,
            ReplayEvent::Mania(event) => event.time_delta,
        }
    }

    pub open spec fn spec_time_delta(&self) -> i32 {
        match self {
            ReplayEvent::Osu(event) => event.time_delta,
            ReplayEvent::Taiko(event) => event.time_delta,
            ReplayEvent::Catch(event) => event.time_delta,
            ReplayEvent::Mania(event) => event.time_delta,
        }
    }
}

impl PartialEq for ReplayEventOsu {
    fn eq(&self, other: &ReplayEventOsu) -> (r: bool) {
        self.time_delta == other.time_delta && self.x == other.x && self.y == other.y && self.keys
            == other.keys
    }
}

impl vstd::std_specs::cmp::PartialEqSpecImpl for ReplayEventOsu {
    open spec fn obeys_eq_spec() -> bool {
        true
    }

    open spec fn eq_spec(&self, other: &ReplayEventOsu) -> bool {
        self.time_delta == other.time_delta && self.x@ == other.x@ && self.y@ == other.y@
            && self.keys == other.keys
    }
}

impl PartialEq for ReplayEventTaiko {
    fn eq(&self, other: &ReplayEventTaiko) -> (r: bool) {
        self.time_delta == other.time_delta && self.x == other.x && self.keys == other.keys
    }
}

impl vstd::std_specs::cmp::PartialEqSpecImpl for ReplayEventTaiko {
    open spec fn obeys_eq_spec() -> bool {
        true
    }

    open spec fn eq_spec(&self, other: &ReplayEventTaiko) -> bool {
        self.time_delta == other.time_delta && self.x == other.x && self.keys == other.keys
    }
}

impl PartialEq for ReplayEventCatch {
    fn eq(&self, other: &ReplayEventCatch) -> (r: bool) {
        self.time_delta == other.time_delta && self.x == other.x && self.dashing == other.dashing
    }
}

impl vstd::std_specs::cmp::PartialEqSpecImpl for ReplayEventCatch {
    open spec fn obeys_eq_spec() -> bool {
        true
    }

    open spec fn eq_spec(&self, other: &ReplayEventCatch) -> bool {
        self.time_delta == other.time_delta && self.x@ == other.x@ && self.dashing
            == other.dashing
    }
}

impl PartialEq for ReplayEventMania {
    fn eq(&self, other: &ReplayEventMania) -> (r: bool) {
        self.time_delta == other.time_delta && self.keys == other.keys
    }
}

impl vstd::std_specs::cmp::PartialEqSpecImpl for ReplayEventMania {
    open spec fn obeys_eq_spec() -> bool {
        true
    }

    open spec fn eq_spec(&self, other: &ReplayEventMania) -> bool {
        self.time_delta == other.time_delta && self.keys == other.keys
    }
}

impl PartialEq for ReplayEvent {
    fn eq(&self, other: &ReplayEvent) -> (r: bool) {
        match (self, other) {
            (ReplayEvent::Osu(a), ReplayEvent::Osu(b)) => a == b,
            (ReplayEvent::Taiko(a), ReplayEvent::Taiko(b)) => a == b,
            (ReplayEvent::Catch(a), ReplayEvent::Catch(b)) => a == b,
            (ReplayEvent::Mania(a), ReplayEvent::Mania(b)) => a == b,
            _ => false,
        }
    }
}

impl vstd::std_specs::cmp::PartialEqSpecImpl for ReplayEvent {
    open spec fn obeys_eq_spec() -> bool {
        true
    }

    open spec fn eq_spec(&self, other: &ReplayEvent) -> bool {
        match (self, other) {
            (ReplayEvent::Osu(a), ReplayEvent::Osu(b)) => a.time_delta == b.time_delta && a.x@
                == b.x@ && a.y@ == b.y@ && a.keys == b.keys,
            (ReplayEvent::Taiko(a), ReplayEvent::Taiko(b)) => a.time_delta == b.time_delta && a.x
                == b.x && a.keys == b.keys,
            (ReplayEvent::Catch(a), ReplayEvent::Catch(b)) => a.time_delta == b.time_delta && a.x@
                == b.x@ && a.dashing == b.dashing,
            (ReplayEvent::Mania(a), ReplayEvent::Mania(b)) => a.time_delta == b.time_delta
                && a.keys == b.keys,
            _ => false,
        }
    }
}

/// The life bar at one moment: a time in milliseconds and a life value,
/// normally between 0 and 1, as decimal text.
#[derive(Debug, Clone)]
pub struct LifeBarState {
    /// The moment, in milliseconds into the play.
    pub time: i32,
    /// The life value, as decimal text.
    pub life: FloatText,
}

impl PartialEq for LifeBarState {
    fn eq(&self, other: &LifeBarState) -> (r: bool) {
        self.time == other.time && self.life == other.life
    }
}

impl vstd::std_specs::cmp::PartialEqSpecImpl for LifeBarState {
    open spec fn obeys_eq_spec() -> bool {
        true
    }

    open spec fn eq_spec(&self, other: &LifeBarState) -> bool {
        self.time == other.time && self.life@ == other.life@
    }
}

} // verus!
