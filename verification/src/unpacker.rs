//! Decoding of the binary record layer: fixed-width little-endian fields, the
//! length-prefixed varint string blocks, and the field-by-field record walk.

use vstd::prelude::*;
use crate::compress::{lzma_extract, lzma_decompress_bytes};
use crate::error::ReplayError;
use crate::events::{spec_parse_events, events_view, parse_event_bytes};
use crate::lifebar::{spec_parse_lifebar, lifebar_view, parse_life_bytes};
use crate::replay::{Replay, ReplayV, UnpackSpec, spec_unpack, unpack_matches, spec_read_life_value, or_empty};
use crate::timestamp::{UtcTime, ticks_wf, EPOCH_TICKS, TICKS_PER_SECOND};
use crate::types::{GameMode, ReplayEvent, LifeBarState, Mod, spec_mode_of_byte};

verus! {

use vstd::utf8::{valid_utf8, decode_utf8, encode_utf8};
use vstd::string::StringSliceAdditionalSpecFns;
use vstd::string::StringExecFns;

/// `2^k`.
pub open spec fn pow2(k: nat) -> int
    decreases k,
{
    if k == 0 {
        1
    } else {
        2 * pow2((k - 1) as nat)
    }
}

/// The unsigned value of the two little-endian bytes at `pos`.
pub open spec fn spec_le16(data: Seq<u8>, pos: int) -> u16 {
    (data[pos] + data[pos + 1] * 0x100) as u16
}

/// The unsigned value of the four little-endian bytes at `pos`.
pub open spec fn spec_le32(data: Seq<u8>, pos: int) -> u32 {
    (data[pos] + data[pos + 1] * 0x100 + data[pos + 2] * 0x1_0000 + data[pos + 3]
        * 0x100_0000) as u32
}

/// The unsigned value of the eight little-endian bytes at `pos`.
pub open spec fn spec_le64(data: Seq<u8>, pos: int) -> u64 {
    (data[pos] + data[pos + 1] * 0x100 + data[pos + 2] * 0x1_0000 + data[pos + 3] * 0x100_0000
        + data[pos + 4] * 0x1_0000_0000 + data[pos + 5] * 0x100_0000_0000 + data[pos + 6]
        * 0x1_0000_0000_0000 + data[pos + 7] * 0x100_0000_0000_0000) as u64
}

/// The signed reading of an unsigned 64-bit value (two's complement).
pub open spec fn spec_i64_of(u: u64) -> i64 {
    if u < 0x8000_0000_0000_0000 {
        u as i64
    } else {
        (u - 0x1_0000_0000_0000_0000) as i64
    }
}

/// What reading a varint can come to.
pub enum UlebSpec {
    /// The value and the position after it.
    Done(int, int),
    /// The data ended inside the varint.
    Eof,
    /// The accumulated shift reached 64 bits with more bytes to follow.
    TooLong,
}

/// Reading an unsigned varint at `pos`, 7 data bits per byte, the high bit as
/// continuation flag; `shift` and `acc` carry the bits read so far.
pub open spec fn spec_read_uleb(data: Seq<u8>, pos: int, shift: nat, acc: int) -> UlebSpec
    decreases 64 - shift,
    when shift <= 63
{
    if !(0 <= pos < data.len()) {
        UlebSpec::Eof
    } else {
        let b = data[pos];
        let acc2 = acc + (b % 128) * pow2(shift);
        if b < 128 {
            UlebSpec::Done(acc2, pos + 1)
        } else if shift + 7 >= 64 {
            UlebSpec::TooLong
        } else {
            spec_read_uleb(data, pos + 1, (shift + 7) as nat, acc2)
        }
    }
}

/// What reading a string block can come to.
pub enum StringSpec {
    /// The decoded text (`None` for the absent marker) and the position after.
    Val(Option<Seq<char>>, int),
    /// The data ended inside the block.
    Eof,
    /// A marker byte other than 0x00 and 0x0b.
    BadMarker(u8),
    /// The length varint did not terminate in 64 bits.
    TooLong,
    /// The contents are not valid UTF-8.
    BadUtf8,
}

/// Reading a string block at `pos`: one marker byte, then for marker 0x0b a
/// varint byte length and that many UTF-8 bytes.
pub open spec fn spec_read_string(data: Seq<u8>, pos: int) -> StringSpec {
    if !(0 <= pos < data.len()) {
        StringSpec::Eof
    } else if data[pos] == 0x00 {
        StringSpec::Val(None, pos + 1)
    } else if data[pos] == 0x0b {
        match spec_read_uleb(data, pos + 1, 0, 0) {
            UlebSpec::Eof => StringSpec::Eof,
            UlebSpec::TooLong => StringSpec::TooLong,
            UlebSpec::Done(len, p2) => {
                if p2 + len > data.len() {
                    StringSpec::Eof
                } else {
                    let bytes = data.subrange(p2, p2 + len);
                    if valid_utf8(bytes) {
                        StringSpec::Val(Some(decode_utf8(bytes)), p2 + len)
                    } else {
                        StringSpec::BadUtf8
                    }
                }
            },
        }
    } else {
        StringSpec::BadMarker(data[pos])
    }
}

/// Relies on `String::from_utf8`: it succeeds exactly on valid UTF-8 and
/// returns the text those bytes encode.
#[verifier::external_body]
pub(crate) fn string_from_utf8(bytes: Vec<u8>) -> (r: Option<String>)
    ensures
        r is Some <==> valid_utf8(bytes@),
        r matches Some(s) ==> s@ == decode_utf8(bytes@),
{
    String::from_utf8(bytes).ok()
}

/// A byte-by-byte reader over a replay record.
pub struct Unpacker {
    data: Vec<u8>,
    pos: usize,
}

impl Unpacker {
    /// The bytes being read.
    pub closed spec fn bytes(&self) -> Seq<u8> {
        self.data@
    }

    /// How many bytes have been consumed.
    pub closed spec fn position(&self) -> int {
        self.pos as int
    }

    #[verifier::type_invariant]
    spec fn type_wf(self) -> bool {
        self.pos <= self.data@.len()
    }

    /// A reader over the whole of `data`.
    pub fn new(data: Vec<u8>) -> (r: Unpacker)
        ensures
            r.bytes() == data@,
            r.position() == 0,
    {
        Unpacker { data, pos: 0 }
    }

    /// Reads one byte.
    pub fn unpack_byte(&mut self) -> (r: Result<u8, ReplayError>)
        ensures
            final(self).bytes() == old(self).bytes(),
            old(self).position() + 1 <= old(self).bytes().len() ==> {
                &&& r matches Ok(v) && v == old(self).bytes()[old(self).position()]
                &&& final(self).position() == old(self).position() + 1
            },
            old(self).position() + 1 > old(self).bytes().len() ==> {
                &&& r matches Err(e) && e is UnexpectedEof
                &&& final(self).position() == old(self).position()
            },
    {
        proof {
            use_type_invariant(&*self);
        }
        if self.data.len() - self.pos >= 1 {
            let v = self.data[self.pos];
            self.pos = self.pos + 1;
            Ok(v)
        } else {
            Err(ReplayError::UnexpectedEof)
        }
    }

    /// Reads an unsigned 16-bit little-endian field.
    pub fn unpack_short(&mut self) -> (r: Result<u16, ReplayError>)
        ensures
            final(self).bytes() == old(self).bytes(),
            old(self).position() + 2 <= old(self).bytes().len() ==> {
                &&& r matches Ok(v) && v == spec_le16(old(self).bytes(), old(self).position())
                &&& final(self).position() == old(self).position() + 2
            },
            old(self).position() + 2 > old(self).bytes().len() ==> {
                &&& r matches Err(e) && e is UnexpectedEof
                &&& final(self).position() == old(self).position()
            },
    {
        proof {
            use_type_invariant(&*self);
        }
        if self.data.len() - self.pos >= 2 {
            let b0 = self.data[self.pos] as u16;
            let b1 = self.data[self.pos + 1] as u16;
            self.pos = self.pos + 2;
            Ok(b0 + b1 * 0x100)
        } else {
            Err(ReplayError::UnexpectedEof)
        }
    }

    /// Reads an unsigned 32-bit little-endian field.
    pub fn unpack_int(&mut self) -> (r: Result<u32, ReplayError>)
        ensures
            final(self).bytes() == old(self).bytes(),
            old(self).position() + 4 <= old(self).bytes().len() ==> {
                &&& r matches Ok(v) && v == spec_le32(old(self).bytes(), old(self).position())
                &&& final(self).position() == old(self).position() + 4
            },
            old(self).position() + 4 > old(self).bytes().len() ==> {
                &&& r matches Err(e) && e is UnexpectedEof
                &&& final(self).position() == old(self).position()
            },
    {
        proof {
            use_type_invariant(&*self);
        }
        if self.data.len() - self.pos >= 4 {
            let b0 = self.data[self.pos] as u32;
            let b1 = self.data[self.pos + 1] as u32;
            let b2 = self.data[self.pos + 2] as u32;
            let b3 = self.data[self.pos + 3] as u32;
            self.pos = self.pos + 4;
            Ok(b0 + b1 * 0x100 + b2 * 0x1_0000 + b3 * 0x100_0000)
        } else {
            Err(ReplayError::UnexpectedEof)
        }
    }

    /// Reads a signed 64-bit little-endian field.
    pub fn unpack_long(&mut self) -> (r: Result<i64, ReplayError>)
        ensures
            final(self).bytes() == old(self).bytes(),
            old(self).position() + 8 <= old(self).bytes().len() ==> {
                &&& r matches Ok(v) && v == spec_i64_of(
                    spec_le64(old(self).bytes(), old(self).position()),
                )
                &&& final(self).position() == old(self).position() + 8
            },
            old(self).position() + 8 > old(self).bytes().len() ==> {
                &&& r matches Err(e) && e is UnexpectedEof
                &&& final(self).position() == old(self).position()
            },
    {
        proof {
            use_type_invariant(&*self);
        }
        if self.data.len() - self.pos >= 8 {
            let b0 = self.data[self.pos] as u64;
            let b1 = self.data[self.pos + 1] as u64;
            let b2 = self.data[self.pos + 2] as u64;
            let b3 = self.data[self.pos + 3] as u64;
            let b4 = self.data[self.pos + 4] as u64;
            let b5 = self.data[self.pos + 5] as u64;
            let b6 = self.data[self.pos + 6] as u64;
            let b7 = self.data[self.pos + 7] as u64;
            self.pos = self.pos + 8;
            let u: u64 = b0 + b1 * 0x100 + b2 * 0x1_0000 + b3 * 0x100_0000 + b4 * 0x1_0000_0000
                + b5 * 0x100_0000_0000 + b6 * 0x1_0000_0000_0000 + b7 * 0x100_0000_0000_0000;
            let v: i64 = if u < 0x8000_0000_0000_0000 {
                u as i64
            } else {
                -((0xffff_ffff_ffff_ffff - u) as i64) - 1
            };
            Ok(v)
        } else {
            Err(ReplayError::UnexpectedEof)
        }
    }
}

impl Unpacker {
    /// Reads the varint bytes that remain once `acc` holds the bits below
    /// `shift`.
    fn uleb_rec(&mut self, shift: u64, mult: u128, acc: u128) -> (r: Result<u128, ReplayError>)
        requires
            shift <= 63,
            shift % 7 == 0,
            mult == pow2(shift as nat),
            acc < pow2(shift as nat),
        ensures
            final(self).bytes() == old(self).bytes(),
            match spec_read_uleb(old(self).bytes(), old(self).position(), shift as nat, acc as int) {
                UlebSpec::Done(v, p2) => r matches Ok(rv) && rv == v && final(self).position()
                    == p2 && v < 0x1_0000_0000_0000_0000_0000,
                UlebSpec::Eof => r matches Err(e) && e is UnexpectedEof,
                UlebSpec::TooLong => r matches Err(e) && e is InvalidFormat,
            },
        decreases 64 - shift,
    {
        proof {
            use_type_invariant(&*self);
            assert(pow2(7nat) == 128) by {
                reveal_with_fuel(pow2, 8);
            }
            assert(pow2(70nat) == 0x40_0000_0000_0000_0000) by {
                reveal_with_fuel(pow2, 71);
            }
            lemma_pow2_mono((shift + 7) as nat, 70nat);
            lemma_pow2_add(shift as nat, 7nat);
        }
        let b = match self.unpack_byte() {
            Ok(b) => b,
            Err(e) => {
                return Err(e);
            },
        };
        let low: u128 = (b % 128) as u128;
        proof {
            assert(low * mult <= 127 * mult) by (nonlinear_arith)
                requires
                    low <= 127,
                    mult >= 0,
            ;
            assert(128 * pow2(shift as nat) == pow2((shift + 7) as nat));
            assert(acc + low * mult < 128 * pow2(shift as nat));
        }
        let acc2: u128 = acc + low * mult;
        if b < 128 {
            Ok(acc2)
        } else if shift + 7 >= 64 {
            Err(ReplayError::InvalidFormat(String::from_str("ULEB128 too long")))
        } else {
            self.uleb_rec(shift + 7, mult * 128, acc2)
        }
    }

    /// Reads a length-prefixed string block: `0x00` is the absent string,
    /// `0x0b` is a varint byte length followed by that many UTF-8 bytes, and
    /// any other marker byte is refused.
    pub fn unpack_string(&mut self) -> (r: Result<Option<String>, ReplayError>)
        ensures
            final(self).bytes() == old(self).bytes(),
            match spec_read_string(old(self).bytes(), old(self).position()) {
                StringSpec::Val(os, p2) => {
                    &&& final(self).position() == p2
                    &&& r matches Ok(v)
                    &&& (v is None <==> os is None)
                    &&& (v matches Some(s) ==> os matches Some(cs) && s@ == cs)
                },
                StringSpec::Eof => r matches Err(e) && e is UnexpectedEof,
                StringSpec::BadMarker(b) => r matches Err(e) && e matches
                    ReplayError::InvalidStringByte(bb) && bb == b,
                StringSpec::TooLong => r matches Err(e) && e is InvalidFormat,
                StringSpec::BadUtf8 => r matches Err(e) && e is Utf8,
            },
    {
        proof {
            use_type_invariant(&*self);
        }
        let marker = match self.unpack_byte() {
            Ok(b) => b,
            Err(e) => {
                return Err(e);
            },
        };
        if marker == 0x00 {
            return Ok(None);
        }
        if marker != 0x0b {
            return Err(ReplayError::InvalidStringByte(marker));
        }
        proof {
            assert(pow2(0nat) == 1) by {
                reveal_with_fuel(pow2, 1);
            }
        }
        let len = match self.uleb_rec(0, 1, 0) {
            Ok(v) => v,
            Err(e) => {
                return Err(e);
            },
        };
        proof {
            use_type_invariant(&*self);
        }
        let remaining: u128 = (self.data.len() - self.pos) as u128;
        if len > remaining {
            return Err(ReplayError::UnexpectedEof);
        }
        let count: usize = len as usize;
        let start: usize = self.pos;
        let ghost gdata = self.data@;
        let mut bytes: Vec<u8> = Vec::new();
        let mut i: usize = 0;
        while i < count
            invariant
                self.data@ == gdata,
                self.pos == start,
                start + count <= gdata.len(),
                start + count <= usize::MAX,
                0 <= i <= count,
                bytes@ =~= gdata.subrange(start as int, start + i),
            decreases count - i,
        {
            bytes.push(self.data[start + i]);
            i = i + 1;
        }
        self.pos = start + count;
        match string_from_utf8(bytes) {
            Some(s) => Ok(Some(s)),
            None => Err(ReplayError::Utf8(String::from_str("invalid UTF-8 in string"))),
        }
    }

    /// Reads the trailing identifier: a signed 64-bit field where eight bytes
    /// remain, an unsigned 32-bit field promoted to 64 bits where only four
    /// do. The wide read is attempted first and the narrow form accepted only
    /// on its failure.
    pub fn unpack_replay_id(&mut self) -> (r: Result<i64, ReplayError>)
        ensures
            final(self).bytes() == old(self).bytes(),
            old(self).position() + 8 <= old(self).bytes().len() ==> {
                &&& r matches Ok(v) && v == spec_i64_of(
                    spec_le64(old(self).bytes(), old(self).position()),
                )
                &&& final(self).position() == old(self).position() + 8
            },
            old(self).position() + 8 > old(self).bytes().len() && old(self).position() + 4 <= old(
                self,
            ).bytes().len() ==> {
                &&& r matches Ok(v) && v == spec_le32(old(self).bytes(), old(self).position())
                &&& final(self).position() == old(self).position() + 4
            },
            old(self).position() + 4 > old(self).bytes().len() ==> (r matches Err(e)
                && e is UnexpectedEof),
    {
        match self.unpack_long() {
            Ok(id) => Ok(id),
            Err(_) => {
                match self.unpack_int() {
                    Ok(v) => Ok(v as i64),
                    Err(e) => Err(e),
                }
            },
        }
    }
}

proof fn lemma_pow2_pos(k: nat)
    ensures
        pow2(k) >= 1,
    decreases k,
{
    if k > 0 {
        lemma_pow2_pos((k - 1) as nat);
    }
}

proof fn lemma_pow2_mono(a: nat, b: nat)
    requires
        a <= b,
    ensures
        1 <= pow2(a) <= pow2(b),
    decreases b,
{
    lemma_pow2_pos(a);
    if a < b {
        lemma_pow2_mono(a, (b - 1) as nat);
    }
}

proof fn lemma_pow2_add(a: nat, b: nat)
    ensures
        pow2(a + b) == pow2(a) * pow2(b),
    decreases b,
{
    if b == 0 {
    } else {
        lemma_pow2_add(a, (b - 1) as nat);
        assert(pow2((a + b - 1) as nat) * 2 == pow2(a) * (pow2((b - 1) as nat) * 2))
            by (nonlinear_arith)
            requires
                pow2((a + b - 1) as nat) == pow2(a) * pow2((b - 1) as nat),
        ;
    }
}

/// What reading the compressed event block can come to.
pub enum PlaySpec {
    /// The events, the optional seed, and the position after the block.
    Val(Seq<crate::events::EventV>, Option<i32>, int),
    /// The data ended inside the block.
    Eof,
    /// The block did not decompress.
    Lzma,
    /// The decompressed bytes are not UTF-8.
    BadUtf8,
    /// A numeric event field did not parse.
    Parse,
}

/// Reading the event block at `pos`: a 32-bit byte length, that many
/// compressed bytes, decompression, UTF-8, then the event-stream text.
pub open spec fn spec_read_play(data: Seq<u8>, pos: int, mode: GameMode) -> PlaySpec {
    if pos + 4 > data.len() {
        PlaySpec::Eof
    } else {
        let blen = spec_le32(data, pos);
        if pos + 4 + blen > data.len() {
            PlaySpec::Eof
        } else {
            match lzma_extract(data.subrange(pos + 4, pos + 4 + blen)) {
                None => PlaySpec::Lzma,
                Some(raw) => {
                    if !valid_utf8(raw) {
                        PlaySpec::BadUtf8
                    } else {
                        match spec_parse_events(raw, mode) {
                            None => PlaySpec::Parse,
                            Some(p) => PlaySpec::Val(p.0, p.1, pos + 4 + blen),
                        }
                    }
                },
            }
        }
    }
}

impl Unpacker {
    /// Reads the timestamp: a signed 64-bit tick count. A count the host time
    /// type cannot carry decodes as the current time instead of failing.
    pub fn unpack_timestamp(&mut self) -> (r: Result<UtcTime, ReplayError>)
        ensures
            final(self).bytes() == old(self).bytes(),
            old(self).position() + 8 <= old(self).bytes().len() ==> {
                &&& final(self).position() == old(self).position() + 8
                &&& r matches Ok(t) && (ticks_wf(
                    spec_i64_of(spec_le64(old(self).bytes(), old(self).position())),
                ) ==> t@ == spec_i64_of(spec_le64(old(self).bytes(), old(self).position())))
            },
            old(self).position() + 8 > old(self).bytes().len() ==> {
                &&& r matches Err(e) && e is UnexpectedEof
                &&& final(self).position() == old(self).position()
            },
    {
        let ticks = match self.unpack_long() {
            Ok(v) => v,
            Err(e) => {
                return Err(e);
            },
        };
        let secs: i64;
        let nanos: u32;
        if ticks >= EPOCH_TICKS {
            let d: i64 = ticks - EPOCH_TICKS;
            secs = d / TICKS_PER_SECOND;
            let rem: i64 = d % TICKS_PER_SECOND;
            nanos = (rem as u32) * 100;
            proof {
                vstd::arithmetic::div_mod::lemma_mod_bound(d as int, TICKS_PER_SECOND as int);
                vstd::arithmetic::div_mod::lemma_div_pos_is_pos(d as int, TICKS_PER_SECOND as int);
            }
        } else {
            let diff: i128 = (EPOCH_TICKS as i128) - (ticks as i128);
            let q: i128 = diff / (TICKS_PER_SECOND as i128);
            let rem: i128 = diff % (TICKS_PER_SECOND as i128);
            proof {
                vstd::arithmetic::div_mod::lemma_mod_bound(diff as int, TICKS_PER_SECOND as int);
                vstd::arithmetic::div_mod::lemma_div_pos_is_pos(diff as int, TICKS_PER_SECOND as int);
                vstd::arithmetic::div_mod::lemma_fundamental_div_mod(
                    diff as int,
                    TICKS_PER_SECOND as int,
                );
                assert(q <= 0x7fff_ffff_ffff_ffff) by (nonlinear_arith)
                    requires
                        q * (TICKS_PER_SECOND as int) + rem == diff,
                        0 <= rem < TICKS_PER_SECOND as int,
                        q >= 0,
                        diff <= 0x8000_0000_0000_0000i128 + 621_355_968_000_000_000,
                ;
            }
            secs = -(q as i64);
            if rem == 0 {
                nanos = 0;
            } else {
                let wrapped: i128 = 4_294_967_296i128 - rem * 100;
                proof {
                    assert(100 <= rem * 100 < 1_000_000_000) by (nonlinear_arith)
                        requires
                            1 <= rem < 10_000_000,
                    ;
                }
                nanos = wrapped as u32;
            }
        }
        let ok = crate::timestamp::civil_time_exists_pub(secs, nanos);
        if ok {
            proof {
                if !ticks_wf(ticks) {
                    assert(nanos >= 2_000_000_000);
                }
            }
            match UtcTime::from_ticks(ticks) {
                Some(t) => Ok(t),
                None => {
                    proof {
                        assert(false);
                    }
                    Ok(UtcTime::unix_epoch())
                },
            }
        } else {
            proof {
                if ticks_wf(ticks) {
                    if ticks >= EPOCH_TICKS {
                        assert(-1_000_000_000_000 <= secs <= 1_000_000_000_000 && nanos
                            < 1_000_000_000);
                    } else {
                        assert(nanos == 0);
                        assert(-1_000_000_000_000 <= secs <= 1_000_000_000_000);
                    }
                    assert(false);
                }
            }
            Ok(UtcTime::now())
        }
    }

    /// Reads the compressed event block and decodes the event stream in it.
    pub fn unpack_play_data(&mut self, mode: GameMode) -> (r: Result<
        (Vec<ReplayEvent>, Option<i32>),
        ReplayError,
    >)
        ensures
            final(self).bytes() == old(self).bytes(),
            match spec_read_play(old(self).bytes(), old(self).position(), mode) {
                PlaySpec::Val(evs, seed, p2) => {
                    &&& r matches Ok(v) && events_view(v.0@) == evs && v.1 == seed
                    &&& final(self).position() == p2
                },
                PlaySpec::Eof => r matches Err(e) && e is UnexpectedEof,
                PlaySpec::Lzma => r matches Err(e) && e is Lzma,
                PlaySpec::BadUtf8 => r matches Err(e) && e is Utf8,
                PlaySpec::Parse => r matches Err(e) && e is Parse,
            },
    {
        proof {
            use_type_invariant(&*self);
        }
        let blen = match self.unpack_int() {
            Ok(v) => v,
            Err(e) => {
                return Err(e);
            },
        };
        proof {
            use_type_invariant(&*self);
        }
        let remaining: usize = self.data.len() - self.pos;
        if (blen as usize) > remaining {
            return Err(ReplayError::UnexpectedEof);
        }
        let count: usize = blen as usize;
        let start: usize = self.pos;
        let ghost gdata = self.data@;
        let mut block: Vec<u8> = Vec::new();
        let mut i: usize = 0;
        while i < count
            invariant
                self.data@ == gdata,
                self.pos == start,
                start + count <= gdata.len(),
                start + count <= usize::MAX,
                0 <= i <= count,
                block@ =~= gdata.subrange(start as int, start + i),
            decreases count - i,
        {
            block.push(self.data[start + i]);
            i = i + 1;
        }
        self.pos = start + count;
        let raw = match lzma_decompress_bytes(&block) {
            Ok(v) => v,
            Err(e) => {
                return Err(e);
            },
        };
        let ghost rawv = raw@;
        let text = match string_from_utf8(raw) {
            Some(s) => s,
            None => {
                return Err(ReplayError::Utf8(String::from_str("invalid UTF-8 in replay data")));
            },
        };
        proof {
            vstd::utf8::decode_utf8_encode_utf8(rawv);
            assert(encode_utf8(text@) == rawv);
        }
        Self::parse_replay_data(text.as_str(), mode)
    }

    /// Decodes event-stream text, as the alternate payload entry and the
    /// record decoder both need it.
    pub fn parse_replay_data(replay_data_str: &str, mode: GameMode) -> (r: Result<
        (Vec<ReplayEvent>, Option<i32>),
        ReplayError,
    >)
        ensures
            match spec_parse_events(replay_data_str.spec_bytes(), mode) {
                Some(p) => r matches Ok(v) && events_view(v.0@) == p.0 && v.1 == p.1,
                None => r matches Err(e) && e is Parse,
            },
    {
        let bytes = replay_data_str.as_bytes();
        parse_event_bytes(bytes, mode)
    }

    /// Reads the life-bar string and decodes the curve in it: an absent or
    /// empty string is no curve at all.
    pub fn unpack_life_bar(&mut self) -> (r: Result<Option<Vec<LifeBarState>>, ReplayError>)
        ensures
            final(self).bytes() == old(self).bytes(),
            match spec_read_string(old(self).bytes(), old(self).position()) {
                StringSpec::Val(os, p2) => {
                    &&& final(self).position() == p2
                    &&& match spec_read_life_value(os) {
                        None => r matches Err(e) && e is Parse,
                        Some(life) => r matches Ok(v) && (match (v, life) {
                            (None, None) => true,
                            (Some(states), Some(ls)) => lifebar_view(states@) == ls,
                            _ => false,
                        }),
                    }
                },
                StringSpec::Eof => r matches Err(e) && e is UnexpectedEof,
                StringSpec::BadMarker(b) => r matches Err(e) && e matches
                    ReplayError::InvalidStringByte(bb) && bb == b,
                StringSpec::TooLong => r matches Err(e) && e is InvalidFormat,
                StringSpec::BadUtf8 => r matches Err(e) && e is Utf8,
            },
    {
        let s = match self.unpack_string() {
            Ok(v) => v,
            Err(e) => {
                return Err(e);
            },
        };
        match s {
            None => Ok(None),
            Some(text) => {
                if text.as_str().is_empty() {
                    proof {
                        assert(encode_utf8(text@) =~= Seq::<u8>::empty());
                    }
                    Ok(None)
                } else {
                    proof {
                        vstd::utf8::encode_utf8_decode_utf8(text@);
                    }
                    let states = match parse_life_bytes(text.as_str().as_bytes()) {
                        Ok(v) => v,
                        Err(e) => {
                            return Err(e);
                        },
                    };
                    Ok(Some(states))
                }
            },
        }
    }
}

impl Unpacker {
    /// Decodes a whole record, field by field in the fixed order. The stored
    /// tick count is kept exactly whenever the host time type carries it;
    /// otherwise the current time takes its place.
    #[verifier::rlimit(100)]
    pub fn unpack(self) -> (r: Result<Replay, ReplayError>)
        requires
            self.position() == 0,
        ensures
            match spec_unpack(self.bytes()) {
                UnpackSpec::Val(raw) => r matches Ok(rep) && unpack_matches(raw, rep@),
                UnpackSpec::Eof => r matches Err(e) && e is UnexpectedEof,
                UnpackSpec::BadMarker(b) => r matches Err(e) && e matches
                    ReplayError::InvalidStringByte(bb) && bb == b,
                UnpackSpec::TooLong => r matches Err(e) && e is InvalidFormat,
                UnpackSpec::BadUtf8 => r matches Err(e) && e is Utf8,
                UnpackSpec::Lzma => r matches Err(e) && e is Lzma,
                UnpackSpec::Parse => r matches Err(e) && e is Parse,
            },
    {
        let ghost data = self.bytes();
        let mut u = self;
        let mode_byte = match u.unpack_byte() {
            Ok(v) => v,
            Err(e) => {
                return Err(e);
            },
        };
        let mode = GameMode::from(mode_byte);
        let game_version = match u.unpack_int() {
            Ok(v) => v,
            Err(e) => {
                return Err(e);
            },
        };
        let beatmap_hash = match u.unpack_string() {
            Ok(v) => v,
            Err(e) => {
                return Err(e);
            },
        };
        let username = match u.unpack_string() {
            Ok(v) => v,
            Err(e) => {
                return Err(e);
            },
        };
        let replay_hash = match u.unpack_string() {
            Ok(v) => v,
            Err(e) => {
                return Err(e);
            },
        };
        let count_300 = match u.unpack_short() {
            Ok(v) => v,
            Err(e) => {
                return Err(e);
            },
        };
        let count_100 = match u.unpack_short() {
            Ok(v) => v,
            Err(e) => {
                return Err(e);
            },
        };
        let count_50 = match u.unpack_short() {
            Ok(v) => v,
            Err(e) => {
                return Err(e);
            },
        };
        let count_geki = match u.unpack_short() {
            Ok(v) => v,
            Err(e) => {
                return Err(e);
            },
        };
        let count_katu = match u.unpack_short() {
            Ok(v) => v,
            Err(e) => {
                return Err(e);
            },
        };
        let count_miss = match u.unpack_short() {
            Ok(v) => v,
            Err(e) => {
                return Err(e);
            },
        };
        let score = match u.unpack_int() {
            Ok(v) => v,
            Err(e) => {
                return Err(e);
            },
        };
        let max_combo = match u.unpack_short() {
            Ok(v) => v,
            Err(e) => {
                return Err(e);
            },
        };
        let perfect_byte = match u.unpack_byte() {
            Ok(v) => v,
            Err(e) => {
                return Err(e);
            },
        };
        let mods = match u.unpack_int() {
            Ok(v) => v,
            Err(e) => {
                return Err(e);
            },
        };
        let life_bar_graph = match u.unpack_life_bar() {
            Ok(v) => v,
            Err(e) => {
                return Err(e);
            },
        };
        let timestamp = match u.unpack_timestamp() {
            Ok(v) => v,
            Err(e) => {
                return Err(e);
            },
        };
        let play = match u.unpack_play_data(mode) {
            Ok(v) => v,
            Err(e) => {
                return Err(e);
            },
        };
        let (replay_data, rng_seed) = play;
        let replay_id = match u.unpack_replay_id() {
            Ok(v) => v,
            Err(e) => {
                return Err(e);
            },
        };
        let rep = Replay {
            mode,
            game_version,
            beatmap_hash: match beatmap_hash {
                Some(s) => s,
                None => String::new(),
            },
            username: match username {
                Some(s) => s,
                None => String::new(),
            },
            replay_hash: match replay_hash {
                Some(s) => s,
                None => String::new(),
            },
            count_300,
            count_100,
            count_50,
            count_geki,
            count_katu,
            count_miss,
            score,
            max_combo,
            perfect: perfect_byte != 0,
            mods: Mod(mods),
            life_bar_graph,
            timestamp,
            replay_data,
            replay_id,
            rng_seed,
        };
        proof {
            let raw = spec_unpack(data)->Val_0;
            assert(rep@.events == raw.events);
            assert(rep@.life_bar == raw.life_bar);
            assert(rep@ == ReplayV { ticks: rep@.ticks, ..raw });
        }
        Ok(rep)
    }
}

/// `pow2` is monotone.
pub proof fn lemma_pow2_mono_pub(a: nat, b: nat)
    requires
        a <= b,
    ensures
        1 <= pow2(a) <= pow2(b),
{
    lemma_pow2_mono(a, b);
}

/// `pow2` turns addition into multiplication.
pub proof fn lemma_pow2_add_pub(a: nat, b: nat)
    ensures
        pow2(a + b) == pow2(a) * pow2(b),
{
    lemma_pow2_add(a, b);
}

/// The value of the 64-bit boundary.
pub proof fn lemma_pow2_64_pub()
    ensures
        pow2(64nat) == 0x1_0000_0000_0000_0000,
{
    lemma_pow2_add(32nat, 32nat);
    assert(pow2(32nat) == 0x1_0000_0000) by {
        lemma_pow2_add(16nat, 16nat);
        assert(pow2(16nat) == 0x1_0000) by {
            reveal_with_fuel(pow2, 17);
        }
    }
}

} // verus!
