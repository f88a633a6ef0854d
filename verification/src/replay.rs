//! The full replay record: the fixed field order, both directions, and the
//! round trip between them.

use vstd::prelude::*;
use crate::compress::{lzma_compressed, lzma_extract};
use crate::error::ReplayError;
use crate::events::{spec_parse_events, spec_events_text, events_view, EventV};
use crate::lifebar::{spec_parse_lifebar, spec_life_text, lifebar_view, LifeV};
use crate::packer::Packer;
use crate::timestamp::{UtcTime, ticks_wf};
use crate::types::{GameMode, Mod, LifeBarState, ReplayEvent, spec_mode_of_byte, spec_mode_byte};
use crate::unpacker::{Unpacker, spec_le16, spec_le32, spec_le64, spec_i64_of, spec_read_string, StringSpec};

verus! {

use vstd::utf8::{valid_utf8, decode_utf8, encode_utf8};

/// The ghost shape of a whole replay record.
pub struct ReplayV {
    pub mode: GameMode,
    pub game_version: u32,
    pub beatmap_hash: Seq<char>,
    pub username: Seq<char>,
    pub replay_hash: Seq<char>,
    pub count_300: u16,
    pub count_100: u16,
    pub count_50: u16,
    pub count_geki: u16,
    pub count_katu: u16,
    pub count_miss: u16,
    pub score: u32,
    pub max_combo: u16,
    pub perfect: bool,
    pub mods: u32,
    pub life_bar: Option<Seq<LifeV>>,
    pub ticks: i64,
    pub events: Seq<EventV>,
    pub replay_id: i64,
    pub seed: Option<i32>,
}

/// A replay read from or written to the `.osr` record format.
#[derive(Debug, Clone)]
pub struct Replay {
    /// The game mode this replay was played on.
    pub mode: GameMode,
    /// The game client version.
    pub game_version: u32,
    /// The hash of the beatmap the replay belongs to.
    pub beatmap_hash: String,
    /// The player.
    pub username: String,
    /// The hash of the replay itself.
    pub replay_hash: String,
    /// The number of 300 judgements.
    pub count_300: u16,
    /// The number of 100 judgements.
    pub count_100: u16,
    /// The number of 50 judgements.
    pub count_50: u16,
    /// The number of geki judgements.
    pub count_geki: u16,
    /// The number of katu judgements.
    pub count_katu: u16,
    /// The number of misses.
    pub count_miss: u16,
    /// The score.
    pub score: u32,
    /// The maximum combo.
    pub max_combo: u16,
    /// Whether the play was perfect.
    pub perfect: bool,
    /// The gameplay modifiers.
    pub mods: Mod,
    /// The life bar over time, if the record carries one.
    pub life_bar_graph: Option<Vec<LifeBarState>>,
    /// When the replay was played.
    pub timestamp: UtcTime,
    /// The input events, in order; their variants match `mode` when the
    /// replay is well-formed.
    pub replay_data: Vec<ReplayEvent>,
    /// The replay identifier, or 0 when unsubmitted.
    pub replay_id: i64,
    /// The RNG seed, carried by newer records.
    pub rng_seed: Option<i32>,
}

impl View for Replay {
    type V = ReplayV;

    open spec fn view(&self) -> ReplayV {
        ReplayV {
            mode: self.mode,
            game_version: self.game_version,
            beatmap_hash: self.beatmap_hash@,
            username: self.username@,
            replay_hash: self.replay_hash@,
            count_300: self.count_300,
            count_100: self.count_100,
            count_50: self.count_50,
            count_geki: self.count_geki,
            count_katu: self.count_katu,
            count_miss: self.count_miss,
            score: self.score,
            max_combo: self.max_combo,
            perfect: self.perfect,
            mods: self.mods.0,
            life_bar: match self.life_bar_graph {
                None => None,
                Some(states) => Some(lifebar_view(states@)),
            },
            ticks: self.timestamp@,
            events: events_view(self.replay_data@),
            replay_id: self.replay_id,
            seed: self.rng_seed,
        }
    }
}

/// The chars of an optional decoded string, absent read as empty.
pub open spec fn or_empty(s: Option<Seq<char>>) -> Seq<char> {
    match s {
        None => Seq::empty(),
        Some(cs) => cs,
    }
}

/// Decoding the life-bar string: an absent or empty string is no curve; any
/// other is parsed strictly. The outer `None` is a parse failure.
pub open spec fn spec_read_life_value(s: Option<Seq<char>>) -> Option<Option<Seq<LifeV>>> {
    match s {
        None => Some(None),
        Some(cs) => {
            if cs.len() == 0 {
                Some(None)
            } else {
                match spec_parse_lifebar(encode_utf8(cs)) {
                    None => None,
                    Some(ls) => Some(Some(ls)),
                }
            }
        },
    }
}

/// What decoding a whole record comes to: the decoded record, or the kind of
/// error the first malformed field raises.
pub enum UnpackSpec {
    /// The decoded record.
    Val(ReplayV),
    /// The data ended before a field was complete.
    Eof,
    /// A string field started with a marker byte other than 0x00 and 0x0b.
    BadMarker(u8),
    /// A length varint did not terminate in 64 bits.
    TooLong,
    /// Bytes that should hold text are not valid UTF-8.
    BadUtf8,
    /// The event block did not decompress.
    Lzma,
    /// A numeric field of the textual sub-formats did not parse.
    Parse,
}

/// The failure kind of a string block that did not read.
pub open spec fn string_fail(s: StringSpec) -> UnpackSpec {
    match s {
        StringSpec::Val(_, _) => UnpackSpec::Eof,
        StringSpec::Eof => UnpackSpec::Eof,
        StringSpec::BadMarker(b) => UnpackSpec::BadMarker(b),
        StringSpec::TooLong => UnpackSpec::TooLong,
        StringSpec::BadUtf8 => UnpackSpec::BadUtf8,
    }
}

/// Decoding a whole record from `data`: every field in the fixed order, with
/// the identifier read wide first and narrow as the fallback. The `ticks`
/// field holds the raw stored tick count; a count the host time type cannot
/// carry is replaced by the current time at decode time, outside this
/// function.
pub open spec fn spec_unpack(data: Seq<u8>) -> UnpackSpec {
    if data.len() < 5 {
        UnpackSpec::Eof
    } else {
        let mode = spec_mode_of_byte(data[0]);
        match spec_read_string(data, 5) {
            StringSpec::Val(bh, p1) => match spec_read_string(data, p1) {
                StringSpec::Val(un, p2) => match spec_read_string(data, p2) {
                    StringSpec::Val(rh, p3) => {
                        if p3 + 23 > data.len() {
                            UnpackSpec::Eof
                        } else {
                            match spec_read_string(data, p3 + 23) {
                                StringSpec::Val(lb, p4) => match spec_read_life_value(lb) {
                                    None => UnpackSpec::Parse,
                                    Some(life) => {
                                        if p4 + 12 > data.len() {
                                            UnpackSpec::Eof
                                        } else {
                                            let ticks = spec_i64_of(spec_le64(data, p4));
                                            let blen = spec_le32(data, p4 + 8);
                                            if p4 + 12 + blen > data.len() {
                                                UnpackSpec::Eof
                                            } else {
                                                let block = data.subrange(
                                                    p4 + 12,
                                                    p4 + 12 + blen,
                                                );
                                                match lzma_extract(block) {
                                                    None => UnpackSpec::Lzma,
                                                    Some(raw) => {
                                                        if !valid_utf8(raw) {
                                                            UnpackSpec::BadUtf8
                                                        } else {
                                                            match spec_parse_events(raw, mode) {
                                                                None => UnpackSpec::Parse,
                                                                Some(p) => {
                                                                    let p6 = p4 + 12 + blen;
                                                                    let id = if p6 + 8
                                                                        <= data.len() {
                                                                        Some(
                                                                            spec_i64_of(
                                                                                spec_le64(data, p6),
                                                                            ),
                                                                        )
                                                                    } else if p6 + 4
                                                                        <= data.len() {
                                                                        Some(
                                                                            spec_le32(
                                                                                data,
                                                                                p6,
                                                                            ) as i64,
                                                                        )
                                                                    } else {
                                                                        None
                                                                    };
                                                                    match id {
                                                                        None => UnpackSpec::Eof,
                                                                        Some(rid) => UnpackSpec::Val(
                                                                            ReplayV {
                                                                                mode,
                                                                                game_version:
                                                                                    spec_le32(
                                                                                    data,
                                                                                    1,
                                                                                ),
                                                                                beatmap_hash:
                                                                                    or_empty(bh),
                                                                                username: or_empty(
                                                                                    un,
                                                                                ),
                                                                                replay_hash:
                                                                                    or_empty(rh),
                                                                                count_300:
                                                                                    spec_le16(
                                                                                    data,
                                                                                    p3,
                                                                                ),
                                                                                count_100:
                                                                                    spec_le16(
                                                                                    data,
                                                                                    p3 + 2,
                                                                                ),
                                                                                count_50: spec_le16(
                                                                                    data,
                                                                                    p3 + 4,
                                                                                ),
                                                                                count_geki:
                                                                                    spec_le16(
                                                                                    data,
                                                                                    p3 + 6,
                                                                                ),
                                                                                count_katu:
                                                                                    spec_le16(
                                                                                    data,
                                                                                    p3 + 8,
                                                                                ),
                                                                                count_miss:
                                                                                    spec_le16(
                                                                                    data,
                                                                                    p3 + 10,
                                                                                ),
                                                                                score: spec_le32(
                                                                                    data,
                                                                                    p3 + 12,
                                                                                ),
                                                                                max_combo:
                                                                                    spec_le16(
                                                                                    data,
                                                                                    p3 + 16,
                                                                                ),
                                                                                perfect: data[p3
                                                                                    + 18] != 0,
                                                                                mods: spec_le32(
                                                                                    data,
                                                                                    p3 + 19,
                                                                                ),
                                                                                life_bar: life,
                                                                                ticks,
                                                                                events: p.0,
                                                                                replay_id: rid,
                                                                                seed: p.1,
                                                                            },
                                                                        ),
                                                                    }
                                                                },
                                                            }
                                                        }
                                                    },
                                                }
                                            }
                                        }
                                    },
                                },
                                f => string_fail(f),
                            }
                        }
                    },
                    f => string_fail(f),
                },
                f => string_fail(f),
            },
            f => string_fail(f),
        }
    }
}

/// What decode gives back for a decoded replay `raw` whose record was just
/// unpacked: everything but the timestamp is pinned; the stored tick count is
/// kept exactly when it is well-formed, and replaced by the current time
/// otherwise.
pub open spec fn unpack_matches(raw: ReplayV, rep: ReplayV) -> bool {
    &&& rep == ReplayV { ticks: rep.ticks, ..raw }
    &&& (ticks_wf(raw.ticks) ==> rep.ticks == raw.ticks)
}

/// What decoding an alternate payload can come to.
pub enum PayloadSpec {
    /// The decoded events; any trailing seed record is parsed and dropped.
    Val(Seq<EventV>),
    /// The payload is not base64.
    B64,
    /// The payload did not decompress.
    Lzma,
    /// The decompressed bytes are not UTF-8.
    BadUtf8,
    /// A numeric event field did not parse.
    Parse,
}

/// Decoding an event payload that may already be base64-decoded or already
/// decompressed: base64 runs only when neither flag is set, decompression
/// only when the payload is not yet decompressed.
pub open spec fn spec_parse_payload(
    data: Seq<u8>,
    decoded: bool,
    decompressed: bool,
    mode: GameMode,
) -> PayloadSpec {
    let d = if !decoded && !decompressed {
        crate::compress::base64_decoded(data)
    } else {
        Some(data)
    };
    match d {
        None => PayloadSpec::B64,
        Some(d2) => {
            let raw = if !decompressed {
                lzma_extract(d2)
            } else {
                Some(d2)
            };
            match raw {
                None => PayloadSpec::Lzma,
                Some(r2) => {
                    if !valid_utf8(r2) {
                        PayloadSpec::BadUtf8
                    } else {
                        match spec_parse_events(r2, mode) {
                            None => PayloadSpec::Parse,
                            Some(p) => PayloadSpec::Val(p.0),
                        }
                    }
                },
            }
        },
    }
}

/// Decodes the event payload of an API response: base64, decompression and
/// the event-stream text, each step skipped when a flag says it is already
/// done. Only the events are returned; a trailing seed record is parsed and
/// dropped by the event-stream walk itself.
pub fn parse_replay_data(
    data_string: &[u8],
    decoded: bool,
    decompressed: bool,
    mode: GameMode,
) -> (r: Result<Vec<ReplayEvent>, ReplayError>)
    ensures
        match spec_parse_payload(data_string@, decoded, decompressed, mode) {
            PayloadSpec::Val(evs) => r matches Ok(v) && events_view(v@) == evs,
            PayloadSpec::B64 => r matches Err(e) && e is Parse,
            PayloadSpec::Lzma => r matches Err(e) && e is Lzma,
            PayloadSpec::BadUtf8 => r matches Err(e) && e is Utf8,
            PayloadSpec::Parse => r matches Err(e) && e is Parse,
        },
{
    let data: Vec<u8> = if !decoded && !decompressed {
        match crate::compress::base64_decode_bytes(data_string) {
            Ok(v) => v,
            Err(e) => {
                return Err(e);
            },
        }
    } else {
        crate::events::to_vec(data_string)
    };
    let raw: Vec<u8> = if !decompressed {
        match crate::compress::lzma_decompress_bytes(&data) {
            Ok(v) => v,
            Err(e) => {
                return Err(e);
            },
        }
    } else {
        data
    };
    let ghost rawv = raw@;
    let text = match crate::unpacker::string_from_utf8(raw) {
        Some(s) => s,
        None => {
            return Err(ReplayError::Utf8(String::from_str("invalid UTF-8 in replay data")));
        },
    };
    proof {
        vstd::utf8::decode_utf8_encode_utf8(rawv);
        assert(encode_utf8(text@) == rawv);
    }
    match Unpacker::parse_replay_data(text.as_str(), mode) {
        Ok(p) => Ok(p.0),
        Err(e) => Err(e),
    }
}

impl Replay {
    /// Decodes a replay from the bytes of a whole record. A stored tick
    /// count the host time type cannot carry decodes as the current time.
    pub fn from_bytes(data: &[u8]) -> (r: Result<Replay, ReplayError>)
        ensures
            match spec_unpack(data@) {
                UnpackSpec::Val(raw) => r matches Ok(rep) && unpack_matches(raw, rep@),
                UnpackSpec::Eof => r matches Err(e) && e is UnexpectedEof,
                UnpackSpec::BadMarker(b) => r matches Err(e) && e matches
                    ReplayError::InvalidStringByte(bb) && bb == b,
                UnpackSpec::TooLong => r matches Err(e) && e is InvalidFormat,
                UnpackSpec::BadUtf8 => r matches Err(e) && e is Utf8,
                UnpackSpec::Lzma => r matches Err(e) && e is Lzma,
                UnpackSpec::Parse => r matches Err(e) && e is Parse,
            },
    {
        let unpacker = Unpacker::new(crate::events::to_vec(data));
        unpacker.unpack()
    }

    /// The bytes of this replay in the record format, with the event block
    /// compressed. Decoding what this returns gives every field back exactly,
    /// except that life values may be reformatted, whenever the events and
    /// seed are encodable.
    pub fn pack(&self) -> (r: Result<Vec<u8>, ReplayError>)
        ensures
            lzma_compressed(spec_events_text(self@.events, self@.seed)).len() <= u32::MAX
                ==> r is Ok,
            r matches Ok(out) ==> out@ == crate::packer::spec_pack(self@),
            r matches Ok(out) ==> (replay_encodable(self@) ==> spec_unpack(out@)
                == UnpackSpec::Val(spec_normalize(self@))),
            r matches Err(e) ==> e is Lzma,
    {
        let packer = Packer::new();
        packer.pack(self)
    }

    /// The bytes of this replay with the caller's packer settings.
    pub fn pack_with(&self, packer: &Packer) -> (r: Result<Vec<u8>, ReplayError>)
        ensures
            lzma_compressed(spec_events_text(self@.events, self@.seed)).len() <= u32::MAX
                ==> r is Ok,
            r matches Ok(out) ==> out@ == crate::packer::spec_pack(self@),
            r matches Ok(out) ==> (replay_encodable(self@) ==> spec_unpack(out@)
                == UnpackSpec::Val(spec_normalize(self@))),
            r matches Err(e) ==> e is Lzma,
    {
        packer.pack(self)
    }

    /// The bytes of this replay with the event block stored as raw
    /// length-prefixed text instead of compressed bytes: a diagnostic form
    /// that the standard decoder does not accept.
    pub fn pack_uncompressed(&self) -> (r: Result<Vec<u8>, ReplayError>)
        ensures
            spec_events_text(self@.events, self@.seed).len() <= u32::MAX ==> r is Ok,
            r matches Ok(out) ==> out@ == crate::packer::spec_pack_uncompressed(self@),
            r matches Err(e) ==> e is InvalidFormat,
    {
        let packer = Packer::new();
        packer.pack_uncompressed(self)
    }

    /// The diagnostic form with the caller's packer settings.
    pub fn pack_uncompressed_with(&self, packer: &Packer) -> (r: Result<Vec<u8>, ReplayError>)
        ensures
            spec_events_text(self@.events, self@.seed).len() <= u32::MAX ==> r is Ok,
            r matches Ok(out) ==> out@ == crate::packer::spec_pack_uncompressed(self@),
            r matches Err(e) ==> e is InvalidFormat,
    {
        packer.pack_uncompressed(self)
    }
}

use crate::unpacker::{pow2, spec_read_uleb, UlebSpec};
use crate::packer::{
    spec_le16_bytes,
    spec_le32_bytes,
    spec_le64_bytes,
    spec_u64_of,
    spec_uleb_bytes,
    spec_string_block,
    spec_life_string,
    spec_pack,
};
use crate::events::{events_encodable, lemma_events_text_round_trip, lemma_events_text_ascii};
use crate::lifebar::{
    reformat_lifebar,
    lemma_lifebar_text_round_trip,
    lemma_life_text_ascii,
    life_wf,
};

/// Indexing a piece known to sit at `pos` inside `data`.
proof fn lemma_piece_at(data: Seq<u8>, pos: int, piece: Seq<u8>)
    requires
        0 <= pos,
        pos + piece.len() <= data.len(),
        data.subrange(pos, pos + piece.len() as int) == piece,
    ensures
        forall|j: int| 0 <= j < piece.len() ==> data[pos + j] == #[trigger] piece[j],
{
    assert forall|j: int| 0 <= j < piece.len() implies data[pos + j] == #[trigger] piece[j] by {
        assert(piece[j] == data.subrange(pos, pos + piece.len() as int)[j]);
    }
}

/// Reading back a written 16-bit field.
proof fn lemma_le16_at(data: Seq<u8>, pos: int, v: u16)
    requires
        0 <= pos,
        pos + 2 <= data.len(),
        data.subrange(pos, pos + 2) == spec_le16_bytes(v),
    ensures
        spec_le16(data, pos) == v,
{
    lemma_piece_at(data, pos, spec_le16_bytes(v));
    assert(data[pos] == v % 0x100 && data[pos + 1] == v / 0x100) by {
        assert(data[pos + 0] == spec_le16_bytes(v)[0]);
        assert(data[pos + 1] == spec_le16_bytes(v)[1]);
    }
    assert((v % 0x100) + (v / 0x100) * 0x100 == v) by (bit_vector);
}

/// Reading back a written 32-bit field.
proof fn lemma_le32_at(data: Seq<u8>, pos: int, v: u32)
    requires
        0 <= pos,
        pos + 4 <= data.len(),
        data.subrange(pos, pos + 4) == spec_le32_bytes(v),
    ensures
        spec_le32(data, pos) == v,
{
    lemma_piece_at(data, pos, spec_le32_bytes(v));
    assert(data[pos] == v % 0x100 && data[pos + 1] == (v / 0x100) % 0x100 && data[pos + 2] == (v
        / 0x1_0000) % 0x100 && data[pos + 3] == v / 0x100_0000) by {
        assert(data[pos + 0] == spec_le32_bytes(v)[0]);
        assert(data[pos + 1] == spec_le32_bytes(v)[1]);
        assert(data[pos + 2] == spec_le32_bytes(v)[2]);
        assert(data[pos + 3] == spec_le32_bytes(v)[3]);
    }
    assert((v % 0x100) + ((v / 0x100) % 0x100) * 0x100 + ((v / 0x1_0000) % 0x100) * 0x1_0000 + (v
        / 0x100_0000) * 0x100_0000 == v) by (bit_vector);
}

/// Reading back a written 64-bit field, signed.
proof fn lemma_le64_at(data: Seq<u8>, pos: int, v: i64)
    requires
        0 <= pos,
        pos + 8 <= data.len(),
        data.subrange(pos, pos + 8) == spec_le64_bytes(spec_u64_of(v)),
    ensures
        spec_i64_of(spec_le64(data, pos)) == v,
{
    let u = spec_u64_of(v);
    assert(data[pos] == u % 0x100 && data[pos + 1] == (u / 0x100) % 0x100 && data[pos + 2] == (u
        / 0x1_0000) % 0x100 && data[pos + 3] == (u / 0x100_0000) % 0x100 && data[pos + 4] == (u
        / 0x1_0000_0000) % 0x100 && data[pos + 5] == (u / 0x100_0000_0000) % 0x100 && data[pos + 6]
        == (u / 0x1_0000_0000_0000) % 0x100 && data[pos + 7] == u / 0x100_0000_0000_0000) by {
        lemma_piece_at(data, pos, spec_le64_bytes(u));
        assert(data[pos + 0] == spec_le64_bytes(u)[0]);
        assert(data[pos + 1] == spec_le64_bytes(u)[1]);
        assert(data[pos + 2] == spec_le64_bytes(u)[2]);
        assert(data[pos + 3] == spec_le64_bytes(u)[3]);
        assert(data[pos + 4] == spec_le64_bytes(u)[4]);
        assert(data[pos + 5] == spec_le64_bytes(u)[5]);
        assert(data[pos + 6] == spec_le64_bytes(u)[6]);
        assert(data[pos + 7] == spec_le64_bytes(u)[7]);
    }
    assert((u % 0x100) + ((u / 0x100) % 0x100) * 0x100 + ((u / 0x1_0000) % 0x100) * 0x1_0000 + ((u
        / 0x100_0000) % 0x100) * 0x100_0000 + ((u / 0x1_0000_0000) % 0x100) * 0x1_0000_0000 + ((u
        / 0x100_0000_0000) % 0x100) * 0x100_0000_0000 + ((u / 0x1_0000_0000_0000) % 0x100)
        * 0x1_0000_0000_0000 + (u / 0x100_0000_0000_0000) * 0x100_0000_0000_0000 == u)
        by (bit_vector);
    assert(spec_le64(data, pos) == u);
}

/// Reading back a written varint.
proof fn lemma_uleb_at(data: Seq<u8>, pos: int, m: int, shift: nat, acc: int)
    requires
        0 <= m,
        0 <= pos,
        shift <= 63,
        shift % 7 == 0,
        m < pow2((64 - shift) as nat),
        pos + spec_uleb_bytes(m).len() <= data.len(),
        data.subrange(pos, pos + spec_uleb_bytes(m).len()) == spec_uleb_bytes(m),
        0 <= acc,
    ensures
        spec_read_uleb(data, pos, shift, acc) == UlebSpec::Done(
            acc + m * pow2(shift),
            pos + spec_uleb_bytes(m).len(),
        ),
    decreases m,
{
    let enc = spec_uleb_bytes(m);
    lemma_piece_at(data, pos, enc);
    assert(data[pos] == enc[0]) by {
        assert(data[pos + 0] == enc[0]);
    }
    if m < 128 {
        assert(enc =~= seq![m as u8]);
        assert(data[pos] == m as u8);
        assert(data[pos] % 128 == m);
        assert((m as u8) < 128);
    } else {
        let b = (128 + m % 128) as u8;
        assert(enc == seq![b] + spec_uleb_bytes(m / 128));
        assert(enc[0] == b);
        assert(b >= 128);
        assert(b % 128 == m % 128);
        // The shift never reaches the 64-bit guard for an encodable value.
        if shift + 7 >= 64 {
            lemma_pow2_le7(shift);
            assert(pow2((64 - shift) as nat) <= 128);
            assert(m < pow2((64 - shift) as nat));
            assert(false);
        }
        crate::unpacker::lemma_pow2_mono_pub(shift, shift);
        assert((m % 128) * pow2(shift) >= 0) by (nonlinear_arith)
            requires
                m % 128 >= 0,
                pow2(shift) >= 1,
        ;
        assert(pow2(7nat) == 128) by {
            reveal_with_fuel(pow2, 8);
        }
        crate::unpacker::lemma_pow2_add_pub(7nat, (64 - shift - 7) as nat);
        assert(pow2((64 - shift) as nat) == 128 * pow2((64 - shift - 7) as nat)) by {
            assert(7nat + ((64 - shift - 7) as nat) == (64 - shift) as nat);
        }
        assert(m / 128 < pow2((64 - shift - 7) as nat)) by {
            if m / 128 >= pow2((64 - shift - 7) as nat) {
                vstd::arithmetic::div_mod::lemma_fundamental_div_mod(m, 128);
                assert(m % 128 >= 0);
                assert(m >= 128 * (m / 128));
                assert(128 * (m / 128) >= 128 * pow2((64 - shift - 7) as nat)) by (nonlinear_arith)
                    requires
                        m / 128 >= pow2((64 - shift - 7) as nat),
                ;
                assert(m >= pow2((64 - shift) as nat));
                assert(false);
            }
        }
        assert(data.subrange(pos + 1, pos + 1 + spec_uleb_bytes(m / 128).len() as int) =~= spec_uleb_bytes(
            m / 128,
        )) by {
            assert forall|i: int|
                0 <= i < spec_uleb_bytes(m / 128).len() implies #[trigger] data.subrange(
                pos + 1,
                pos + 1 + spec_uleb_bytes(m / 128).len() as int,
            )[i] == spec_uleb_bytes(m / 128)[i] by {
                assert(data[pos + (1 + i)] == enc[1 + i]);
                assert(enc[1 + i] == spec_uleb_bytes(m / 128)[i]);
            }
        }
        lemma_uleb_at(data, pos + 1, m / 128, (shift + 7) as nat, acc + (m % 128) * pow2(shift));
        vstd::arithmetic::div_mod::lemma_fundamental_div_mod(m, 128);
        assert(pow2((shift + 7) as nat) == 128 * pow2(shift)) by {
            crate::unpacker::lemma_pow2_add_pub(shift, 7nat);
            assert(pow2(shift) * pow2(7nat) == pow2(7nat) * pow2(shift)) by (nonlinear_arith);
        }
        assert((m % 128) * pow2(shift) + (m / 128) * pow2((shift + 7) as nat) == m * pow2(shift))
            by (nonlinear_arith)
            requires
                m == 128 * (m / 128) + m % 128,
                pow2((shift + 7) as nat) == 128 * pow2(shift),
        ;
    }
}

/// For a shift at the guard, every encodable value is a single byte.
proof fn lemma_pow2_le7(shift: nat)
    requires
        shift <= 63,
        shift + 7 >= 64,
    ensures
        pow2((64 - shift) as nat) <= 128,
{
    assert(64 - shift <= 7);
    crate::unpacker::lemma_pow2_mono_pub((64 - shift) as nat, 7nat);
    assert(pow2(7nat) == 128) by {
        reveal_with_fuel(pow2, 8);
    }
}

/// Bytes below 128 are valid UTF-8 and decode to themselves.
proof fn lemma_ascii_valid_utf8(b: Seq<u8>)
    requires
        forall|i: int| 0 <= i < b.len() ==> b[i] < 128,
    ensures
        valid_utf8(b),
{
    assert(vstd::utf8::partial_valid_utf8(b, 0)) by {
        assert(b.subrange(0, 0) =~= Seq::<u8>::empty());
        assert(valid_utf8(Seq::<u8>::empty()));
    }
    assert(forall|i: int|
        0 <= 0 <= i < b.len() <= b.len() ==> #[trigger] vstd::utf8::is_leading_byte_width_1(b[i]));
    vstd::utf8::partial_valid_utf8_extend_ascii_block(b, 0, b.len() as int);
    assert(b.subrange(0, b.len() as int) =~= b);
}

/// Reading back a written string block of text bytes.
proof fn lemma_string_block_at(data: Seq<u8>, pos: int, b: Seq<u8>)
    requires
        0 <= pos,
        b.len() < 0x1_0000_0000_0000_0000,
        valid_utf8(b),
        pos + spec_string_block(b).len() <= data.len(),
        data.subrange(pos, pos + spec_string_block(b).len()) == spec_string_block(b),
    ensures
        spec_read_string(data, pos) == (if b.len() == 0 {
            StringSpec::Val(None, pos + 1)
        } else {
            StringSpec::Val(Some(decode_utf8(b)), pos + spec_string_block(b).len())
        }),
{
    let block = spec_string_block(b);
    lemma_piece_at(data, pos, block);
    assert(data[pos] == block[0]) by {
        assert(data[pos + 0] == block[0]);
    }
    if b.len() == 0 {
        assert(block =~= seq![0u8]);
        assert(data[pos] == 0);
    } else {
        let lenb = spec_uleb_bytes(b.len() as int);
        assert(block == seq![0x0bu8] + lenb + b);
        assert(data[pos] == 0x0b);
        assert(data.subrange(pos + 1, pos + 1 + lenb.len() as int) =~= lenb) by {
            assert forall|i: int|
                0 <= i < lenb.len() implies #[trigger] data.subrange(
                pos + 1,
                pos + 1 + lenb.len() as int,
            )[i] == lenb[i] by {
                assert(data[pos + (1 + i)] == block[1 + i]);
                assert(block[1 + i] == lenb[i]);
            }
        }
        assert(pow2(0nat) == 1) by {
            reveal_with_fuel(pow2, 1);
        }
        assert(b.len() < pow2(64nat)) by {
            assert(pow2(64nat) == 0x1_0000_0000_0000_0000) by {
                crate::unpacker::lemma_pow2_64_pub();
            }
        }
        lemma_uleb_at(data, pos + 1, b.len() as int, 0nat, 0);
        let p2 = pos + 1 + lenb.len() as int;
        assert(spec_read_uleb(data, pos + 1, 0nat, 0) == UlebSpec::Done(b.len() as int, p2)) by {
            assert(0 + b.len() as int * 1 == b.len() as int) by (nonlinear_arith);
        }
        assert(data.subrange(p2, p2 + b.len() as int) =~= b) by {
            assert forall|i: int|
                0 <= i < b.len() implies #[trigger] data.subrange(p2, p2 + b.len() as int)[i]
                == b[i] by {
                assert(data[pos + (1 + lenb.len() + i)] == block[1 + lenb.len() + i]);
                assert(block[1 + lenb.len() + i] == b[i]);
                assert(p2 + i == pos + (1 + lenb.len() + i));
            }
        }
    }
}

/// A replay whose textual payload the format stores losslessly: its events
/// and seed are encodable under its own mode.
pub open spec fn replay_encodable(rv: ReplayV) -> bool {
    events_encodable(rv.events, rv.seed, rv.mode)
}

/// What a replay reads back as: every field exact, except that life values
/// are reformatted and an empty curve collapses to no curve.
pub open spec fn spec_normalize(rv: ReplayV) -> ReplayV {
    ReplayV {
        life_bar: match rv.life_bar {
            None => None,
            Some(ls) => if ls.len() == 0 {
                None
            } else {
                Some(reformat_lifebar(ls))
            },
        },
        ..rv
    }
}

/// Where each written piece of a packed record sits: the header fields.
#[verifier::rlimit(100)]
#[verifier::spinoff_prover]
proof fn lemma_pack_layout_head(rv: ReplayV)
    ensures
        ({
            let data = spec_pack(rv);
            let s1 = spec_string_block(encode_utf8(rv.beatmap_hash));
            let s2 = spec_string_block(encode_utf8(rv.username));
            let s3 = spec_string_block(encode_utf8(rv.replay_hash));
            let o3 = 5 + s1.len() as int;
            let o4 = o3 + s2.len() as int;
            let p3 = o4 + s3.len() as int;
            &&& data.len() >= p3 + 23
            &&& data[0] == spec_mode_byte(rv.mode)
            &&& data.subrange(1, 5) == spec_le32_bytes(rv.game_version)
            &&& data.subrange(5, o3) == s1
            &&& data.subrange(o3, o4) == s2
            &&& data.subrange(o4, p3) == s3
            &&& data.subrange(p3, p3 + 2) == spec_le16_bytes(rv.count_300)
            &&& data.subrange(p3 + 2, p3 + 4) == spec_le16_bytes(rv.count_100)
            &&& data.subrange(p3 + 4, p3 + 6) == spec_le16_bytes(rv.count_50)
            &&& data.subrange(p3 + 6, p3 + 8) == spec_le16_bytes(rv.count_geki)
            &&& data.subrange(p3 + 8, p3 + 10) == spec_le16_bytes(rv.count_katu)
            &&& data.subrange(p3 + 10, p3 + 12) == spec_le16_bytes(rv.count_miss)
            &&& data.subrange(p3 + 12, p3 + 16) == spec_le32_bytes(rv.score)
            &&& data.subrange(p3 + 16, p3 + 18) == spec_le16_bytes(rv.max_combo)
            &&& data[p3 + 18] == (if rv.perfect {
                1u8
            } else {
                0u8
            })
            &&& data.subrange(p3 + 19, p3 + 23) == spec_le32_bytes(rv.mods)
        }),
{
    let data = spec_pack(rv);
    let s1 = spec_string_block(encode_utf8(rv.beatmap_hash));
    let s2 = spec_string_block(encode_utf8(rv.username));
    let s3 = spec_string_block(encode_utf8(rv.replay_hash));
    let o3 = 5 + s1.len() as int;
    let o4 = o3 + s2.len() as int;
    let p3 = o4 + s3.len() as int;
    assert(data.subrange(1, 5) =~= spec_le32_bytes(rv.game_version));
    assert(data.subrange(5, o3) =~= s1);
    assert(data.subrange(o3, o4) =~= s2);
    assert(data.subrange(o4, p3) =~= s3);
    assert(data.subrange(p3, p3 + 2) =~= spec_le16_bytes(rv.count_300));
    assert(data.subrange(p3 + 2, p3 + 4) =~= spec_le16_bytes(rv.count_100));
    assert(data.subrange(p3 + 4, p3 + 6) =~= spec_le16_bytes(rv.count_50));
    assert(data.subrange(p3 + 6, p3 + 8) =~= spec_le16_bytes(rv.count_geki));
    assert(data.subrange(p3 + 8, p3 + 10) =~= spec_le16_bytes(rv.count_katu));
    assert(data.subrange(p3 + 10, p3 + 12) =~= spec_le16_bytes(rv.count_miss));
    assert(data.subrange(p3 + 12, p3 + 16) =~= spec_le32_bytes(rv.score));
    assert(data.subrange(p3 + 16, p3 + 18) =~= spec_le16_bytes(rv.max_combo));
    assert(data.subrange(p3 + 19, p3 + 23) =~= spec_le32_bytes(rv.mods));
}

/// Where each written piece of a packed record sits: the tail fields.
#[verifier::rlimit(100)]
#[verifier::spinoff_prover]
proof fn lemma_pack_layout_tail(rv: ReplayV)
    ensures
        ({
            let data = spec_pack(rv);
            let s1 = spec_string_block(encode_utf8(rv.beatmap_hash));
            let s2 = spec_string_block(encode_utf8(rv.username));
            let s3 = spec_string_block(encode_utf8(rv.replay_hash));
            let s4 = spec_string_block(spec_life_string(rv.life_bar));
            let comp = lzma_compressed(spec_events_text(rv.events, rv.seed));
            let o5 = 5 + s1.len() + s2.len() + s3.len() + 23;
            let p4 = o5 + s4.len() as int;
            let p6 = p4 + 12 + comp.len() as int;
            &&& data.len() == p6 + 8
            &&& data.subrange(o5 as int, p4) == s4
            &&& data.subrange(p4, p4 + 8) == spec_le64_bytes(spec_u64_of(rv.ticks))
            &&& data.subrange(p4 + 8, p4 + 12) == spec_le32_bytes((comp.len() as u32))
            &&& data.subrange(p4 + 12, p6) == comp
            &&& data.subrange(p6, p6 + 8) == spec_le64_bytes(spec_u64_of(rv.replay_id))
        }),
{
    let data = spec_pack(rv);
    let s1 = spec_string_block(encode_utf8(rv.beatmap_hash));
    let s2 = spec_string_block(encode_utf8(rv.username));
    let s3 = spec_string_block(encode_utf8(rv.replay_hash));
    let s4 = spec_string_block(spec_life_string(rv.life_bar));
    let comp = lzma_compressed(spec_events_text(rv.events, rv.seed));
    let o5 = 5 + s1.len() + s2.len() + s3.len() + 23;
    let p4 = o5 + s4.len() as int;
    let p6 = p4 + 12 + comp.len() as int;
    assert(data.subrange(o5 as int, p4) =~= s4);
    assert(data.subrange(p4, p4 + 8) =~= spec_le64_bytes(spec_u64_of(rv.ticks)));
    assert(data.subrange(p4 + 8, p4 + 12) =~= spec_le32_bytes((comp.len() as u32)));
    assert(data.subrange(p4 + 12, p6) =~= comp);
    assert(data.subrange(p6, p6 + 8) =~= spec_le64_bytes(spec_u64_of(rv.replay_id)));
}

/// Evaluating the record decode once every field fact is known.
#[verifier::rlimit(100)]
#[verifier::spinoff_prover]
proof fn lemma_unpack_eval(
    data: Seq<u8>,
    rv: ReplayV,
    bh: Option<Seq<char>>,
    un: Option<Seq<char>>,
    rh: Option<Seq<char>>,
    lb: Option<Seq<char>>,
    p1: int,
    p2: int,
    p3: int,
    p4: int,
    comp: Seq<u8>,
)
    requires
        data.len() >= 5,
        data[0] == spec_mode_byte(rv.mode),
        spec_le32(data, 1) == rv.game_version,
        spec_read_string(data, 5) == StringSpec::Val(bh, p1),
        or_empty(bh) == rv.beatmap_hash,
        spec_read_string(data, p1) == StringSpec::Val(un, p2),
        or_empty(un) == rv.username,
        spec_read_string(data, p2) == StringSpec::Val(rh, p3),
        or_empty(rh) == rv.replay_hash,
        p3 + 23 <= data.len(),
        spec_le16(data, p3) == rv.count_300,
        spec_le16(data, p3 + 2) == rv.count_100,
        spec_le16(data, p3 + 4) == rv.count_50,
        spec_le16(data, p3 + 6) == rv.count_geki,
        spec_le16(data, p3 + 8) == rv.count_katu,
        spec_le16(data, p3 + 10) == rv.count_miss,
        spec_le32(data, p3 + 12) == rv.score,
        spec_le16(data, p3 + 16) == rv.max_combo,
        data[p3 + 18] == (if rv.perfect {
            1u8
        } else {
            0u8
        }),
        spec_le32(data, p3 + 19) == rv.mods,
        spec_read_string(data, p3 + 23) == StringSpec::Val(lb, p4),
        spec_read_life_value(lb) == Some(spec_normalize(rv).life_bar),
        p4 + 12 <= data.len(),
        spec_i64_of(spec_le64(data, p4)) == rv.ticks,
        comp.len() <= u32::MAX,
        spec_le32(data, p4 + 8) == (comp.len() as u32),
        p4 + 12 + comp.len() == data.len() - 8,
        data.subrange(p4 + 12, p4 + 12 + comp.len() as int) == comp,
        lzma_extract(comp) == Some(spec_events_text(rv.events, rv.seed)),
        valid_utf8(spec_events_text(rv.events, rv.seed)),
        spec_parse_events(spec_events_text(rv.events, rv.seed), rv.mode) == Some(
            (rv.events, rv.seed),
        ),
        spec_i64_of(spec_le64(data, p4 + 12 + comp.len() as int)) == rv.replay_id,
    ensures
        spec_unpack(data) == UnpackSpec::Val(spec_normalize(rv)),
{
    assert(spec_mode_of_byte(spec_mode_byte(rv.mode)) == rv.mode);
    let p6 = p4 + 12 + comp.len() as int;
    assert(p6 + 8 <= data.len());
    assert(spec_unpack(data) == UnpackSpec::Val(spec_normalize(rv)));
}

/// Decoding an encoded record gives the normalized replay back. The
/// hypotheses about the compressed block are exactly what the compression
/// wrapper establishes at the one place this lemma is used.
#[verifier::rlimit(100)]
#[verifier::spinoff_prover]
pub(crate) proof fn lemma_unpack_of_pack(rv: ReplayV, comp: Seq<u8>)
    requires
        ticks_wf(rv.ticks),
        replay_encodable(rv),
        rv.life_bar matches Some(ls) ==> forall|j: int|
            0 <= j < ls.len() ==> life_wf(#[trigger] ls[j]),
        encode_utf8(rv.beatmap_hash).len() < 0x1_0000_0000_0000_0000,
        encode_utf8(rv.username).len() < 0x1_0000_0000_0000_0000,
        encode_utf8(rv.replay_hash).len() < 0x1_0000_0000_0000_0000,
        rv.life_bar matches Some(ls) ==> spec_life_text(ls).len() < 0x1_0000_0000_0000_0000,
        comp == lzma_compressed(spec_events_text(rv.events, rv.seed)),
        comp.len() <= u32::MAX,
        lzma_extract(comp) == Some(spec_events_text(rv.events, rv.seed)),
    ensures
        spec_unpack(spec_pack(rv)) == UnpackSpec::Val(spec_normalize(rv)),
{
    let b1 = encode_utf8(rv.beatmap_hash);
    let b2 = encode_utf8(rv.username);
    let b3 = encode_utf8(rv.replay_hash);
    let lifestr = spec_life_string(rv.life_bar);
    let s1 = spec_string_block(b1);
    let s2 = spec_string_block(b2);
    let s3 = spec_string_block(b3);
    let s4 = spec_string_block(lifestr);
    let text = spec_events_text(rv.events, rv.seed);
    let data = spec_pack(rv);
    let o2: int = 5;
    let o3: int = o2 + s1.len();
    let o4: int = o3 + s2.len();
    let p3: int = o4 + s3.len();
    let o5: int = p3 + 23;
    let p4: int = o5 + s4.len();
    let p5: int = p4 + 8;
    let p6: int = p5 + 4 + comp.len();
    lemma_pack_layout_head(rv);
    lemma_pack_layout_tail(rv);
    assert(data.len() == p6 + 8);
    let bh: Option<Seq<char>> = if b1.len() == 0 {
        None
    } else {
        Some(decode_utf8(b1))
    };
    let un: Option<Seq<char>> = if b2.len() == 0 {
        None
    } else {
        Some(decode_utf8(b2))
    };
    let rh: Option<Seq<char>> = if b3.len() == 0 {
        None
    } else {
        Some(decode_utf8(b3))
    };
    let lb: Option<Seq<char>> = if lifestr.len() == 0 {
        None
    } else {
        Some(decode_utf8(lifestr))
    };
    // Read the fields back.
    assert(spec_mode_of_byte(spec_mode_byte(rv.mode)) == rv.mode);
    lemma_le32_at(data, 1, rv.game_version);
    vstd::utf8::encode_utf8_valid_utf8(rv.beatmap_hash);
    vstd::utf8::encode_utf8_valid_utf8(rv.username);
    vstd::utf8::encode_utf8_valid_utf8(rv.replay_hash);
    vstd::utf8::encode_utf8_decode_utf8(rv.beatmap_hash);
    vstd::utf8::encode_utf8_decode_utf8(rv.username);
    vstd::utf8::encode_utf8_decode_utf8(rv.replay_hash);
    lemma_string_block_at(data, o2, b1);
    lemma_string_block_at(data, o3, b2);
    lemma_string_block_at(data, o4, b3);
    assert(b1.len() == 0 ==> rv.beatmap_hash =~= Seq::<char>::empty());
    assert(b2.len() == 0 ==> rv.username =~= Seq::<char>::empty());
    assert(b3.len() == 0 ==> rv.replay_hash =~= Seq::<char>::empty());
    lemma_le16_at(data, p3, rv.count_300);
    lemma_le16_at(data, p3 + 2, rv.count_100);
    lemma_le16_at(data, p3 + 4, rv.count_50);
    lemma_le16_at(data, p3 + 6, rv.count_geki);
    lemma_le16_at(data, p3 + 8, rv.count_katu);
    lemma_le16_at(data, p3 + 10, rv.count_miss);
    lemma_le32_at(data, p3 + 12, rv.score);
    lemma_le16_at(data, p3 + 16, rv.max_combo);
    lemma_le32_at(data, p3 + 19, rv.mods);
    // The life-bar string.
    match rv.life_bar {
        None => {
            assert(lifestr =~= Seq::<u8>::empty());
            lemma_string_block_at(data, o5, lifestr);
        },
        Some(ls) => {
            if ls.len() == 0 {
                assert(lifestr =~= Seq::<u8>::empty());
                lemma_string_block_at(data, o5, lifestr);
            } else {
                lemma_life_text_ascii(ls);
                lemma_ascii_valid_utf8(lifestr);
                lemma_string_block_at(data, o5, lifestr);
                assert(lifestr.len() > 0) by {
                    crate::lifebar::lemma_life_text_nonempty(ls);
                }
                vstd::utf8::decode_utf8_encode_utf8(lifestr);
                lemma_lifebar_text_round_trip(ls);
                assert(spec_read_life_value(Some(decode_utf8(lifestr))) == Some(
                    Some(reformat_lifebar(ls)),
                )) by {
                    assert(decode_utf8(lifestr).len() > 0) by {
                        if decode_utf8(lifestr).len() == 0 {
                            assert(encode_utf8(decode_utf8(lifestr)) =~= Seq::<u8>::empty());
                        }
                    }
                    assert(encode_utf8(decode_utf8(lifestr)) == lifestr);
                }
            }
        },
    }
    // The timestamp, the event block, the identifier.
    lemma_le64_at(data, p4, rv.ticks);
    lemma_le32_at(data, p5, (comp.len() as u32));
    lemma_events_text_ascii(rv.events, rv.seed);
    lemma_ascii_valid_utf8(text);
    lemma_events_text_round_trip(rv.events, rv.seed, rv.mode);
    lemma_le64_at(data, p6, rv.replay_id);
    assert(spec_read_life_value(lb) == Some(spec_normalize(rv).life_bar));
    lemma_unpack_eval(data, rv, bh, un, rh, lb, o3, o4, p3, p4, comp);
}

} // verus!
