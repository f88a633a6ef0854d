//! Encoding of the binary record layer: fixed-width little-endian fields,
//! varint string blocks, and the field-by-field record build.

use vstd::prelude::*;
use crate::compress::{lzma_compressed, lzma_extract, lzma_compress_bytes};
use crate::error::ReplayError;
use crate::events::{spec_events_text, events_view, encode_events, event_wf};
use crate::lifebar::{spec_life_text, lifebar_view, encode_lifebar, life_wf};
use crate::timestamp::{UtcTime, ticks_wf};
use crate::types::{LifeBarState, ReplayEvent, spec_mode_byte};

verus! {

use vstd::string::StringSliceAdditionalSpecFns;

/// The two little-endian bytes of an unsigned 16-bit value.
pub open spec fn spec_le16_bytes(v: u16) -> Seq<u8> {
    seq![(v % 0x100) as u8, (v / 0x100) as u8]
}

/// The four little-endian bytes of an unsigned 32-bit value.
pub open spec fn spec_le32_bytes(v: u32) -> Seq<u8> {
    seq![
        (v % 0x100) as u8,
        ((v / 0x100) % 0x100) as u8,
        ((v / 0x1_0000) % 0x100) as u8,
        (v / 0x100_0000) as u8,
    ]
}

/// The eight little-endian bytes of an unsigned 64-bit value.
pub open spec fn spec_le64_bytes(v: u64) -> Seq<u8> {
    seq![
        (v % 0x100) as u8,
        ((v / 0x100) % 0x100) as u8,
        ((v / 0x1_0000) % 0x100) as u8,
        ((v / 0x100_0000) % 0x100) as u8,
        ((v / 0x1_0000_0000) % 0x100) as u8,
        ((v / 0x100_0000_0000) % 0x100) as u8,
        ((v / 0x1_0000_0000_0000) % 0x100) as u8,
        (v / 0x100_0000_0000_0000) as u8,
    ]
}

/// The unsigned reading of a signed 64-bit value (two's complement).
pub open spec fn spec_u64_of(v: i64) -> u64 {
    if v >= 0 {
        v as u64
    } else {
        (v + 0x1_0000_0000_0000_0000) as u64
    }
}

/// The varint bytes of an unsigned value: 7 data bits per byte, the high bit
/// set on every byte but the last.
pub open spec fn spec_uleb_bytes(n: int) -> Seq<u8>
    decreases n,
    when n >= 0
{
    if n < 128 {
        seq![n as u8]
    } else {
        seq![(128 + n % 128) as u8] + spec_uleb_bytes(n / 128)
    }
}

/// The string block for the text bytes `b`: empty text is stored as the single
/// absent marker, anything else as marker 0x0b, a varint length, the bytes.
pub open spec fn spec_string_block(b: Seq<u8>) -> Seq<u8> {
    if b.len() == 0 {
        seq![0u8]
    } else {
        seq![0x0bu8] + spec_uleb_bytes(b.len() as int) + b
    }
}

/// Builds `.osr` records; `preset` is kept for compression settings chosen by
/// the caller.
pub struct Packer {
    preset: u32,
}

impl Default for Packer {
    /// The default compression level.
    fn default() -> (r: Packer)
        ensures
            r.preset_spec() == 6,
    {
        Packer { preset: 6 }
    }
}

impl Packer {
    /// The chosen compression level.
    pub closed spec fn preset_spec(&self) -> u32 {
        self.preset
    }

    /// A packer with the default compression level.
    pub fn new() -> (r: Packer)
        ensures
            r.preset_spec() == 6,
    {
        Packer { preset: 6 }
    }

    /// The same packer with another compression level.
    pub fn with_preset(self, preset: u32) -> (r: Packer)
        ensures
            r.preset_spec() == preset,
    {
        Packer { preset }
    }

    /// Appends one byte.
    pub fn pack_byte(&self, out: &mut Vec<u8>, data: u8)
        ensures
            final(out)@ == old(out)@ + seq![data],
    {
        out.push(data);
        proof {
            assert(final(out)@ =~= old(out)@ + seq![data]);
        }
    }

    /// Appends an unsigned 16-bit little-endian field.
    pub fn pack_short(&self, out: &mut Vec<u8>, data: u16)
        ensures
            final(out)@ == old(out)@ + spec_le16_bytes(data),
    {
        out.push((data % 0x100) as u8);
        out.push((data / 0x100) as u8);
        proof {
            assert(final(out)@ =~= old(out)@ + spec_le16_bytes(data));
        }
    }

    /// Appends an unsigned 32-bit little-endian field.
    pub fn pack_int(&self, out: &mut Vec<u8>, data: u32)
        ensures
            final(out)@ == old(out)@ + spec_le32_bytes(data),
    {
        out.push((data % 0x100) as u8);
        out.push(((data / 0x100) % 0x100) as u8);
        out.push(((data / 0x1_0000) % 0x100) as u8);
        out.push((data / 0x100_0000) as u8);
        proof {
            assert(final(out)@ =~= old(out)@ + spec_le32_bytes(data));
        }
    }

    /// Appends a signed 64-bit little-endian field.
    pub fn pack_long(&self, out: &mut Vec<u8>, data: i64)
        ensures
            final(out)@ == old(out)@ + spec_le64_bytes(spec_u64_of(data)),
    {
        let u: u64 = if data >= 0 {
            data as u64
        } else {
            0xffff_ffff_ffff_ffff - ((-(data + 1)) as u64)
        };
        out.push((u % 0x100) as u8);
        out.push(((u / 0x100) % 0x100) as u8);
        out.push(((u / 0x1_0000) % 0x100) as u8);
        out.push(((u / 0x100_0000) % 0x100) as u8);
        out.push(((u / 0x1_0000_0000) % 0x100) as u8);
        out.push(((u / 0x100_0000_0000) % 0x100) as u8);
        out.push(((u / 0x1_0000_0000_0000) % 0x100) as u8);
        out.push((u / 0x100_0000_0000_0000) as u8);
        proof {
            assert(u == spec_u64_of(data));
            assert(final(out)@ =~= old(out)@ + spec_le64_bytes(spec_u64_of(data)));
        }
    }

    /// Appends an unsigned varint.
    pub fn pack_uleb128(&self, out: &mut Vec<u8>, value: u64)
        ensures
            final(out)@ == old(out)@ + spec_uleb_bytes(value as int),
        decreases value,
    {
        if value < 128 {
            out.push(value as u8);
            proof {
                assert(final(out)@ =~= old(out)@ + spec_uleb_bytes(value as int));
            }
        } else {
            out.push(128 + (value % 128) as u8);
            self.pack_uleb128(out, value / 128);
            proof {
                assert(final(out)@ =~= old(out)@ + spec_uleb_bytes(value as int));
            }
        }
    }

    /// Appends a string block: an absent or empty text is stored as the
    /// single absent marker.
    pub fn pack_string(&self, out: &mut Vec<u8>, data: Option<&str>)
        ensures
            final(out)@ == old(out)@ + (match data {
                None => seq![0u8],
                Some(s) => spec_string_block(s.spec_bytes()),
            }),
            data matches Some(s) ==> s.spec_bytes().len() < 0x1_0000_0000_0000_0000,
    {
        match data {
            None => {
                out.push(0x00);
                proof {
                    assert(final(out)@ =~= old(out)@ + seq![0u8]);
                }
            },
            Some(s) => {
                let bytes = s.as_bytes();
                if bytes.len() == 0 {
                    out.push(0x00);
                    proof {
                        assert(final(out)@ =~= old(out)@ + spec_string_block(s.spec_bytes()));
                    }
                } else {
                    out.push(0x0b);
                    self.pack_uleb128(out, bytes.len() as u64);
                    let ghost mid = out@;
                    let n = bytes.len();
                    let mut i: usize = 0;
                    while i < n
                        invariant
                            n == bytes@.len(),
                            0 <= i <= n,
                            out@ =~= mid + bytes@.take(i as int),
                        decreases n - i,
                    {
                        out.push(bytes[i]);
                        i = i + 1;
                    }
                    proof {
                        assert(out@ =~= mid + bytes@);
                        assert(final(out)@ =~= old(out)@ + spec_string_block(s.spec_bytes()));
                    }
                }
            },
        }
    }
}

use vstd::utf8::encode_utf8;
use crate::replay::{Replay, ReplayV};

/// The life-bar string a curve is stored as: nothing at all encodes as the
/// empty text.
pub open spec fn spec_life_string(lb: Option<Seq<crate::lifebar::LifeV>>) -> Seq<u8> {
    match lb {
        None => Seq::empty(),
        Some(ls) => spec_life_text(ls),
    }
}

/// The bytes of a whole record, in the fixed field order, with the event
/// block compressed.
pub open spec fn spec_pack(rv: ReplayV) -> Seq<u8> {
    let comp = lzma_compressed(spec_events_text(rv.events, rv.seed));
    seq![spec_mode_byte(rv.mode)] + spec_le32_bytes(rv.game_version) + spec_string_block(
        encode_utf8(rv.beatmap_hash),
    ) + spec_string_block(encode_utf8(rv.username)) + spec_string_block(
        encode_utf8(rv.replay_hash),
    ) + spec_le16_bytes(rv.count_300) + spec_le16_bytes(rv.count_100) + spec_le16_bytes(rv.count_50)
        + spec_le16_bytes(rv.count_geki) + spec_le16_bytes(rv.count_katu) + spec_le16_bytes(
        rv.count_miss,
    ) + spec_le32_bytes(rv.score) + spec_le16_bytes(rv.max_combo) + seq![
        (if rv.perfect {
            1u8
        } else {
            0u8
        }),
    ] + spec_le32_bytes(rv.mods) + spec_string_block(spec_life_string(rv.life_bar))
        + spec_le64_bytes(spec_u64_of(rv.ticks)) + spec_le32_bytes((comp.len() as u32)) + comp
        + spec_le64_bytes(spec_u64_of(rv.replay_id))
}

impl Packer {
    /// Appends a string block for raw text bytes.
    pub fn pack_string_bytes(&self, out: &mut Vec<u8>, data: &Vec<u8>)
        ensures
            final(out)@ == old(out)@ + spec_string_block(data@),
            data@.len() < 0x1_0000_0000_0000_0000,
    {
        if data.len() == 0 {
            out.push(0x00);
            proof {
                assert(final(out)@ =~= old(out)@ + spec_string_block(data@));
            }
        } else {
            out.push(0x0b);
            self.pack_uleb128(out, data.len() as u64);
            crate::events::push_bytes(out, data);
            proof {
                assert(final(out)@ =~= old(out)@ + spec_string_block(data@));
            }
        }
    }

    /// Appends the timestamp as its signed 64-bit tick count.
    pub fn pack_timestamp(&self, out: &mut Vec<u8>, timestamp: &UtcTime)
        ensures
            final(out)@ == old(out)@ + spec_le64_bytes(spec_u64_of(timestamp@)),
            ticks_wf(timestamp@),
    {
        let ticks = timestamp.ticks();
        self.pack_long(out, ticks);
    }

    /// Appends the life-bar string: an absent curve is the absent string, and
    /// a curve is its text.
    pub fn pack_life_bar(&self, out: &mut Vec<u8>, life_bar_graph: &Option<Vec<LifeBarState>>)
        ensures
            final(out)@ == old(out)@ + spec_string_block(
                spec_life_string(
                    match life_bar_graph {
                        None => None,
                        Some(states) => Some(lifebar_view(states@)),
                    },
                ),
            ),
            life_bar_graph matches Some(states) ==> (forall|j: int|
                0 <= j < states@.len() ==> life_wf(#[trigger] lifebar_view(states@)[j]))
                && spec_life_text(lifebar_view(states@)).len() < 0x1_0000_0000_0000_0000,
    {
        match life_bar_graph {
            None => {
                out.push(0x00);
                proof {
                    assert(final(out)@ =~= old(out)@ + spec_string_block(
                        Seq::<u8>::empty(),
                    ));
                }
            },
            Some(states) => {
                let text = encode_lifebar(states);
                self.pack_string_bytes(out, &text);
            },
        }
    }

    /// Appends the event block: the event-stream text, compressed, behind its
    /// 32-bit byte length. A compressed block too long for that length is
    /// refused rather than written short.
    pub fn pack_replay_data(
        &self,
        out: &mut Vec<u8>,
        replay_data: &Vec<ReplayEvent>,
        rng_seed: Option<i32>,
    ) -> (r: Result<(), ReplayError>)
        ensures
            ({
                let text = spec_events_text(events_view(replay_data@), rng_seed);
                let comp = lzma_compressed(text);
                &&& comp.len() <= u32::MAX ==> r is Ok
                &&& match r {
                    Ok(()) => {
                        &&& comp.len() <= u32::MAX
                        &&& final(out)@ == old(out)@ + spec_le32_bytes((comp.len() as u32)) + comp
                        &&& lzma_extract(comp) == Some(text)
                        &&& forall|j: int|
                            0 <= j < replay_data@.len() ==> event_wf(
                                #[trigger] events_view(replay_data@)[j],
                            )
                    },
                    Err(e) => e is Lzma && final(out)@ == old(out)@,
                }
            }),
    {
        let text = encode_events(replay_data, rng_seed);
        let compressed = match lzma_compress_bytes(&text) {
            Ok(v) => v,
            Err(e) => {
                return Err(e);
            },
        };
        if compressed.len() > 0xffff_ffff {
            return Err(ReplayError::Lzma(String::from_str("compressed data too long")));
        }
        self.pack_int(out, compressed.len() as u32);
        crate::events::push_bytes(out, &compressed);
        proof {
            assert(final(out)@ =~= old(out)@ + spec_le32_bytes((compressed@.len() as u32))
                + compressed@);
        }
        Ok(())
    }

    /// Encodes a whole record, every field in the fixed order. What this
    /// produces, decoding brings back exactly, life values reformatted:
    /// whenever the events and seed are encodable, decoding the output is the
    /// normalized replay.
    pub fn pack(&self, replay: &Replay) -> (r: Result<Vec<u8>, ReplayError>)
        ensures
            ({
                let comp = lzma_compressed(
                    spec_events_text(replay@.events, replay@.seed),
                );
                &&& comp.len() <= u32::MAX ==> r is Ok
                &&& match r {
                    Ok(out) => {
                        &&& out@ == spec_pack(replay@)
                        &&& crate::replay::replay_encodable(replay@)
                            ==> crate::replay::spec_unpack(out@) == crate::replay::UnpackSpec::Val(
                            crate::replay::spec_normalize(replay@),
                        )
                        &&& encode_utf8(replay@.beatmap_hash).len() < 0x1_0000_0000_0000_0000
                        &&& encode_utf8(replay@.username).len() < 0x1_0000_0000_0000_0000
                        &&& encode_utf8(replay@.replay_hash).len() < 0x1_0000_0000_0000_0000
                        &&& (replay@.life_bar matches Some(ls) ==> spec_life_text(ls).len()
                            < 0x1_0000_0000_0000_0000)
                        &&& comp.len() <= u32::MAX
                        &&& lzma_extract(comp) == Some(
                            spec_events_text(replay@.events, replay@.seed),
                        )
                        &&& ticks_wf(replay@.ticks)
                        &&& forall|j: int|
                            0 <= j < replay@.events.len() ==> event_wf(#[trigger] replay@.events[j])
                        &&& replay@.life_bar matches Some(ls) ==> forall|j: int|
                            0 <= j < ls.len() ==> life_wf(#[trigger] ls[j])
                    },
                    Err(e) => e is Lzma,
                }
            }),
    {
        let mut out: Vec<u8> = Vec::new();
        self.pack_byte(&mut out, replay.mode.value());
        self.pack_int(&mut out, replay.game_version);
        self.pack_string(&mut out, Some(replay.beatmap_hash.as_str()));
        self.pack_string(&mut out, Some(replay.username.as_str()));
        self.pack_string(&mut out, Some(replay.replay_hash.as_str()));
        self.pack_short(&mut out, replay.count_300);
        self.pack_short(&mut out, replay.count_100);
        self.pack_short(&mut out, replay.count_50);
        self.pack_short(&mut out, replay.count_geki);
        self.pack_short(&mut out, replay.count_katu);
        self.pack_short(&mut out, replay.count_miss);
        self.pack_int(&mut out, replay.score);
        self.pack_short(&mut out, replay.max_combo);
        self.pack_byte(
            &mut out,
            if replay.perfect {
                1
            } else {
                0
            },
        );
        self.pack_int(&mut out, replay.mods.value());
        self.pack_life_bar(&mut out, &replay.life_bar_graph);
        self.pack_timestamp(&mut out, &replay.timestamp);
        match self.pack_replay_data(&mut out, &replay.replay_data, replay.rng_seed) {
            Ok(()) => {},
            Err(e) => {
                return Err(e);
            },
        }
        self.pack_long(&mut out, replay.replay_id);
        proof {
            assert(out@ =~= spec_pack(replay@));
            if crate::replay::replay_encodable(replay@) {
                crate::replay::lemma_unpack_of_pack(
                    replay@,
                    lzma_compressed(spec_events_text(replay@.events, replay@.seed)),
                );
            }
        }
        Ok(out)
    }
}

/// The bytes of a whole record in the diagnostic form: the event block is the
/// raw event-stream text behind its 32-bit byte length, not compressed.
pub open spec fn spec_pack_uncompressed(rv: ReplayV) -> Seq<u8> {
    let text = spec_events_text(rv.events, rv.seed);
    seq![spec_mode_byte(rv.mode)] + spec_le32_bytes(rv.game_version) + spec_string_block(
        encode_utf8(rv.beatmap_hash),
    ) + spec_string_block(encode_utf8(rv.username)) + spec_string_block(
        encode_utf8(rv.replay_hash),
    ) + spec_le16_bytes(rv.count_300) + spec_le16_bytes(rv.count_100) + spec_le16_bytes(rv.count_50)
        + spec_le16_bytes(rv.count_geki) + spec_le16_bytes(rv.count_katu) + spec_le16_bytes(
        rv.count_miss,
    ) + spec_le32_bytes(rv.score) + spec_le16_bytes(rv.max_combo) + seq![
        (if rv.perfect {
            1u8
        } else {
            0u8
        }),
    ] + spec_le32_bytes(rv.mods) + spec_string_block(spec_life_string(rv.life_bar))
        + spec_le64_bytes(spec_u64_of(rv.ticks)) + spec_le32_bytes((text.len() as u32)) + text
        + spec_le64_bytes(spec_u64_of(rv.replay_id))
}

impl Packer {
    /// Encodes a whole record in the diagnostic uncompressed form.
    pub fn pack_uncompressed(&self, replay: &Replay) -> (r: Result<Vec<u8>, ReplayError>)
        ensures
            spec_events_text(replay@.events, replay@.seed).len() <= u32::MAX ==> r is Ok,
            r matches Ok(out) ==> out@ == spec_pack_uncompressed(replay@),
            r matches Err(e) ==> e is InvalidFormat,
    {
        let mut out: Vec<u8> = Vec::new();
        self.pack_byte(&mut out, replay.mode.value());
        self.pack_int(&mut out, replay.game_version);
        self.pack_string(&mut out, Some(replay.beatmap_hash.as_str()));
        self.pack_string(&mut out, Some(replay.username.as_str()));
        self.pack_string(&mut out, Some(replay.replay_hash.as_str()));
        self.pack_short(&mut out, replay.count_300);
        self.pack_short(&mut out, replay.count_100);
        self.pack_short(&mut out, replay.count_50);
        self.pack_short(&mut out, replay.count_geki);
        self.pack_short(&mut out, replay.count_katu);
        self.pack_short(&mut out, replay.count_miss);
        self.pack_int(&mut out, replay.score);
        self.pack_short(&mut out, replay.max_combo);
        self.pack_byte(
            &mut out,
            if replay.perfect {
                1
            } else {
                0
            },
        );
        self.pack_int(&mut out, replay.mods.value());
        self.pack_life_bar(&mut out, &replay.life_bar_graph);
        self.pack_timestamp(&mut out, &replay.timestamp);
        let text = encode_events(&replay.replay_data, replay.rng_seed);
        if text.len() > 0xffff_ffff {
            return Err(ReplayError::InvalidFormat(String::from_str("replay data too long")));
        }
        self.pack_int(&mut out, text.len() as u32);
        crate::events::push_bytes(&mut out, &text);
        self.pack_long(&mut out, replay.replay_id);
        proof {
            assert(out@ =~= spec_pack_uncompressed(replay@));
        }
        Ok(out)
    }
}

} // verus!
