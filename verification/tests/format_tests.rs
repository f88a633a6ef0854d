use rosu_replay::lifebar::{encode_lifebar, parse_life_bytes};
use rosu_replay::{
    FloatText, GameMode, Key, KeyMania, KeyTaiko, LifeBarState, Mod, Replay, ReplayError,
    ReplayEvent, Unpacker, UtcTime,
};

fn ft(s: &str) -> FloatText {
    FloatText::new(s).unwrap()
}

fn base_replay(mode: GameMode, events: Vec<ReplayEvent>) -> Replay {
    Replay {
        mode,
        game_version: 20231106,
        beatmap_hash: "a".repeat(32),
        username: "player one".to_string(),
        replay_hash: "b".repeat(32),
        count_300: 1,
        count_100: 2,
        count_50: 3,
        count_geki: 4,
        count_katu: 5,
        count_miss: 6,
        score: 7_654_321,
        max_combo: 890,
        perfect: true,
        mods: Mod(Mod::HIDDEN | Mod::HARD_ROCK),
        life_bar_graph: Some(vec![
            LifeBarState {
                time: 0,
                life: ft("1"),
            },
            LifeBarState {
                time: 1000,
                life: ft("0.8"),
            },
        ]),
        timestamp: UtcTime::from_unix(1_600_000_000, 123_456_700).unwrap(),
        replay_data: events,
        replay_id: 9_876_543_210,
        rng_seed: None,
    }
}

/// A life-bar text decodes to its pairs, and re-encoding reproduces the text.
#[test]
fn test_life_bar_round_trip_text() {
    let text = b"0|1,1000|0.8,";
    let states = parse_life_bytes(text).unwrap();
    assert_eq!(states.len(), 2);
    assert_eq!(states[0].time, 0);
    assert_eq!(states[0].life, ft("1"));
    assert_eq!(states[1].time, 1000);
    assert_eq!(states[1].life, ft("0.8"));

    let re = encode_lifebar(&states);
    assert_eq!(re, text.to_vec());
}

/// A life-bar record with the wrong pipe count is a hard error, while an
/// event record with the wrong pipe count is silently skipped.
#[test]
fn test_field_count_asymmetry() {
    let life = parse_life_bytes(b"0|1|extra,");
    assert!(matches!(life, Err(ReplayError::Parse(_))));

    let events = Unpacker::parse_replay_data("0|1|2,", GameMode::Std).unwrap();
    assert_eq!(events.0.len(), 0);
}

/// A string marker byte 0xFF produces an invalid-marker error carrying 0xFF.
#[test]
fn test_invalid_marker_carries_byte() {
    let mut unpacker = Unpacker::new(vec![0xFF, 1, 2, 3]);
    match unpacker.unpack_string() {
        Err(ReplayError::InvalidStringByte(b)) => assert_eq!(b, 0xFF),
        other => panic!("expected invalid marker, got {:?}", other),
    }
}

/// A record truncated to leave exactly four trailing bytes after the event
/// block decodes its identifier as a promoted unsigned 32-bit value.
#[test]
fn test_identifier_width_fallback() {
    let replay = base_replay(GameMode::Std, vec![]);
    let packed = replay.pack().unwrap();
    // Drop the 8-byte identifier and append a 4-byte one.
    let mut short = packed[..packed.len() - 8].to_vec();
    short.extend_from_slice(&0xDEADBEEFu32.to_le_bytes());
    let decoded = Replay::from_bytes(&short).unwrap();
    assert_eq!(decoded.replay_id, 0xDEADBEEFu32 as i64);
}

/// Packing and decoding reproduces every field exactly, for each mode.
#[test]
fn test_full_round_trip_all_modes() {
    let per_mode: Vec<(GameMode, Vec<ReplayEvent>)> = vec![
        (
            GameMode::Std,
            vec![
                ReplayEvent::Osu(rosu_replay::ReplayEventOsu {
                    time_delta: 16,
                    x: ft("256.5"),
                    y: ft("-19.25"),
                    keys: Key(Key::M1 | Key::K1),
                }),
                ReplayEvent::Osu(rosu_replay::ReplayEventOsu {
                    time_delta: -5,
                    x: ft("0"),
                    y: ft("384"),
                    keys: Key(0),
                }),
            ],
        ),
        (
            GameMode::Taiko,
            vec![ReplayEvent::Taiko(rosu_replay::ReplayEventTaiko {
                time_delta: 11,
                x: -320,
                keys: KeyTaiko(KeyTaiko::RIGHT_KAT),
            })],
        ),
        (
            GameMode::Catch,
            vec![ReplayEvent::Catch(rosu_replay::ReplayEventCatch {
                time_delta: 7,
                x: ft("77.75"),
                dashing: false,
            })],
        ),
        (
            GameMode::Mania,
            vec![ReplayEvent::Mania(rosu_replay::ReplayEventMania {
                time_delta: 9,
                keys: KeyMania(KeyMania::K2 | KeyMania::K17),
            })],
        ),
    ];
    for (mode, events) in per_mode {
        let mut replay = base_replay(mode, events);
        replay.rng_seed = Some(4242);
        let packed = replay.pack().unwrap();
        let decoded = Replay::from_bytes(&packed).unwrap();
        assert_eq!(decoded.mode, replay.mode);
        assert_eq!(decoded.game_version, replay.game_version);
        assert_eq!(decoded.beatmap_hash, replay.beatmap_hash);
        assert_eq!(decoded.username, replay.username);
        assert_eq!(decoded.replay_hash, replay.replay_hash);
        assert_eq!(decoded.count_300, replay.count_300);
        assert_eq!(decoded.count_geki, replay.count_geki);
        assert_eq!(decoded.count_katu, replay.count_katu);
        assert_eq!(decoded.score, replay.score);
        assert_eq!(decoded.max_combo, replay.max_combo);
        assert_eq!(decoded.perfect, replay.perfect);
        assert_eq!(decoded.mods, replay.mods);
        assert_eq!(decoded.life_bar_graph, replay.life_bar_graph);
        assert_eq!(decoded.timestamp, replay.timestamp);
        assert_eq!(decoded.replay_data, replay.replay_data);
        assert_eq!(decoded.replay_id, replay.replay_id);
        assert_eq!(decoded.rng_seed, replay.rng_seed);
    }
}

/// Encode-then-decode of a single event in isolation yields an equal event.
#[test]
fn test_single_event_round_trip() {
    let events = vec![
        ReplayEvent::Osu(rosu_replay::ReplayEventOsu {
            time_delta: 100,
            x: ft("12.5"),
            y: ft("-3"),
            keys: Key(Key::SMOKE),
        }),
        ReplayEvent::Taiko(rosu_replay::ReplayEventTaiko {
            time_delta: 100,
            x: 5,
            keys: KeyTaiko(KeyTaiko::LEFT_KAT),
        }),
        ReplayEvent::Catch(rosu_replay::ReplayEventCatch {
            time_delta: 100,
            x: ft("1e2"),
            dashing: true,
        }),
        ReplayEvent::Mania(rosu_replay::ReplayEventMania {
            time_delta: 100,
            keys: KeyMania(KeyMania::K5),
        }),
    ];
    let modes = [
        GameMode::Std,
        GameMode::Taiko,
        GameMode::Catch,
        GameMode::Mania,
    ];
    for (event, mode) in events.into_iter().zip(modes) {
        let replay = base_replay(mode, vec![event.clone()]);
        let packed = replay.pack().unwrap();
        let decoded = Replay::from_bytes(&packed).unwrap();
        assert_eq!(decoded.replay_data.len(), 1);
        assert_eq!(decoded.replay_data[0], event);
    }
}

/// The timestamp decodes tick-exactly, and pre-epoch whole seconds survive.
#[test]
fn test_timestamp_round_trip() {
    let t = UtcTime::from_unix(1_700_000_000, 987_654_321).unwrap();
    // Nanoseconds are held at tick resolution.
    assert_eq!(t.subsec_nanos(), 987_654_300);
    let mut replay = base_replay(GameMode::Std, vec![]);
    replay.timestamp = t;
    let decoded = Replay::from_bytes(&replay.pack().unwrap()).unwrap();
    assert_eq!(decoded.timestamp, t);
    assert_eq!(decoded.timestamp.unix_seconds(), 1_700_000_000);

    let before_epoch = UtcTime::from_unix(-12_345, 0).unwrap();
    replay.timestamp = before_epoch;
    let decoded = Replay::from_bytes(&replay.pack().unwrap()).unwrap();
    assert_eq!(decoded.timestamp.unix_seconds(), -12_345);
}

/// Sub-second precision before the epoch cannot be held.
#[test]
fn test_pre_epoch_fraction_refused() {
    assert!(UtcTime::from_unix(-1, 500).is_none());
    assert!(UtcTime::from_unix(-1, 0).is_some());
}

/// The diagnostic uncompressed form is refused by the standard decoder.
#[test]
fn test_uncompressed_form_not_accepted() {
    let replay = base_replay(
        GameMode::Std,
        vec![ReplayEvent::Osu(rosu_replay::ReplayEventOsu {
            time_delta: 16,
            x: ft("1"),
            y: ft("2"),
            keys: Key(0),
        })],
    );
    let diagnostic = replay.pack_uncompressed().unwrap();
    assert!(Replay::from_bytes(&diagnostic).is_err());
    // And it differs from the standard form.
    assert_ne!(diagnostic, replay.pack().unwrap());
}

/// An empty-string life bar and an absent one both decode to no curve.
#[test]
fn test_life_bar_absent_forms() {
    let mut replay = base_replay(GameMode::Std, vec![]);
    replay.life_bar_graph = None;
    let decoded = Replay::from_bytes(&replay.pack().unwrap()).unwrap();
    assert_eq!(decoded.life_bar_graph, None);

    replay.life_bar_graph = Some(vec![]);
    let decoded = Replay::from_bytes(&replay.pack().unwrap()).unwrap();
    assert_eq!(decoded.life_bar_graph, None);
}

/// The varint guard: a length field that never terminates is refused.
#[test]
fn test_uleb_too_long() {
    let mut data = vec![0x0b];
    data.extend_from_slice(&[0x80; 10]);
    data.push(0x01);
    let mut unpacker = Unpacker::new(data);
    match unpacker.unpack_string() {
        Err(ReplayError::InvalidFormat(_)) => {}
        other => panic!("expected invalid format, got {:?}", other),
    }
}

/// An integer-valued life value is written back without a fractional part.
#[test]
fn test_life_value_reformat() {
    let states = vec![
        LifeBarState {
            time: 0,
            life: ft("1.0"),
        },
        LifeBarState {
            time: 500,
            life: ft("0.50"),
        },
    ];
    let text = encode_lifebar(&states);
    assert_eq!(text, b"0|1,500|0.50,".to_vec());
}

/// An unknown mode byte decodes to Std rather than failing.
#[test]
fn test_unknown_mode_byte_falls_back() {
    let replay = base_replay(GameMode::Std, vec![]);
    let mut packed = replay.pack().unwrap();
    packed[0] = 255;
    let decoded = Replay::from_bytes(&packed).unwrap();
    assert_eq!(decoded.mode, GameMode::Std);
}

/// The skip-frame pair is recognised by numeric value, not by spelling.
#[test]
fn test_skip_frames_by_value() {
    let text = "0|256.0|-500.0|0,0|2.56e2|-5e2|0,16|1|2|0";
    let (events, _) = Unpacker::parse_replay_data(text, GameMode::Std).unwrap();
    assert_eq!(events.len(), 1);

    // Outside the first two records the same pair is kept.
    let text = "1|1|1|0,2|2|2|0,3|256|-500|0";
    let (events, _) = Unpacker::parse_replay_data(text, GameMode::Std).unwrap();
    assert_eq!(events.len(), 3);
}

/// A seed sentinel anywhere but last is an ordinary event.
#[test]
fn test_seed_sentinel_only_last() {
    let text = "-12345|1|2|7,16|1|2|0";
    let (events, seed) = Unpacker::parse_replay_data(text, GameMode::Std).unwrap();
    assert_eq!(events.len(), 2);
    assert_eq!(seed, None);
    assert_eq!(events[0].time_delta(), -12345);
}

/// The whole-record decoder raises the error of the first malformed field.
#[test]
fn test_whole_record_error_kinds() {
    // Empty input ends before the mode byte.
    assert!(matches!(
        Replay::from_bytes(&[]),
        Err(ReplayError::UnexpectedEof)
    ));

    // A bad string marker right after the header.
    let mut data = vec![0u8, 1, 0, 0, 0, 0x2a];
    match Replay::from_bytes(&data) {
        Err(ReplayError::InvalidStringByte(b)) => assert_eq!(b, 0x2a),
        other => panic!("expected invalid marker, got {:?}", other),
    }

    // A corrupt compressed block: the bytes between the block length and the
    // identifier are flipped, so decompression fails.
    data = base_replay(GameMode::Std, vec![]).pack().unwrap();
    let n = data.len();
    for b in &mut data[n - 12..n - 8] {
        *b ^= 0xA5;
    }
    assert!(matches!(
        Replay::from_bytes(&data),
        Err(ReplayError::Lzma(_))
    ));
}
