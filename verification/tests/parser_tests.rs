//! Tests for the line grammars and the whole-chart parser.
use bms_rs::bms::chart::BmsBuilder;
use bms_rs::bms::parser::{
    BgaParser, BmsParser, BpmParser, LoadError, MetadataParser, ObjParser, StopParser, WavParser,
};
use bms_rs::bms::ObjType;

#[test]
fn test_metadata_line() {
    let p = MetadataParser;
    let r = p.parse_line(&"#TITLE  My Song  ".to_string()).unwrap();
    assert_eq!(r.0, "TITLE");
    assert_eq!(r.1, "My Song");
    assert!(p.parse_line(&"#SUBTITLE x".to_string()).is_none());
    assert!(p.parse_line(&"TITLE x".to_string()).is_none());
}

#[test]
fn test_wav_line() {
    let p = WavParser::new();
    let r = p.parse_line(&"#WAV01 kick.wav".to_string()).unwrap();
    assert_eq!(r.0, "01");
    assert_eq!(r.1, "kick.wav");
    assert!(p.parse_line(&"#WAV01kick.wav".to_string()).is_none());
}

#[test]
fn test_bga_line() {
    let p = BgaParser::new();
    let r = p.parse_line(&"#BMPAA movie.mpg".to_string()).unwrap();
    assert_eq!(r.0, "AA");
    assert_eq!(r.1, "movie.mpg");
}

#[test]
fn test_bpm_line_base_and_named() {
    let p = BpmParser::new();
    let r = p.parse_line(&"#BPM 187.5".to_string()).unwrap();
    assert_eq!(r.0, "");
    assert_eq!(r.1, "187.5");
    let r2 = p.parse_line(&"#BPMA1 150".to_string()).unwrap();
    assert_eq!(r2.0, "A1");
    assert_eq!(r2.1, "150");
    assert!(p.parse_line(&"#BPMABC 1".to_string()).is_none());
}

#[test]
fn test_stop_line() {
    let p = StopParser::new();
    let r = p.parse_line(&"#STOP01 192".to_string()).unwrap();
    assert_eq!(r.0, "01");
    assert_eq!(r.1, "192");
}

#[test]
fn test_obj_parser_parse_line_is_inert() {
    // Channel data carries no key/value pair; the grammar applies only
    // through parse_line_into_bms.
    let p = ObjParser::new();
    assert!(p.parse_line(&"#00111:0101".to_string()).is_none());
}

#[test]
fn test_placement_channel_slots() {
    // An 8-character payload yields 4 slots at m, m+0.25, m+0.5,
    // m+0.75; a placeholder (00) slot yields no object.
    let mut b = BmsBuilder::new();
    let p = ObjParser::new();
    let matched = p
        .parse_line_into_bms(&"#00111:0100AB00".to_string(), &mut b)
        .unwrap();
    assert!(matched);
    assert_eq!(b.objects.len(), 2);
    assert_eq!(b.objects[0].measure, 1_000_000);
    assert_eq!(b.objects[1].measure, 1_500_000);
    assert_eq!(b.objects[0].channel, 11);
    match b.objects[0].objtype {
        ObjType::Note(k) => assert_eq!(k.key, 1),
        _ => panic!("expected a note"),
    }
    match b.objects[1].objtype {
        ObjType::Note(k) => assert_eq!(k.key, 371),
        _ => panic!("expected a note"),
    }
}

#[test]
fn test_placement_channel_kinds() {
    let mut b = BmsBuilder::new();
    let p = ObjParser::new();
    assert!(p.parse_line_into_bms(&"#00101:01".to_string(), &mut b).unwrap());
    assert!(p.parse_line_into_bms(&"#00104:02".to_string(), &mut b).unwrap());
    assert_eq!(b.objects.len(), 2);
    assert!(matches!(b.objects[0].objtype, ObjType::Auto(_)));
    assert!(matches!(b.objects[1].objtype, ObjType::BGA(_)));
}

#[test]
fn test_unknown_channel_falls_through() {
    let mut b = BmsBuilder::new();
    let p = ObjParser::new();
    assert!(!p.parse_line_into_bms(&"#00177:0101".to_string(), &mut b).unwrap());
    assert_eq!(b.objects.len(), 0);
}

#[test]
fn test_inline_tempo_channel() {
    let mut b = BmsBuilder::new();
    let p = ObjParser::new();
    // 0x78 = 120 BPM; the 00 slot is a placeholder.
    assert!(p.parse_line_into_bms(&"#00203:7800".to_string(), &mut b).unwrap());
    assert_eq!(b.timeline_builder.events.len(), 1);
}

#[test]
fn test_inline_tempo_malformed_is_fatal() {
    let mut b = BmsBuilder::new();
    let p = ObjParser::new();
    let r = p.parse_line_into_bms(&"#00203:ZZ".to_string(), &mut b);
    assert_eq!(r, Err(LoadError::InlineTempo));
}

#[test]
fn test_full_parse_and_time_resolution() {
    let source = b"#TITLE My Song\r\n#ARTIST Someone\n#BPM 120\n#WAV01 kick.wav\n#BMPAA back.mpg\n#00111:0100AB00\nrandom garbage line\n";
    let bms = BmsParser.parse(source).unwrap();
    assert_eq!(bms.title, "My Song");
    assert_eq!(bms.artist, "Someone");
    assert_eq!(bms.keysounds[1], Some("kick.wav".to_string()));
    assert_eq!(bms.bga_layers[370], Some("back.mpg".to_string()));
    assert_eq!(bms.objects.len(), 2);
    // At 120 BPM one measure lasts 2000 ms.
    assert_eq!(bms.objects[0].measure, 1_000_000);
    assert_eq!(bms.objects[0].time, 2000);
    assert_eq!(bms.objects[1].measure, 1_500_000);
    assert_eq!(bms.objects[1].time, 3000);
}

#[test]
fn test_missing_title_and_artist_defaults() {
    let bms = BmsParser.parse(b"#PLAYER 1\n").unwrap();
    assert_eq!(bms.title, "MISSING TITLE");
    assert_eq!(bms.artist, "MISSING ARTIST");
}

#[test]
fn test_malformed_tempo_literal_is_fatal() {
    assert!(matches!(BmsParser.parse(b"#BPM abc\n"), Err(LoadError::TempoValue)));
    assert!(matches!(BmsParser.parse(b"#BPM 0\n"), Err(LoadError::TempoValue)));
}

#[test]
fn test_undefined_named_reference_is_not_fatal() {
    // A named-tempo reference with no table entry is dropped silently:
    // the chart loads and the timeline stays at the single seed event.
    let bms = BmsParser.parse(b"#00108:AB\n").unwrap();
    assert_eq!(bms.timeline.events.len(), 1);
}

#[test]
fn test_named_tempo_and_stop_via_tables() {
    let source = b"#BPM 120\n#BPMA1 240\n#STOPS1 192\n#00408:A1\n#00209:S1\n";
    let bms = BmsParser.parse(source).unwrap();
    // The stop at measure 2 pauses one full measure (2000 ms), and the
    // tempo doubles at measure 4.
    assert_eq!(bms.timeline.time_from_measure(2_000_000), 6000);
    assert_eq!(bms.timeline.time_from_measure(4_000_000), 10000);
    assert_eq!(bms.timeline.time_from_measure(5_000_000), 11000);
    assert_eq!(bms.timeline.measure_from_time(5000), 2_000_000);
}

#[test]
fn test_malformed_stop_literal_is_fatal() {
    assert!(matches!(BmsParser.parse(b"#STOP01 xy\n"), Err(LoadError::StopValue)));
}

#[test]
fn test_length_override_line() {
    let source = b"#BPM 120\n#00502:2.0\n";
    let bms = BmsParser.parse(source).unwrap();
    assert_eq!(bms.timeline.time_from_measure(5_000_000), 10000);
    assert_eq!(bms.timeline.time_from_measure(6_000_000), 14000);
}

#[test]
fn test_malformed_length_override_is_fatal() {
    assert!(matches!(BmsParser.parse(b"#00502:abc\n"), Err(LoadError::MeasureLength)));
    assert!(matches!(BmsParser.parse(b"#00502:0\n"), Err(LoadError::MeasureLength)));
}

#[test]
fn test_unrecognized_lines_are_ignored() {
    let bms = BmsParser.parse(b"; comment\n#UNKNOWN x\n\n#WAVxx path\n").unwrap();
    // "xx" is no valid base-36 token? It is: x=33, so key 33*36+33.
    assert_eq!(bms.keysounds[1221], Some("path".to_string()));
    assert_eq!(bms.objects.len(), 0);
}

#[test]
fn test_metadata_map_keeps_entries() {
    let bms = BmsParser.parse(b"#GENRE jazz\n#RANK 2\n").unwrap();
    assert_eq!(bms.metadata.len(), 2);
    assert_eq!(bms.metadata[0], ("GENRE".to_string(), "jazz".to_string()));
    assert_eq!(bms.metadata[1], ("RANK".to_string(), "2".to_string()));
}

#[test]
fn test_parse_str_matches_parse() {
    let bytes = b"#TITLE T\n#BPM 150\n";
    let a = BmsParser.parse(bytes).unwrap();
    let c = BmsParser.parse_str("#TITLE T\n#BPM 150\n").unwrap();
    assert_eq!(a.title, c.title);
    assert_eq!(a.timeline.events, c.timeline.events);
}

#[test]
fn test_objects_due_scan() {
    // Two keysounds at measures 1 and 1.5 (2000 and 3000 ms at 120
    // BPM): at 2500 ms only the first is due; a background trigger is
    // passed over without a time check.
    let source = b"#BPM 120\n#00101:0102\n#00104:0A\n";
    let bms = BmsParser.parse(source).unwrap();
    assert_eq!(bms.objects.len(), 3);
    let (next, keys) = bms.objects_due(0, 2500);
    let sound_keys: Vec<usize> = keys.iter().map(|k| k.key).collect();
    assert_eq!(sound_keys, vec![1]);
    // The scan stopped at the second keysound; whether the background
    // trigger before it was passed depends on object order.
    let (next2, keys2) = bms.objects_due(next, 4000);
    let keys2v: Vec<usize> = keys2.iter().map(|k| k.key).collect();
    assert_eq!(keys2v, vec![2]);
    assert_eq!(next2, 3);
}

#[test]
fn test_determinism_of_full_parse() {
    let bytes = b"#BPM 120\n#00203:7800\n#00111:0101\n";
    let a = BmsParser.parse(bytes).unwrap();
    let b = BmsParser.parse(bytes).unwrap();
    assert_eq!(a.timeline.events, b.timeline.events);
    assert_eq!(a.objects.len(), b.objects.len());
}
