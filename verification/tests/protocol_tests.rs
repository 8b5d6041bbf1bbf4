use i3bstatus::emitter::emit_step;
use i3bstatus::emitter::EmitterState;
use i3bstatus::json::block_json;
use i3bstatus::json::decode_block;
use i3bstatus::json::decode_header;
use i3bstatus::json::decode_tick;
use i3bstatus::json::header_json;
use i3bstatus::json::startup_line;
use i3bstatus::json::tick_line;
use i3bstatus::model::block_ok;
use i3bstatus::model::I3BarBlock;
use i3bstatus::model::I3BarHeader;
use i3bstatus::probes::i3b_clock;
use i3bstatus::probes::i3b_loadavg;
use i3bstatus::probes::ClockInstant;

fn sample_blocks() -> Vec<I3BarBlock> {
    let t = ClockInstant::new(2024, 3, 5, 9, 7, 3).unwrap();
    vec![i3b_loadavg(1234, 876, 512), i3b_clock(&t)]
}

#[test]
fn header_default_fields() {
    let h = I3BarHeader::default();
    assert_eq!(h.version, 1);
    assert_eq!(h.stop_signal, 0);
    assert_eq!(h.cont_signal, 0);
    assert!(!h.click_events);
}

#[test]
fn startup_line_exact() {
    let h = I3BarHeader::default();
    assert_eq!(
        startup_line(&h),
        "{\"version\":1,\"stop_signal\":0,\"cont_signal\":0,\"click_events\":false}["
    );
}

#[test]
fn tick_line_exact() {
    let line = tick_line(&sample_blocks());
    assert_eq!(
        line,
        "[{\"full_text\":\"1.23:0.88:0.51\",\"color\":\"#ffffff\"},\
         {\"full_text\":\"2024-03-05 09:07:03\",\"color\":\"#ffffff\"}],"
    );
}

#[test]
fn tick_line_ends_with_bare_comma() {
    let line = tick_line(&sample_blocks());
    assert!(line.ends_with("],"));
    assert!(!line.ends_with(" ,"));
}

#[test]
fn tick_line_empty_payload() {
    let line = tick_line(&vec![]);
    assert_eq!(line, "[],");
}

#[test]
fn tick_line_is_valid_json_array() {
    let line = tick_line(&sample_blocks());
    let stripped = &line[..line.len() - 1];
    let v: serde_json::Value = serde_json::from_str(stripped).unwrap();
    let arr = v.as_array().unwrap();
    assert_eq!(arr.len(), 2);
    assert_eq!(arr[0]["full_text"], "1.23:0.88:0.51");
    assert_eq!(arr[0]["color"], "#ffffff");
    assert_eq!(arr[1]["full_text"], "2024-03-05 09:07:03");
    assert_eq!(arr[1]["color"], "#ffffff");
}

#[test]
fn header_json_is_valid_json_object() {
    let h = I3BarHeader::default();
    let v: serde_json::Value = serde_json::from_str(&header_json(&h)).unwrap();
    assert_eq!(v["version"], 1);
    assert_eq!(v["stop_signal"], 0);
    assert_eq!(v["cont_signal"], 0);
    assert_eq!(v["click_events"], false);
}

#[test]
fn tick_line_parses_with_rustc_serialize() {
    let line = tick_line(&sample_blocks());
    let stripped = &line[..line.len() - 1];
    let v = rustc_serialize::json::Json::from_str(stripped).unwrap();
    let arr = v.as_array().unwrap();
    assert_eq!(arr.len(), 2);
    let ft = arr[0].find("full_text").unwrap().as_string().unwrap();
    assert_eq!(ft, "1.23:0.88:0.51");
}

#[test]
fn block_round_trip() {
    for b in sample_blocks() {
        let line = block_json(&b);
        let back = decode_block(&line).unwrap();
        assert_eq!(back.full_text, b.full_text);
        assert_eq!(back.color, b.color);
    }
}

#[test]
fn header_round_trip() {
    let h = I3BarHeader::default();
    let back = decode_header(&header_json(&h)).unwrap();
    assert_eq!(back.version, 1);
    assert_eq!(back.stop_signal, 0);
    assert_eq!(back.cont_signal, 0);
    assert!(!back.click_events);
    let h2 = I3BarHeader { version: 42, stop_signal: 10, cont_signal: 12, click_events: true };
    let back2 = decode_header(&header_json(&h2)).unwrap();
    assert_eq!(back2.version, 42);
    assert_eq!(back2.stop_signal, 10);
    assert_eq!(back2.cont_signal, 12);
    assert!(back2.click_events);
}

#[test]
fn startup_line_round_trips_after_stripping_bracket() {
    let h = I3BarHeader::default();
    let line = startup_line(&h);
    assert!(line.ends_with('['));
    let back = decode_header(&line[..line.len() - 1]).unwrap();
    assert_eq!(back.version, 1);
}

#[test]
fn decoders_reject_malformed_lines() {
    assert!(decode_block("{}").is_none());
    assert!(decode_block("{\"full_text\":\"x\",\"color\":\"#ffffff\"").is_none());
    assert!(decode_block("").is_none());
    assert!(decode_header("{}").is_none());
    assert!(decode_header(
        "{\"version\":01,\"stop_signal\":0,\"cont_signal\":0,\"click_events\":false}"
    )
        .is_none());
    assert!(decode_header(
        "{\"version\":1,\"stop_signal\":0,\"cont_signal\":0,\"click_events\":maybe}"
    )
        .is_none());
}

#[test]
fn tick_line_round_trip() {
    let blocks = sample_blocks();
    let line = tick_line(&blocks);
    let back = decode_tick(&line).unwrap();
    assert_eq!(back.len(), blocks.len());
    for (a, b) in back.iter().zip(blocks.iter()) {
        assert_eq!(a.full_text, b.full_text);
        assert_eq!(a.color, b.color);
    }
    assert_eq!(decode_tick("[],").unwrap().len(), 0);
}

#[test]
fn tick_decoder_rejects_malformed_lines() {
    assert!(decode_tick("[]").is_none());
    assert!(decode_tick("").is_none());
    assert!(decode_tick("[{\"full_text\":\"x\",\"color\":\"#ffffff\"}]").is_none());
    assert!(decode_tick("[{\"full_text\":\"x\"}],").is_none());
}

#[test]
fn emit_step_header_once_then_ticks() {
    let h = I3BarHeader::default();
    let blocks = sample_blocks();
    let (first, st1) = emit_step(EmitterState::Startup, &h, &blocks);
    assert_eq!(first, startup_line(&h));
    assert!(matches!(st1, EmitterState::Sampling));
    let (second, st2) = emit_step(st1, &h, &blocks);
    assert_eq!(second, tick_line(&blocks));
    assert!(matches!(st2, EmitterState::Sampling));
    let (third, _) = emit_step(st2, &h, &blocks);
    assert_eq!(third, second);
}

#[test]
fn probe_blocks_are_frameable() {
    for b in sample_blocks() {
        assert!(block_ok(&b));
    }
    let bad = I3BarBlock { full_text: "he said \"hi\"".to_string(), color: "#ffffff".to_string() };
    assert!(!block_ok(&bad));
}
