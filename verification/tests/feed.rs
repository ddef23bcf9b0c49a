use barfeed::engine::Engine;
use barfeed::protocol::{Block, ClientEvent, Header};

fn sample_event() -> ClientEvent {
    ClientEvent {
        name: String::from("clock"),
        instance: String::from("main"),
        x: 100,
        y: 20,
        button: 1,
        event: 7,
        relative_x: 12,
        relative_y: 9,
        width: 150,
        height: 24,
    }
}

#[test]
fn header_version_only_is_exact() {
    let h = Header::new(1);
    assert_eq!(h.to_json(), "{\"version\":1}");
}

#[test]
fn header_with_click_events_only() {
    let mut h = Header::new(1);
    h.click_events = Some(true);
    assert_eq!(h.to_json(), "{\"version\":1,\"click_events\":true}");
    h.click_events = Some(false);
    assert_eq!(h.to_json(), "{\"version\":1,\"click_events\":false}");
}

#[test]
fn header_with_const_signal_only() {
    let mut h = Header::new(1);
    h.const_signal = Some(10);
    assert_eq!(h.to_json(), "{\"version\":1,\"const_signal\":10}");
}

#[test]
fn header_with_stop_signal_only() {
    let mut h = Header::new(1);
    h.stop_signal = Some(19);
    assert_eq!(h.to_json(), "{\"version\":1,\"stop_signal\":19}");
}

#[test]
fn header_with_all_fields() {
    let mut h = Header::new(1);
    h.click_events = Some(true);
    h.const_signal = Some(18);
    h.stop_signal = Some(19);
    assert_eq!(
        h.to_json(),
        "{\"version\":1,\"click_events\":true,\"const_signal\":18,\"stop_signal\":19}"
    );
}

#[test]
fn header_json_is_valid_json() {
    let mut h = Header::new(1);
    h.click_events = Some(true);
    let v: serde_json::Value = serde_json::from_str(&h.to_json()).unwrap();
    assert_eq!(v.get("version").unwrap().as_u64(), Some(1));
    assert_eq!(v.get("click_events").unwrap().as_bool(), Some(true));
    assert!(v.get("const_signal").is_none());
    assert!(v.get("stop_signal").is_none());
}

#[test]
fn block_minimal_is_exact() {
    let b = Block::new(String::from("A"));
    assert_eq!(b.to_json(), "{\"full_text\":\"A\"}");
}

#[test]
fn block_mutators_are_additive() {
    let mut b = Block::new(String::from("12:00:00  2024.01.01"));
    b.with_seperator();
    assert_eq!(
        b.to_json(),
        "{\"full_text\":\"12:00:00  2024.01.01\",\"separator\":true}"
    );
    b.color(String::from("#FFFFFF"));
    b.background(String::from("#00000080"));
    assert_eq!(
        b.to_json(),
        "{\"full_text\":\"12:00:00  2024.01.01\",\"color\":\"#FFFFFF\",\
         \"background\":\"#00000080\",\"separator\":true}"
    );
}

#[test]
fn block_unset_fields_never_appear() {
    let mut b = Block::new(String::from("text"));
    b.color(String::from("#112233"));
    let json = b.to_json();
    assert!(json.contains("\"color\":\"#112233\""));
    for key in [
        "short_text",
        "name",
        "background",
        "border",
        "min_width",
        "align",
        "instance",
        "urgent",
        "separator",
        "markup",
    ] {
        assert!(!json.contains(key), "unset key {} appeared in {}", key, json);
    }
}

#[test]
fn block_all_fields_in_declaration_order() {
    let mut b = Block::new(String::from("t"));
    b.short_text = Some(String::from("s"));
    b.name = Some(String::from("n"));
    b.color = Some(String::from("#010203"));
    b.background = Some(String::from("#040506"));
    b.border = Some(String::from("#070809"));
    b.border_top = Some(1);
    b.border_right = Some(2);
    b.border_bottom = Some(3);
    b.border_left = Some(4);
    b.min_width = Some(300);
    b.align = Some(String::from("center"));
    b.instance = Some(String::from("i"));
    b.urgent = Some(false);
    b.separator = Some(true);
    b.separator_block_width = Some(9);
    b.markup = Some(String::from("pango"));
    assert_eq!(
        b.to_json(),
        "{\"full_text\":\"t\",\"short_text\":\"s\",\"name\":\"n\",\"color\":\"#010203\",\
         \"background\":\"#040506\",\"border\":\"#070809\",\"border_top\":1,\
         \"border_right\":2,\"border_bottom\":3,\"border_left\":4,\"min_width\":300,\
         \"align\":\"center\",\"instance\":\"i\",\"urgent\":false,\"separator\":true,\
         \"separator_block_width\":9,\"markup\":\"pango\"}"
    );
    let v: serde_json::Value = serde_json::from_str(&b.to_json()).unwrap();
    assert_eq!(v.as_object().unwrap().len(), 17);
}

#[test]
fn block_text_is_escaped() {
    let b = Block::new(String::from("a\"b\\c\nd\te\u{8}f\u{c}g\rh\u{1f}i"));
    assert_eq!(
        b.to_json(),
        "{\"full_text\":\"a\\\"b\\\\c\\nd\\te\\bf\\fg\\rh\\u001fi\"}"
    );
    let v: serde_json::Value = serde_json::from_str(&b.to_json()).unwrap();
    assert_eq!(
        v.get("full_text").unwrap().as_str(),
        Some("a\"b\\c\nd\te\u{8}f\u{c}g\rh\u{1f}i")
    );
}

#[test]
fn stream_opens_with_header_line_and_bracket() {
    let mut e = Engine::new(Header::new(1));
    let opening = e.start();
    assert_eq!(opening, "{\"version\":1}\n[");
}

#[test]
fn first_two_snapshots_in_order() {
    let mut e = Engine::new(Header::new(1));
    let mut out = e.start();
    out.push_str(&e.tick(&Block::new(String::from("A"))));
    out.push_str(&e.tick(&Block::new(String::from("B"))));
    assert_eq!(
        out,
        "{\"version\":1}\n[[{\"full_text\":\"A\"}],[{\"full_text\":\"B\"}],"
    );
}

#[test]
fn n_ticks_emit_n_fragments_and_never_close() {
    let mut e = Engine::new(Header::new(1));
    let mut out = e.start();
    for i in 0..5 {
        out.push_str(&e.tick(&Block::new(format!("t{}", i))));
    }
    assert_eq!(out.matches("[{").count(), 5);
    assert_eq!(out.matches("}],").count(), 5);
    assert_eq!(out.matches(']').count(), 5);
    assert!(out.ends_with("],"));
}

#[test]
fn bracket_in_block_text_stays_inside_the_string() {
    let mut e = Engine::new(Header::new(1));
    let _ = e.start();
    let frag = e.tick(&Block::new(String::from("a]b")));
    assert_eq!(frag, "[{\"full_text\":\"a]b\"}],");
    assert!(frag.ends_with("],"));
}

#[test]
fn event_roundtrip_all_ten_fields() {
    let e = sample_event();
    let json = e.to_json();
    assert_eq!(
        json,
        "{\"name\":\"clock\",\"instance\":\"main\",\"x\":100,\"y\":20,\"button\":1,\
         \"event\":7,\"relative_x\":12,\"relative_y\":9,\"width\":150,\"height\":24}"
    );
    let d = ClientEvent::decode(&json).unwrap();
    assert_eq!(d.name, "clock");
    assert_eq!(d.instance, "main");
    assert_eq!(d.x, 100);
    assert_eq!(d.y, 20);
    assert_eq!(d.button, 1);
    assert_eq!(d.event, 7);
    assert_eq!(d.relative_x, 12);
    assert_eq!(d.relative_y, 9);
    assert_eq!(d.width, 150);
    assert_eq!(d.height, 24);
}

#[test]
fn event_roundtrip_with_escapes() {
    let mut e = sample_event();
    e.name = String::from("a\"b\\c\nd\u{1f}e");
    e.instance = String::from("");
    let d = ClientEvent::decode(&e.to_json()).unwrap();
    assert_eq!(d.name, e.name);
    assert_eq!(d.instance, "");
}

#[test]
fn event_decode_accepts_whitespace_and_unknown_fields() {
    let json = " {\n  \"name\": \"n\", \"instance\": \"i\", \"x\": 1, \"y\": 2,\n  \
                \"button\": 3, \"event\": 4, \"relative_x\": 5, \"relative_y\": 6,\n  \
                \"width\": 7, \"height\": 8, \"scale\": 2, \"note\": \"hi\", \
                \"flag\": true, \"gone\": null\n} ";
    let d = ClientEvent::decode(json).unwrap();
    assert_eq!(d.name, "n");
    assert_eq!(d.height, 8);
}

#[test]
fn event_decode_ignores_structured_unknown_values() {
    let json = "{\"a\":[],\"name\":\"n\",\"instance\":\"i\",\"x\":1,\"y\":2,\
                \"button\":3,\"event\":4,\"relative_x\":5,\"relative_y\":6,\
                \"width\":7,\"height\":8}";
    let d = ClientEvent::decode(json).unwrap();
    assert_eq!(d.name, "n");
    assert_eq!(d.height, 8);
    let json2 = "{\"name\":\"n\",\"instance\":\"i\",\"x\":1,\"y\":2,\
                 \"button\":3,\"event\":4,\"relative_x\":5,\"relative_y\":6,\
                 \"width\":7,\"height\":8,\
                 \"meta\":{\"pos\":[1,2,{\"deep\":[true,null]}],\"tag\":\"t\"},\
                 \"list\":[ [ ], { } , \"s\" ]}";
    let d2 = ClientEvent::decode(json2).unwrap();
    assert_eq!(d2.width, 7);
}

#[test]
fn event_decode_ignores_general_numbers_in_unknown_values() {
    let json = "{\"neg\":-12,\"frac\":3.25,\"exp\":6.02e23,\"negexp\":-1.5E-8,\
                \"big\":18446744073709551616,\"zero\":-0,\
                \"name\":\"n\",\"instance\":\"i\",\"x\":1,\"y\":2,\
                \"button\":3,\"event\":4,\"relative_x\":5,\"relative_y\":6,\
                \"width\":7,\"height\":8}";
    let d = ClientEvent::decode(json).unwrap();
    assert_eq!(d.x, 1);
}

#[test]
fn event_decode_rejects_malformed_unknown_values() {
    let base = "\"name\":\"n\",\"instance\":\"i\",\"x\":1,\"y\":2,\
                \"button\":3,\"event\":4,\"relative_x\":5,\"relative_y\":6,\
                \"width\":7,\"height\":8";
    assert!(ClientEvent::decode(&format!("{{\"a\":[1,],{}}}", base)).is_err());
    assert!(ClientEvent::decode(&format!("{{\"a\":[1,2,{}}}", base)).is_err());
    assert!(ClientEvent::decode(&format!("{{\"a\":1.,{}}}", base)).is_err());
    assert!(ClientEvent::decode(&format!("{{\"a\":.5,{}}}", base)).is_err());
    assert!(ClientEvent::decode(&format!("{{\"a\":1e,{}}}", base)).is_err());
    assert!(ClientEvent::decode(&format!("{{\"a\":-,{}}}", base)).is_err());
    assert!(ClientEvent::decode(&format!("{{\"a\":{{\"k\" 1}},{}}}", base)).is_err());
}

#[test]
fn event_decode_known_numeric_fields_stay_strict() {
    let json = "{\"name\":\"n\",\"instance\":\"i\",\"x\":-1,\"y\":2,\
                \"button\":3,\"event\":4,\"relative_x\":5,\"relative_y\":6,\
                \"width\":7,\"height\":8}";
    assert!(ClientEvent::decode(json).is_err());
    let json2 = "{\"name\":\"n\",\"instance\":\"i\",\"x\":1.5,\"y\":2,\
                 \"button\":3,\"event\":4,\"relative_x\":5,\"relative_y\":6,\
                 \"width\":7,\"height\":8}";
    assert!(ClientEvent::decode(json2).is_err());
}

#[test]
fn event_decode_surrogate_pair() {
    let json = "{\"name\":\"\\uD83D\\uDE00!\",\"instance\":\"i\",\"x\":1,\"y\":2,\
                \"button\":3,\"event\":4,\"relative_x\":5,\"relative_y\":6,\
                \"width\":7,\"height\":8}";
    let d = ClientEvent::decode(json).unwrap();
    assert_eq!(d.name, "\u{1F600}!");
    let cross: serde_json::Value = serde_json::from_str(json).unwrap();
    assert_eq!(cross.get("name").unwrap().as_str(), Some("\u{1F600}!"));
}

#[test]
fn event_decode_rejects_lone_surrogates() {
    let high = "{\"name\":\"\\uD83D\",\"instance\":\"i\",\"x\":1,\"y\":2,\
                \"button\":3,\"event\":4,\"relative_x\":5,\"relative_y\":6,\
                \"width\":7,\"height\":8}";
    assert!(ClientEvent::decode(high).is_err());
    let low = "{\"name\":\"\\uDE00\",\"instance\":\"i\",\"x\":1,\"y\":2,\
               \"button\":3,\"event\":4,\"relative_x\":5,\"relative_y\":6,\
               \"width\":7,\"height\":8}";
    assert!(ClientEvent::decode(low).is_err());
}

#[test]
fn event_decode_unicode_escape() {
    let json = "{\"name\":\"\\u0041\\u00e9\",\"instance\":\"i\",\"x\":1,\"y\":2,\
                \"button\":3,\"event\":4,\"relative_x\":5,\"relative_y\":6,\
                \"width\":7,\"height\":8}";
    let d = ClientEvent::decode(json).unwrap();
    assert_eq!(d.name, "A\u{e9}");
}

#[test]
fn event_decode_rejects_missing_field() {
    let json = "{\"name\":\"n\",\"instance\":\"i\",\"x\":1,\"y\":2,\
                \"button\":3,\"event\":4,\"relative_x\":5,\"relative_y\":6,\"width\":7}";
    assert!(ClientEvent::decode(json).is_err());
}

#[test]
fn event_decode_rejects_malformed_input() {
    assert!(ClientEvent::decode("").is_err());
    assert!(ClientEvent::decode("}").is_err());
    assert!(ClientEvent::decode("{}").is_err());
    assert!(ClientEvent::decode("not json").is_err());
    assert!(ClientEvent::decode("{\"name\":\"n\"").is_err());
    assert!(ClientEvent::decode("{\"name\":1}").is_err());
    assert!(ClientEvent::decode("{\"x\":\"1\"}").is_err());
    assert!(ClientEvent::decode("{\"name\":\"n\",}").is_err());
    assert!(ClientEvent::decode("{\"x\":01}").is_err());
    assert!(ClientEvent::decode("{\"x\":4294967296}").is_err());
    let dup = "{\"name\":\"a\",\"name\":\"b\",\"instance\":\"i\",\"x\":1,\"y\":2,\
               \"button\":3,\"event\":4,\"relative_x\":5,\"relative_y\":6,\
               \"width\":7,\"height\":8}";
    assert!(ClientEvent::decode(dup).is_err());
}

#[test]
fn malformed_input_leaves_engine_unchanged() {
    let mut e = Engine::new(Header::new(1));
    let mut out = e.start();
    out.push_str(&e.tick(&Block::new(String::from("A"))));
    assert!(e.read_event("{\"oops\"").is_err());
    assert!(e.read_event("").is_err());
    out.push_str(&e.tick(&Block::new(String::from("B"))));
    assert_eq!(
        out,
        "{\"version\":1}\n[[{\"full_text\":\"A\"}],[{\"full_text\":\"B\"}],"
    );
}

#[test]
fn engine_read_event_decodes_good_payload() {
    let mut e = Engine::new(Header::new(1));
    let _ = e.start();
    let ev = e.read_event(&sample_event().to_json()).unwrap();
    assert_eq!(ev.name, "clock");
    assert_eq!(ev.button, 1);
}

#[test]
fn event_json_matches_serde_view() {
    let v: serde_json::Value = serde_json::from_str(&sample_event().to_json()).unwrap();
    assert_eq!(v.get("name").unwrap().as_str(), Some("clock"));
    assert_eq!(v.get("relative_x").unwrap().as_u64(), Some(12));
    assert_eq!(v.as_object().unwrap().len(), 10);
}

#[test]
fn block_empty_text_is_exact() {
    let b = Block::new(String::new());
    assert_eq!(b.to_json(), "{\"full_text\":\"\"}");
}

#[test]
fn event_decode_rejects_empty_object() {
    assert!(ClientEvent::decode("{ }").is_err());
    assert!(ClientEvent::decode(" { } ").is_err());
}

#[test]
fn large_numbers_roundtrip() {
    let mut e = sample_event();
    e.x = u32::MAX;
    e.y = 0;
    let d = ClientEvent::decode(&e.to_json()).unwrap();
    assert_eq!(d.x, u32::MAX);
    assert_eq!(d.y, 0);
}
