use samply::text::chars_of;
use samply::v8_fields::{
    parse_hex, parse_inlined_functions, parse_inlining_positions, parse_location, parse_name,
    parse_positions,
};
use samply::v8_inline::{canonical_tier_marker, make_frame, V8Frame, V8InlineMap};

// Real records, plus a
// second object at the *same address* with a different size to exercise the
// address-reuse disambiguation.
const LOG: &str = "\
code-creation,JS,9,337804,0x2db9f56b98,17,benchFn /tmp/repro_inline/repro.js:37:17,0x3fb3a2e558,~
code-creation,JS,9,337915,0x2db9f56c50,140,getNoiseRatio /tmp/repro_inline/repro.js:26:23,0x3fb3a2e510,~
code-creation,JS,9,338046,0x2db9f56db0,186,rollingMean /tmp/repro_inline/repro.js:10:21,0x3fb3a2e4c8,~
code-creation,JS,12,344459,0xffffc73cb7a0,1716,benchFn /tmp/repro_inline/repro.js:37:17,0x3fb3a2e558,*'
code-source-info,0xffffc73cb7a0,85,1284,1324,C20O1284C40O914I0C172O358I1C228O975I0,F0O1298F1O1046I0,S0x3fb3a2e510S0x3fb3a2e4c8
code-creation,JS,12,999999,0xffffc73cb7a0,512,other /tmp/repro_inline/repro.js:99:1,0x3fb3a2dead,*'
code-source-info,0xffffc73cb7a0,85,1,2,C0O1I0,F0O1,S0x3fb3a2e558";

fn names(frames: Vec<V8Frame>) -> Vec<String> {
    frames.into_iter().map(|f| f.name).collect()
}

#[test]
fn reconstructs_full_inline_chain() {
    let map = V8InlineMap::from_log_str(LOG);
    let addr = 0xffffc73cb7a0;
    let size = 1716;

    // PC at code_offset 172 is inside inlined rollingMean (I1): the chain is
    // rollingMean -> getNoiseRatio (the code object's own benchFn frame is
    // added by the caller, so it is not returned here).
    // The inlined frames carry the *outer* code object's tier marker, which
    // V8 logs as the context-specialized `*'` but is normalized to the bare
    // jitdump tier marker `*` so it coalesces with the standalone frame.
    assert_eq!(
        names(map.lookup(addr, size, 180).unwrap()),
        vec![
            "JS:*rollingMean /tmp/repro_inline/repro.js:10:21",
            "JS:*getNoiseRatio /tmp/repro_inline/repro.js:26:23",
        ]
    );
    // PC at code_offset 40 is inside inlined getNoiseRatio (I0).
    assert_eq!(
        names(map.lookup(addr, size, 100).unwrap()),
        vec!["JS:*getNoiseRatio /tmp/repro_inline/repro.js:26:23"]
    );
    // PC at code_offset 20 is in benchFn itself -> no inlined frames.
    assert_eq!(map.lookup(addr, size, 30), None);

    // Frame metadata is resolved from the sfi map.
    let leaf = &map.lookup(addr, size, 180).unwrap()[0];
    assert_eq!(leaf.file, "/tmp/repro_inline/repro.js");
    assert_eq!(leaf.line, 10);
    assert_eq!(leaf.col, 21);
}

#[test]
fn address_reuse_is_disambiguated_by_size() {
    let map = V8InlineMap::from_log_str(LOG);
    let addr = 0xffffc73cb7a0;
    // The size-512 object reused the address; its only inlined function is
    // benchFn. Looking it up by its own size must not return the size-1716
    // object's chain.
    assert_eq!(
        names(map.lookup(addr, 512, 5).unwrap()),
        vec!["JS:*benchFn /tmp/repro_inline/repro.js:37:17"]
    );
    // The size-1716 object is still intact.
    assert_eq!(
        names(map.lookup(addr, 1716, 100).unwrap()),
        vec!["JS:*getNoiseRatio /tmp/repro_inline/repro.js:26:23"]
    );
}

#[test]
fn anonymous_functions_get_a_location_based_name() {
    // Anonymous inlined function (empty name, valid location) must not yield
    // an empty frame name. The tier marker is normalized to the bare `*`.
    let f = make_frame("*'", "", "/path/x.ts:17:32");
    assert_eq!(f.name, "JS:* /path/x.ts:17:32");
    assert_eq!((f.file.as_str(), f.line, f.col), ("/path/x.ts", 17, 32));
}

#[test]
fn tier_marker_is_normalized_to_jitdump_convention() {
    // Bare tier markers pass through unchanged.
    assert_eq!(canonical_tier_marker("~"), "~");
    assert_eq!(canonical_tier_marker("^"), "^");
    assert_eq!(canonical_tier_marker("+"), "+");
    assert_eq!(canonical_tier_marker("*"), "*");
    // Context-specialized optimized markers drop the trailing quote.
    assert_eq!(canonical_tier_marker("+'"), "+");
    assert_eq!(canonical_tier_marker("*'"), "*");
    // OSR-entry optimized markers drop the leading `o`.
    assert_eq!(canonical_tier_marker("o+"), "+");
    assert_eq!(canonical_tier_marker("o*"), "*");
}

#[test]
fn positions_are_sorted_when_they_are_read() {
    let log = "\
code-creation,JS,9,1,0x10,8,f /x.js:1:2,0x20,~
code-creation,JS,9,1,0x100,64,g /x.js:3:4,0x30,o+'
code-source-info,0x100,85,1,2,C40O1C8O2I0,F0O1,S0x20";
    let map = V8InlineMap::from_log_str(log);
    assert_eq!(map.lookup(0x100, 64, 7), None);
    assert_eq!(
        names(map.lookup(0x100, 64, 8).unwrap()),
        vec!["JS:+f /x.js:1:2"]
    );
    assert_eq!(
        names(map.lookup(0x100, 64, 39).unwrap()),
        vec!["JS:+f /x.js:1:2"]
    );
    assert_eq!(map.lookup(0x100, 64, 40), None);
    assert_eq!(map.lookup(0x100, 65, 8), None);
    assert_eq!(map.lookup(0x101, 64, 8), None);
}

#[test]
fn names_may_come_after_the_code_they_are_inlined_into() {
    let log = "\
code-creation,JS,9,1,0x100,64,g /x.js:3:4,0x30,*\r
code-source-info,0x100,85,1,2,C0O2I0,F0O1F1O2I0,S0x20S0x99\r
code-creation,JS,9,1,0x10,8,f /x.js:1:2,0x20,~
code-creation,JS,9,1,0x11,8,later /x.js:1:2,0x20,^";
    let map = V8InlineMap::from_log_str(log);
    assert_eq!(
        names(map.lookup(0x100, 64, 0).unwrap()),
        vec!["JS:*f /x.js:1:2"]
    );
}

#[test]
fn functions_without_a_record_have_no_name() {
    let log = "\
code-creation,JS,9,1,0x100,64,g /x.js:3:4,0x30
code-source-info,0x100,85,1,2,C0O2I1,F0O1FO3I0,S0x99";
    let map = V8InlineMap::from_log_str(log);
    let frames = map.lookup(0x100, 64, 1).unwrap();
    assert_eq!(frames, vec![make_frame("", "", "")]);
    assert_eq!(frames[0].name, "JS:");
    assert_eq!(V8Frame::default().name, "");
}

#[test]
fn ids_outside_the_tree_give_no_frames() {
    let log = "\
code-creation,JS,9,1,0x100,64,g /x.js:3:4,0x30,*
code-source-info,0x100,85,1,2,C0O2I0C8O2I7,F0O1I9F0O2,S0x30";
    let map = V8InlineMap::from_log_str(log);
    assert_eq!(map.lookup(0x100, 64, 0), None);
    assert_eq!(map.lookup(0x100, 64, 8), None);
}

#[test]
fn cycles_in_the_tree_are_followed_only_so_far() {
    let log = "\
code-creation,JS,9,1,0x100,64,g /x.js:3:4,0x30,*
code-source-info,0x100,85,1,2,C0O2I0,F0O1I0,S0x30";
    let map = V8InlineMap::from_log_str(log);
    assert_eq!(map.lookup(0x100, 64, 0).unwrap().len(), 65);
}

#[test]
fn logs_without_inlining_give_no_map() {
    assert!(V8InlineMap::from_log_file(None).is_none());
    assert!(V8InlineMap::from_log_file(Some("")).is_none());
    assert!(V8InlineMap::from_log_file(Some(
        "code-source-info,0x100,85,1,2,C0O2I0,F0O1I0,S0x30"
    ))
    .is_none());
    assert!(V8InlineMap::from_log_file(Some(LOG)).is_some());
    assert_eq!(V8InlineMap::default().lookup(0, 0, 0), None);
}

#[test]
fn numbers_of_more_than_32_bits_are_refused() {
    let log = "\
code-creation,JS,9,1,0x100,64,g /x.js:3:4,0x30,*
code-source-info,0x100,85,1,2,C4294967296O2I0,F0O1,S0x30";
    assert!(V8InlineMap::try_from_log_str(log).is_none());
    let log = "\
code-creation,JS,9,1,0x100,64,g /x.js:3:4,0x30,*
code-source-info,0x100,85,1,2,C4294967295O2I0,F0O1,S0x30";
    assert!(V8InlineMap::try_from_log_str(log).is_some());
}

#[test]
fn the_fields_of_records_are_read() {
    let hex = |s: &str| parse_hex(&chars_of(s));
    assert_eq!(hex("0x3fb3a2e510"), Some(0x3fb3a2e510));
    assert_eq!(hex("ff"), Some(255));
    assert_eq!(hex("0x"), None);
    assert_eq!(hex("0xg"), None);
    assert_eq!(hex("10000000000000000"), None);
    let name = |s: &str| parse_name(&chars_of(s));
    assert_eq!(
        name("getNoiseRatio /path/x.ts:28:23"),
        ("getNoiseRatio".to_owned(), "/path/x.ts:28:23".to_owned())
    );
    assert_eq!(name("bare"), ("bare".to_owned(), "".to_owned()));
    let location = |s: &str| parse_location(&chars_of(s));
    assert_eq!(location("/path/x.ts:28:23"), ("/path/x.ts".to_owned(), 28, 23));
    assert_eq!(location("a:b:7:x"), ("a:b".to_owned(), 7, 0));
    assert_eq!(location("12"), ("".to_owned(), 0, 12));
    let positions = |s: &str| parse_positions(&chars_of(s));
    assert_eq!(
        positions("C20O1284C40O914I0"),
        Some(vec![(20, 1284, None), (40, 914, Some(0))])
    );
    assert_eq!(positions("C20O1C30"), Some(vec![(20, 1, None)]));
    let inlining = |s: &str| parse_inlining_positions(&chars_of(s));
    assert_eq!(
        inlining("F0O1298F1O1046I0"),
        Some(vec![(0, 1298, None), (1, 1046, Some(0))])
    );
    assert_eq!(inlining("FO5"), Some(vec![(-1, 5, None)]));
    assert_eq!(inlining("F4294967295O5"), Some(vec![(-1, 5, None)]));
    assert_eq!(
        parse_inlined_functions(&chars_of("S0x3fb3a2e510S0x3fb3a2e4c8")),
        vec![0x3fb3a2e510, 0x3fb3a2e4c8]
    );
}

#[test]
fn nothing_is_inlined_where_no_record_counts() {
    let creation = "code-creation,JS,12,1,0x10,100,f /a.js:1:1,0x20,*";
    let info = "code-source-info,0x10,85,1,2,C0O1I0,F0O1,S0x20";
    let frames = |lines: &[&str]| V8InlineMap::from_log_str(&lines.join("\n")).lookup(0x10, 100, 5);
    assert!(frames(&[creation, info]).is_some());
    // The code is created only later, at another address, or without a usable size.
    assert!(frames(&[info, creation]).is_none());
    assert!(frames(&["code-creation,JS,12,1,0x11,100,f,0x20,*", info]).is_none());
    assert!(frames(&["code-creation,JS,12,1,0x10,x,f,0x20,*", info]).is_none());
    assert!(frames(&["code-creation,JS,12,1,0x10,100,f", info]).is_none());
    // There is no tree, or there are too few fields.
    assert!(frames(&[creation, "code-source-info,0x10,85,1,2,C0O1I0,,S0x20"]).is_none());
    assert!(frames(&[creation, "code-source-info,0x10,85,1,2,C0O1I0,F0O1"]).is_none());
}

#[test]
fn tables_are_read_up_to_what_is_malformed() {
    let positions = |s: &str| parse_positions(&chars_of(s)).unwrap();
    let table = vec![(1, 2, None), (3, 4, Some(5))];
    for tail in ["", "X", "C", "C9", "C9X", "IC1O1", " C1O1"] {
        assert_eq!(positions(&format!("C1O2C3O4I5{tail}")), table);
    }
    let inlining = |s: &str| parse_inlining_positions(&chars_of(s)).unwrap();
    let table = vec![(0, 2, None), (-1, 4, Some(5))];
    for tail in ["", "X", "F", "F9", "F9X", "IF1O1", " F1O1"] {
        assert_eq!(inlining(&format!("F0O2FO4I5{tail}")), table);
    }
}
