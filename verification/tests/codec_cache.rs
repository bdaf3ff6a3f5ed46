use zz_build::cache::{CachedUnit, MtimeTable};
use zz_build::codec::{decode_unit, encode_unit};
use zz_build::name::Name;

fn s(x: &str) -> String {
    x.to_string()
}

fn name(parts: &[&str]) -> Name {
    Name { segments: parts.iter().map(|p| p.to_string()).collect() }
}

fn sample_unit() -> CachedUnit {
    CachedUnit {
        name: name(&["", "proj", "main"]),
        filepath: s("target/debug/c/proj_main.c"),
        sources: vec![s("src/main.zz"), s("src/util.zz")],
        deps: vec![name(&["", "proj", "util"]), name(&["", "ext", "io"])],
    }
}

#[test]
fn record_round_trip() {
    let u = sample_unit();
    let bytes = encode_unit(&u);
    let back = decode_unit(&bytes).expect("the encoded record must read back");
    assert_eq!(back.name.segments, u.name.segments);
    assert_eq!(back.filepath, u.filepath);
    assert_eq!(back.sources, u.sources);
    assert_eq!(back.deps.len(), 2);
    assert_eq!(back.deps[0].segments, u.deps[0].segments);
    assert_eq!(back.deps[1].segments, u.deps[1].segments);
}

#[test]
fn record_round_trip_empty_sets() {
    let u = CachedUnit {
        name: name(&["", "p"]),
        filepath: s(""),
        sources: vec![],
        deps: vec![],
    };
    let bytes = encode_unit(&u);
    let back = decode_unit(&bytes).expect("an empty record must read back");
    assert_eq!(back.name.segments, u.name.segments);
    assert_eq!(back.filepath, "");
    assert!(back.sources.is_empty());
    assert!(back.deps.is_empty());
}

#[test]
fn corrupt_record_is_rejected() {
    let u = sample_unit();
    let mut bytes = encode_unit(&u);
    // flip one byte in the middle
    let mid = bytes.len() / 2;
    bytes[mid] = bytes[mid].wrapping_add(1);
    // either the record decodes to something else or is rejected; a
    // changed length prefix or string byte must never pass as the original
    if let Some(back) = decode_unit(&bytes) {
        let orig = sample_unit();
        let same = back.name.segments == orig.name.segments
            && back.filepath == orig.filepath
            && back.sources == orig.sources
            && back.deps.len() == orig.deps.len();
        assert!(!same, "a corrupted record must not read back as the original");
    }
}

#[test]
fn truncated_record_is_rejected() {
    let u = sample_unit();
    let mut bytes = encode_unit(&u);
    bytes.pop();
    assert!(decode_unit(&bytes).is_none());
}

#[test]
fn trailing_garbage_is_rejected() {
    let u = sample_unit();
    let mut bytes = encode_unit(&u);
    bytes.push(0);
    assert!(decode_unit(&bytes).is_none());
}

#[test]
fn garbage_is_rejected() {
    let bytes = vec![7u8, 1, 2, 3];
    assert!(decode_unit(&bytes).is_none());
}

#[test]
fn staleness_all_sources_old_is_valid() {
    let u = sample_unit();
    let mut mt = MtimeTable::new();
    mt.record(s("src/main.zz"), 100);
    mt.record(s("src/util.zz"), 120);
    assert!(u.is_valid_for_reuse(&mt, 200, 300));
}

#[test]
fn staleness_touched_source_invalidates() {
    let u = sample_unit();
    let mut mt = MtimeTable::new();
    mt.record(s("src/main.zz"), 100);
    mt.record(s("src/util.zz"), 250);
    // util.zz is newer than the cache record
    assert!(!u.is_valid_for_reuse(&mt, 200, 300));
    // and newer than the output alone is just as fatal
    assert!(!u.is_valid_for_reuse(&mt, 300, 200));
}

#[test]
fn staleness_touching_unrelated_file_keeps_decision() {
    let u = sample_unit();
    let mut mt = MtimeTable::new();
    mt.record(s("src/main.zz"), 100);
    mt.record(s("src/util.zz"), 120);
    mt.record(s("src/other.zz"), 9999);
    assert!(u.is_valid_for_reuse(&mt, 200, 300));
}

#[test]
fn staleness_missing_source_is_stale() {
    let u = sample_unit();
    let mut mt = MtimeTable::new();
    mt.record(s("src/main.zz"), 100);
    assert!(!u.is_valid_for_reuse(&mt, 200, 300));
}

#[test]
fn staleness_no_sources_is_valid() {
    let u = CachedUnit {
        name: name(&["", "p"]),
        filepath: s("x"),
        sources: vec![],
        deps: vec![],
    };
    let mt = MtimeTable::new();
    assert!(u.is_valid_for_reuse(&mt, 0, 0));
}

#[test]
fn mtime_lookup_first_match_wins() {
    let mut mt = MtimeTable::new();
    mt.record(s("a"), 1);
    mt.record(s("a"), 2);
    assert_eq!(mt.mtime(&s("a")), Some(1));
    assert_eq!(mt.mtime(&s("b")), None);
}
