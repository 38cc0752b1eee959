use lib::cache::{
    cache_compute_diff, cache_compute_src, cache_get_current, cache_get_obj_path,
    cache_increm_file, cache_serialize, CacheData, CacheMetadata, SourceProbe, SourceStat,
    INCREM_FILE, OBJ_FOLDER, RM_CACHE,
};
use lib::error::ConfigError;

fn meta(items: &[(&str, u64, u64)]) -> CacheMetadata {
    let mut m = CacheMetadata::new();
    for (name, size, mtime) in items {
        m.insert(name.to_string(), CacheData { size: *size, mtime: *mtime });
    }
    m
}

fn names(v: &[&str]) -> Vec<String> {
    v.iter().map(|s| s.to_string()).collect()
}

#[test]
fn paths_are_inside_the_cache_directory() {
    assert_eq!(cache_get_obj_path(), ".rm_cache/obj/");
    assert_eq!(cache_increm_file(), ".rm_cache/incremental.cache");
    assert_eq!(RM_CACHE, ".rm_cache");
    assert_eq!(INCREM_FILE, "incremental.cache");
    assert_eq!(OBJ_FOLDER, "obj");
}

#[test]
fn insert_replaces_and_get_reads_back() {
    let mut m = CacheMetadata::new();
    assert_eq!(m.len(), 0);
    m.insert("a.cpp".to_string(), CacheData { size: 10, mtime: 100 });
    m.insert("b.cpp".to_string(), CacheData { size: 20, mtime: 200 });
    m.insert("a.cpp".to_string(), CacheData { size: 11, mtime: 101 });
    assert_eq!(m.len(), 2);
    assert_eq!(m.get(&"a.cpp".to_string()), Some(CacheData { size: 11, mtime: 101 }));
    assert_eq!(m.get(&"b.cpp".to_string()), Some(CacheData { size: 20, mtime: 200 }));
    assert_eq!(m.get(&"c.cpp".to_string()), None);
}

#[test]
fn serialize_writes_name_mtime_size_lines() {
    let m = meta(&[("src/main.cpp", 1234, 1700000000), ("b.cpp", 0, 7)]);
    assert_eq!(cache_serialize(&m), "src/main.cpp 1700000000 1234\nb.cpp 7 0\n");
    assert_eq!(cache_serialize(&CacheMetadata::new()), "");
    let big = meta(&[("x", u64::MAX, 10)]);
    assert_eq!(cache_serialize(&big), "x 10 18446744073709551615\n");
}

#[test]
fn read_back_what_was_written() {
    let m = meta(&[("src/main.cpp", 1234, 1700000000), ("b.cpp", 0, 7), ("", 5, 6)]);
    let text = cache_serialize(&m);
    let back = cache_get_current(&text).unwrap();
    assert_eq!(back.len(), 3);
    for n in ["src/main.cpp", "b.cpp", ""] {
        assert_eq!(back.get(&n.to_string()), m.get(&n.to_string()));
    }
}

#[test]
fn empty_text_is_an_empty_cache() {
    assert_eq!(cache_get_current("").unwrap().len(), 0);
}

#[test]
fn reading_stops_at_the_first_empty_line() {
    let m = cache_get_current("a 1 2\n\nthis line is never read\n").unwrap();
    assert_eq!(m.len(), 1);
    assert_eq!(m.get(&"a".to_string()), Some(CacheData { size: 2, mtime: 1 }));
    let m = cache_get_current("a 1 2").unwrap();
    assert_eq!(m.get(&"a".to_string()), Some(CacheData { size: 2, mtime: 1 }));
}

#[test]
fn a_later_line_wins_and_plus_signs_are_read() {
    let m = cache_get_current("a 1 2\na +3 +4\n").unwrap();
    assert_eq!(m.len(), 1);
    assert_eq!(m.get(&"a".to_string()), Some(CacheData { size: 4, mtime: 3 }));
}

#[test]
fn wrong_field_count_is_invalid_syntax() {
    let err = cache_get_current("a 1 2\nb 1\n").err().unwrap();
    assert_eq!(
        err,
        ConfigError::InvalidSyntax {
            line: 2,
            message: "Cache file probably corrupted, either clean it or fix it".to_string(),
        }
    );
    let err = cache_get_current("a  1 2\n").err().unwrap();
    assert!(matches!(err, ConfigError::InvalidSyntax { line: 1, .. }));
}

#[test]
fn bad_numbers_are_cast_errors() {
    let err = cache_get_current("a 1 2\nb x 2\n").err().unwrap();
    assert_eq!(
        err,
        ConfigError::CommandFailed {
            cmd: "Cast".to_string(),
            message: "Failed to cast x in u64 for second parameter at line 2".to_string(),
        }
    );
    let err = cache_get_current("a 1 -2\n").err().unwrap();
    assert_eq!(
        err,
        ConfigError::CommandFailed {
            cmd: "Cast".to_string(),
            message: "Failed to cast -2 in u64 for third parameter at line 1".to_string(),
        }
    );
    let err = cache_get_current("a 18446744073709551616 2\n").err().unwrap();
    assert!(matches!(err, ConfigError::CommandFailed { .. }));
    let err = cache_get_current("a + 2\n").err().unwrap();
    assert!(matches!(err, ConfigError::CommandFailed { .. }));
    let m = cache_get_current("a 18446744073709551615 0\n").unwrap();
    assert_eq!(m.get(&"a".to_string()), Some(CacheData { size: 0, mtime: u64::MAX }));
}

#[test]
fn empty_previous_cache_rebuilds_everything() {
    let src = names(&["a.cpp", "b.cpp"]);
    let now = meta(&[("a.cpp", 1, 1), ("b.cpp", 2, 2)]);
    let res = cache_compute_diff(src.clone(), now, CacheMetadata::new()).unwrap();
    assert_eq!(res, src);
}

#[test]
fn only_changed_or_new_sources_are_rebuilt() {
    let src = names(&["a.cpp", "b.cpp", "c.cpp", "d.cpp", "e.cpp"]);
    let now = meta(&[("a.cpp", 1, 1), ("b.cpp", 2, 3), ("c.cpp", 3, 3), ("d.cpp", 4, 4)]);
    let old = meta(&[("a.cpp", 1, 1), ("b.cpp", 2, 2), ("c.cpp", 9, 3), ("e.cpp", 5, 5)]);
    let res = cache_compute_diff(src, now, old).unwrap();
    assert_eq!(res, names(&["b.cpp", "c.cpp", "d.cpp", "e.cpp"]));
}

#[test]
fn nothing_is_rebuilt_after_an_unchanged_update() {
    let src = names(&["a.cpp", "dir/b.cpp"]);
    let now = meta(&[("a.cpp", 1, 10), ("dir/b.cpp", 2, 20)]);
    let text = cache_serialize(&now);
    let cached = cache_get_current(&text).unwrap();
    let now_again = meta(&[("a.cpp", 1, 10), ("dir/b.cpp", 2, 20)]);
    let res = cache_compute_diff(src, now_again, cached).unwrap();
    assert!(res.is_empty());
}

#[test]
fn probes_build_the_cache() {
    let probes = vec![
        SourceProbe { path: "a.cpp".to_string(), stat: SourceStat::Found { size: 3, mtime: 4 } },
        SourceProbe { path: "b.cpp".to_string(), stat: SourceStat::Found { size: 5, mtime: 6 } },
        SourceProbe { path: "a.cpp".to_string(), stat: SourceStat::Found { size: 7, mtime: 8 } },
    ];
    let m = cache_compute_src(probes).unwrap();
    assert_eq!(m.len(), 2);
    assert_eq!(m.get(&"a.cpp".to_string()), Some(CacheData { size: 7, mtime: 8 }));
    assert_eq!(m.get(&"b.cpp".to_string()), Some(CacheData { size: 5, mtime: 6 }));
}

#[test]
fn the_first_failed_probe_gives_the_error() {
    let probes = vec![
        SourceProbe { path: "a.cpp".to_string(), stat: SourceStat::Found { size: 3, mtime: 4 } },
        SourceProbe { path: "missing.cpp".to_string(), stat: SourceStat::OpenFailed },
        SourceProbe { path: "c.cpp".to_string(), stat: SourceStat::MetadataFailed },
    ];
    assert_eq!(
        cache_compute_src(probes).err().unwrap(),
        ConfigError::CommandFailed {
            cmd: "Open file".to_string(),
            message: "Failed to open file missing.cpp".to_string(),
        }
    );
    let probes = vec![SourceProbe { path: "c.cpp".to_string(), stat: SourceStat::MetadataFailed }];
    assert_eq!(
        cache_compute_src(probes).err().unwrap(),
        ConfigError::InvalidConfig { message: "TODO THIS ERROR #ER1:".to_string() }
    );
    let probes = vec![SourceProbe { path: "c.cpp".to_string(), stat: SourceStat::ModifiedFailed }];
    assert_eq!(
        cache_compute_src(probes).err().unwrap(),
        ConfigError::InvalidConfig { message: "TODO THIS ERROR #ER2".to_string() }
    );
    assert_eq!(cache_compute_src(Vec::new()).unwrap().len(), 0);
}
