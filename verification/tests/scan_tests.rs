use lib::scan::{DirEntryInfo, EntryKind, ObjScan};

fn entry(kind: EntryKind, path: &str) -> DirEntryInfo {
    DirEntryInfo { kind, path: Some(path.to_string()) }
}

#[test]
fn scan_is_breadth_first_and_normalizes_files() {
    let mut scan = ObjScan::new();
    let first = scan.next_folder();
    assert_eq!(first, Some(".rm_cache/obj/".to_string()));
    scan.visit(vec![
        entry(EntryKind::Directory, ".rm_cache/obj/src"),
        entry(EntryKind::File, ".rm_cache/obj/main.cpp.o"),
        entry(EntryKind::Directory, ".rm_cache/obj/lib"),
        entry(EntryKind::Other, ".rm_cache/obj/link"),
        entry(EntryKind::Unreadable, ".rm_cache/obj/odd"),
        DirEntryInfo { kind: EntryKind::File, path: None },
    ]);
    assert_eq!(scan.next_folder(), Some(".rm_cache/obj/src".to_string()));
    scan.visit(vec![entry(EntryKind::File, ".rm_cache/obj/src\\a.cpp.o")]);
    assert_eq!(scan.next_folder(), Some(".rm_cache/obj/lib".to_string()));
    scan.visit(Vec::new());
    assert_eq!(scan.next_folder(), None);
    assert_eq!(scan.next_folder(), None);
    assert_eq!(
        scan.into_found(),
        vec![".rm_cache/obj/main.cpp.o".to_string(), ".rm_cache/obj/src/a.cpp.o".to_string()]
    );
}
