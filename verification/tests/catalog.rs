use flash_font::catalog::{
    collect_family_names, delete_batches, get_font_family_names, is_font_extension,
    is_font_path, plan_sync, CatalogEntry, FileStamp, NameRecord, DELETE_BATCH_SIZE,
};

/// Entries with the given paths and stamps (size, modification time).
fn entries(v: &[(&str, i64, i64)]) -> Vec<CatalogEntry> {
    v.iter()
        .map(|&(path, size, modified_nanos)| CatalogEntry {
            path: path.to_string(),
            stamp: FileStamp { size, modified_nanos },
        })
        .collect()
}

fn paths_of(v: &[CatalogEntry]) -> Vec<String> {
    let mut p: Vec<String> = v.iter().map(|e| e.path.clone()).collect();
    p.sort();
    p
}

fn strings(v: &[&str]) -> Vec<String> {
    v.iter().map(|s| s.to_string()).collect()
}

fn sorted(mut v: Vec<String>) -> Vec<String> {
    v.sort();
    v
}

fn push_u16(out: &mut Vec<u8>, v: u16) {
    out.extend_from_slice(&v.to_be_bytes());
}

fn push_u32(out: &mut Vec<u8>, v: u32) {
    out.extend_from_slice(&v.to_be_bytes());
}

/// A minimal TrueType face (head, hhea, maxp and name tables) whose table
/// offsets count from `base`, the face's place in the file.
fn face_bytes(base: u32, names: &[(u16, u16, u16, &str)]) -> Vec<u8> {
    let mut head = vec![0u8; 54];
    head[0..4].copy_from_slice(&0x0001_0000u32.to_be_bytes());
    head[12..16].copy_from_slice(&0x5F0F_3CF5u32.to_be_bytes());
    head[18..20].copy_from_slice(&1000u16.to_be_bytes());
    let mut hhea = vec![0u8; 36];
    hhea[0..4].copy_from_slice(&0x0001_0000u32.to_be_bytes());
    hhea[34..36].copy_from_slice(&1u16.to_be_bytes());
    let mut maxp = Vec::new();
    push_u32(&mut maxp, 0x0000_5000);
    push_u16(&mut maxp, 1);
    let mut name = Vec::new();
    let mut storage = Vec::new();
    push_u16(&mut name, 0);
    push_u16(&mut name, names.len() as u16);
    push_u16(&mut name, (6 + 12 * names.len()) as u16);
    for (platform, encoding, name_id, text) in names {
        let bytes: Vec<u8> = text.encode_utf16().flat_map(|u| u.to_be_bytes()).collect();
        push_u16(&mut name, *platform);
        push_u16(&mut name, *encoding);
        push_u16(&mut name, 0x409);
        push_u16(&mut name, *name_id);
        push_u16(&mut name, bytes.len() as u16);
        push_u16(&mut name, storage.len() as u16);
        storage.extend_from_slice(&bytes);
    }
    name.extend_from_slice(&storage);

    let tables: Vec<(&[u8; 4], Vec<u8>)> =
        vec![(b"head", head), (b"hhea", hhea), (b"maxp", maxp), (b"name", name)];
    let mut out = Vec::new();
    push_u32(&mut out, 0x0001_0000);
    push_u16(&mut out, tables.len() as u16);
    push_u16(&mut out, 0);
    push_u16(&mut out, 0);
    push_u16(&mut out, 0);
    let mut offset = base + 12 + 16 * tables.len() as u32;
    let mut body = Vec::new();
    for (tag, data) in &tables {
        out.extend_from_slice(*tag);
        push_u32(&mut out, 0);
        push_u32(&mut out, offset);
        push_u32(&mut out, data.len() as u32);
        let mut padded = data.clone();
        while padded.len() % 4 != 0 {
            padded.push(0);
        }
        offset += padded.len() as u32;
        body.extend_from_slice(&padded);
    }
    out.extend_from_slice(&body);
    out
}

#[test]
fn family_names_of_a_single_face() {
    let data = face_bytes(
        0,
        &[
            (3, 1, 1, "Test Family"),
            (3, 1, 4, "Test Family Bold"),
            (1, 0, 1, "Mac Only"),
            (0, 3, 1, "Test Family"),
            (0, 3, 1, "方正少儿_GBK"),
        ],
    );
    let names = get_font_family_names(&data);
    assert_eq!(sorted(names), strings(&["Test Family", "方正少儿_GBK"]));
}

#[test]
fn family_names_of_every_face_of_a_collection() {
    let header_len = 12 + 4 * 2;
    let first = face_bytes(header_len, &[(3, 1, 1, "Alpha")]);
    let second = face_bytes(header_len + first.len() as u32, &[(3, 1, 1, "Beta")]);
    let mut data = Vec::new();
    data.extend_from_slice(b"ttcf");
    push_u32(&mut data, 0x0001_0000);
    push_u32(&mut data, 2);
    push_u32(&mut data, header_len);
    push_u32(&mut data, header_len + first.len() as u32);
    data.extend_from_slice(&first);
    data.extend_from_slice(&second);
    assert_eq!(sorted(get_font_family_names(&data)), strings(&["Alpha", "Beta"]));
}

#[test]
fn unreadable_files_have_no_family_names() {
    assert!(get_font_family_names(b"not a font at all").is_empty());
    assert!(get_font_family_names(&[]).is_empty());
    let mut broken = Vec::new();
    broken.extend_from_slice(b"ttcf");
    push_u32(&mut broken, 0x0001_0000);
    push_u32(&mut broken, 3);
    assert!(get_font_family_names(&broken).is_empty());
}

#[test]
fn collect_family_names_keeps_family_entries_once() {
    let mut found = strings(&["Kept"]);
    let records = vec![
        NameRecord { name_id: 1, text: Some("Kept".to_string()) },
        NameRecord { name_id: 2, text: Some("Regular".to_string()) },
        NameRecord { name_id: 1, text: None },
        NameRecord { name_id: 1, text: Some("New".to_string()) },
        NameRecord { name_id: 1, text: Some("New".to_string()) },
    ];
    collect_family_names(&mut found, &records);
    assert_eq!(found, strings(&["Kept", "New"]));
}

#[test]
fn plan_sync_deletes_stale_and_adds_new_paths() {
    let db = entries(&[("a.ttf", 1, 1), ("b.ttf", 2, 2), ("c.ttf", 3, 3)]);
    let disk = entries(&[("b.ttf", 2, 2), ("d.ttf", 4, 4), ("d.ttf", 4, 4), ("e.otf", 5, 5)]);
    let plan = plan_sync(&db, &disk);
    assert_eq!(paths_of(&plan.to_delete), strings(&["a.ttf", "c.ttf"]));
    assert_eq!(paths_of(&plan.to_add), strings(&["d.ttf", "e.otf"]));
}

#[test]
fn plan_sync_of_equal_sets_is_empty() {
    let db = entries(&[("a.ttf", 1, 10), ("b.ttf", 2, 20)]);
    let disk = entries(&[("b.ttf", 2, 20), ("a.ttf", 1, 10)]);
    let plan = plan_sync(&db, &disk);
    assert!(plan.to_delete.is_empty());
    assert!(plan.to_add.is_empty());
}

#[test]
fn plan_sync_parses_modified_files_again() {
    let db = entries(&[("a.ttf", 100, 1), ("b.ttf", 200, 2), ("c.ttf", 300, 3)]);
    // `a.ttf` was rewritten (new time), `b.ttf` grew, `c.ttf` is untouched.
    let disk = entries(&[("a.ttf", 100, 9), ("b.ttf", 250, 2), ("c.ttf", 300, 3)]);
    let plan = plan_sync(&db, &disk);
    assert_eq!(paths_of(&plan.to_delete), strings(&["a.ttf", "b.ttf"]));
    assert_eq!(paths_of(&plan.to_add), strings(&["a.ttf", "b.ttf"]));
    let a = plan.to_add.iter().find(|e| e.path == "a.ttf").unwrap();
    assert_eq!(a.stamp, FileStamp { size: 100, modified_nanos: 9 });
    let b = plan.to_delete.iter().find(|e| e.path == "b.ttf").unwrap();
    assert_eq!(b.stamp, FileStamp { size: 200, modified_nanos: 2 });
}

#[test]
fn delete_batches_split_at_the_batch_size() {
    let paths: Vec<String> = (0..(2 * DELETE_BATCH_SIZE + 5)).map(|i| format!("{i}.ttf")).collect();
    let batches = delete_batches(&paths);
    assert_eq!(batches.len(), 3);
    assert_eq!(batches[0].len(), 10000);
    assert_eq!(batches[1].len(), 10000);
    assert_eq!(batches[2].len(), 5);
    assert_eq!(batches.concat(), paths);
    assert!(delete_batches(&Vec::new()).is_empty());
    assert_eq!(delete_batches(&strings(&["x"])), vec![strings(&["x"])]);
}

#[test]
fn font_files_are_known_by_extension() {
    assert!(is_font_path("C:/Fonts/msgothic.TTC"));
    assert!(is_font_path("/usr/share/fonts/a.ttf"));
    assert!(is_font_path("b.OtF"));
    assert!(!is_font_path("c.woff2"));
    assert!(!is_font_path("/fonts/ttf"));
    assert!(!is_font_path(".ttf"));
    assert!(!is_font_path("archive.ttf.zip"));
    assert!(is_font_extension("TTF"));
    assert!(!is_font_extension("ttfx"));
}

#[test]
fn carrying_out_a_plan_reaches_the_disk() {
    let db = entries(&[("a.ttf", 1, 1), ("b.ttf", 2, 2), ("c.ttf", 3, 3)]);
    let disk = entries(&[("c.ttf", 3, 4), ("d.ttf", 5, 5), ("a.ttf", 1, 1)]);
    let plan = plan_sync(&db, &disk);
    let key = |e: &CatalogEntry| (e.path.clone(), e.stamp.size, e.stamp.modified_nanos);
    let deleted: Vec<_> = plan.to_delete.iter().map(key).collect();
    let mut after: Vec<_> = db
        .iter()
        .map(key)
        .filter(|k| !deleted.contains(k))
        .chain(plan.to_add.iter().map(key))
        .collect();
    after.sort();
    let mut expected: Vec<_> = disk.iter().map(key).collect();
    expected.sort();
    assert_eq!(after, expected);
}
