use bgm_property::{
    from_text, parse_labels, to_text, BgmPropertyFile, Entry, Error, LabelPair, LabelTable,
};

fn entry(name_id: u64, fields: u32) -> Entry {
    Entry {
        name_id,
        loop_start_ms: fields,
        loop_start_sample: fields,
        loop_end_ms: fields,
        loop_end_sample: fields,
        duration_ms: fields,
        duration_sample: fields,
    }
}

#[test]
fn test_text_exact() {
    let file = BgmPropertyFile::new(vec![Entry {
        name_id: 1,
        loop_start_ms: 2,
        loop_start_sample: 3,
        loop_end_ms: 4,
        loop_end_sample: 5,
        duration_ms: 6,
        duration_sample: 7,
    }]);
    let text = to_text(&file, &LabelTable::new());
    let expected = "name_id: 1\n\
                    loop_start_ms: 2\n\
                    loop_start_sample: 3\n\
                    loop_end_ms: 4\n\
                    loop_end_sample: 5\n\
                    duration_ms: 6\n\
                    duration_sample: 7\n";
    assert_eq!(String::from_utf8(text).unwrap(), expected);
}

#[test]
fn test_text_mirror_boundary_values() {
    let file = BgmPropertyFile::new(vec![
        entry(0, 0),
        entry(u64::MAX, u32::MAX),
        entry(0x1234_5678_9ABC_DEF0, 42),
    ]);
    let text = to_text(&file, &LabelTable::new());
    let back = from_text(&text).unwrap();
    assert_eq!(back.entries(), file.entries());
    assert_eq!(back.write(), file.write());
}

#[test]
fn test_label_annotation_is_cosmetic() {
    let file = BgmPropertyFile::new(vec![entry(77, 5)]);
    let empty = LabelTable::new();
    let known = LabelTable {
        pairs: vec![LabelPair { id: 77, name: b"menu_theme".to_vec() }],
    };
    let plain = to_text(&file, &empty);
    let annotated = to_text(&file, &known);
    // The two documents differ only in the annotation on the identifier line.
    let plain_str = String::from_utf8(plain.clone()).unwrap();
    let annotated_str = String::from_utf8(annotated.clone()).unwrap();
    assert!(plain_str.starts_with("name_id: 77\n"));
    assert!(annotated_str.starts_with("name_id: 77 # menu_theme\n"));
    assert_eq!(
        plain_str.lines().skip(1).collect::<Vec<_>>(),
        annotated_str.lines().skip(1).collect::<Vec<_>>()
    );
    // Reconstructing from either text yields identical binary output.
    let from_plain = from_text(&plain).unwrap();
    let from_annotated = from_text(&annotated).unwrap();
    assert_eq!(from_plain.entries(), file.entries());
    assert_eq!(from_plain.write(), from_annotated.write());
}

#[test]
fn test_text_empty() {
    let file = BgmPropertyFile::new(Vec::new());
    let text = to_text(&file, &LabelTable::new());
    assert!(text.is_empty());
    assert_eq!(from_text(&text).unwrap().entries().len(), 0);
}

#[test]
fn test_text_bad_key() {
    let text = b"name_idx: 1\n";
    assert_eq!(from_text(text), Err(Error::TextFormat { offset: 0 }));
}

#[test]
fn test_text_value_not_numeric() {
    let text = b"name_id: x\n";
    assert_eq!(from_text(text), Err(Error::TextFormat { offset: 9 }));
}

#[test]
fn test_text_u64_overflow() {
    // One more than the largest 64-bit value.
    let text = b"name_id: 18446744073709551616\n";
    assert_eq!(from_text(text), Err(Error::TextFormat { offset: 9 }));
}

#[test]
fn test_text_u32_overflow() {
    let text = b"name_id: 1\nloop_start_ms: 4294967296\n";
    assert_eq!(from_text(text), Err(Error::TextFormat { offset: 26 }));
}

#[test]
fn test_text_truncated_entry() {
    let text = b"name_id: 1\nloop_start_ms: 2\n";
    match from_text(text) {
        Err(Error::TextFormat { .. }) => {}
        other => panic!("expected TextFormat, got {:?}", other),
    }
}

#[test]
fn test_parse_labels() {
    let table = parse_labels(b"77,menu_theme\nnot a label line\n5,other\n");
    assert_eq!(table.pairs.len(), 2);
    assert_eq!(table.pairs[0].id, 77);
    assert_eq!(table.pairs[0].name, b"menu_theme".to_vec());
    assert_eq!(table.pairs[1].id, 5);
    assert_eq!(table.pairs[1].name, b"other".to_vec());
}

#[test]
fn test_parse_labels_first_match_wins() {
    let table = parse_labels(b"9,first\n9,second");
    let file = BgmPropertyFile::new(vec![entry(9, 1)]);
    let text = to_text(&file, &table);
    assert!(String::from_utf8(text).unwrap().starts_with("name_id: 9 # first\n"));
}
