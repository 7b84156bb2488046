use js_source_mapper::{
    parse_mappings, CodePosition, Mapping, NameValue, ParseError, SourceMap,
};
use js_source_mapper::utf8_to_string;

fn document(
    version: u32,
    sources: &[&str],
    names: &[&str],
    mappings: &[u8],
    source_root: Option<&str>,
) -> SourceMap {
    SourceMap {
        version,
        sources: sources.iter().map(|s| s.to_string()).collect(),
        names: names.iter().map(|s| NameValue::Str(s.to_string())).collect(),
        source_root: source_root.map(|s| s.to_string()),
        mappings: mappings.to_vec(),
    }
}

#[test]
fn test_source_map_issue_64() {
    let cache = parse_mappings(&document(
        3,
        &["/a"],
        &[],
        b"AACA",
        Some("http://example.com/"),
    ))
    .unwrap();

    let expected = Mapping {
        generated: CodePosition { line: 1, column: 0 },
        original: CodePosition { line: 2, column: 0 },
        source: "/a".into(),
        name: "".into(),
    };
    let actual = cache.mapping_for_generated_position(1, 0);
    assert_eq!(actual, expected);
}

#[test]
fn test_source_map_issue_72_duplicate_sources() {
    let cache = parse_mappings(&document(
        3,
        &["source1.js", "source1.js", "source3.js"],
        &[],
        b";EAAC;;IAEE;;MEEE",
        Some("http://example.com"),
    ))
    .unwrap();

    {
        let expected = Mapping {
            generated: CodePosition { line: 2, column: 2 },
            original: CodePosition { line: 1, column: 1 },
            source: "source1.js".into(),
            name: "".into(),
        };
        let actual = cache.mapping_for_generated_position(2, 2);
        assert_eq!(actual, expected);
    }

    {
        let expected = Mapping {
            generated: CodePosition { line: 4, column: 4 },
            original: CodePosition { line: 3, column: 3 },
            source: "source1.js".into(),
            name: "".into(),
        };
        let actual = cache.mapping_for_generated_position(4, 4);
        assert_eq!(actual, expected);
    }

    {
        let expected = Mapping {
            generated: CodePosition { line: 6, column: 6 },
            original: CodePosition { line: 5, column: 5 },
            source: "source3.js".into(),
            name: "".into(),
        };
        let actual = cache.mapping_for_generated_position(6, 6);
        assert_eq!(actual, expected);
    }
}

#[test]
fn test_source_map_issue_72_duplicate_names() {
    let cache = parse_mappings(&document(
        3,
        &["source.js"],
        &["name1", "name1", "name3"],
        b";EAACA;;IAEEA;;MAEEE",
        Some("http://example.com"),
    ))
    .unwrap();

    {
        let expected = Mapping {
            generated: CodePosition { line: 2, column: 2 },
            original: CodePosition { line: 1, column: 1 },
            source: "source.js".into(),
            name: "name1".into(),
        };
        let actual = cache.mapping_for_generated_position(2, 2);
        assert_eq!(actual, expected);
    }

    {
        let expected = Mapping {
            generated: CodePosition { line: 4, column: 4 },
            original: CodePosition { line: 3, column: 3 },
            source: "source.js".into(),
            name: "name1".into(),
        };
        let actual = cache.mapping_for_generated_position(4, 4);
        assert_eq!(actual, expected);
    }

    {
        let expected = Mapping {
            generated: CodePosition { line: 6, column: 6 },
            original: CodePosition { line: 5, column: 5 },
            source: "source.js".into(),
            name: "name3".into(),
        };
        let actual = cache.mapping_for_generated_position(6, 6);
        assert_eq!(actual, expected);
    }
}

#[test]
fn it_allows_omitting_source_root() {
    let cache_result = parse_mappings(&document(
        3,
        &["source.js"],
        &["name1", "name1", "name3"],
        b";EAACA;;IAEEA;;MAEEE",
        None,
    ));
    match cache_result {
        Ok(cache) => assert_eq!(cache.source_root, ""),
        Err(e) => panic!("Error due to omitting: '{:?}'", e),
    }
}

#[test]
fn it_rejects_older_source_map_revisions() {
    let cache_result = parse_mappings(&document(
        2,
        &["source.js"],
        &["name1", "name1", "name3"],
        b";EAACA;;IAEEA;;MAEEE",
        Some("http://example.com"),
    ));
    match cache_result {
        Ok(_) => panic!("Source Map revision < 3 should be rejected"),
        Err(e) => assert_eq!(e, ParseError::UnsupportedVersion),
    }
}

#[test]
fn it_does_not_panic_due_to_malformed_source_maps() {
    let cache_result = parse_mappings(&document(3, &[], &[], b";EAACA;;IAEEA;;MAEEE", None));
    match cache_result {
        Ok(_) => panic!("Invalid source maps should be rejected"),
        Err(_) => {}
    }
}

#[test]
fn it_returns_error_when_there_are_no_mappings() {
    let cache_result = parse_mappings(&document(
        3,
        &["source.js"],
        &["name1", "name1", "name3"],
        b";;;",
        None,
    ));
    match cache_result {
        Ok(_) => panic!("Source maps with no mappings should be rejected"),
        Err(e) => assert_eq!(e, ParseError::NoMappings),
    }
}

#[test]
fn it_rejects_two_field_segments() {
    let result = parse_mappings(&document(3, &["source.js"], &[], b"AA", None));
    assert_eq!(result.unwrap_err(), ParseError::SourceButNoLineColumn);
}

#[test]
fn it_rejects_three_field_segments() {
    let result = parse_mappings(&document(3, &["source.js"], &[], b"AAA", None));
    assert_eq!(result.unwrap_err(), ParseError::SourceLineButNoColumn);
}

#[test]
fn it_rejects_segments_with_invalid_characters() {
    let result = parse_mappings(&document(3, &["source.js"], &[], b"AA!A", None));
    assert_eq!(result.unwrap_err(), ParseError::InvalidVlqField);
}

#[test]
fn it_rejects_truncated_segments() {
    // the continuation bit of `g` is set and the segment ends
    let result = parse_mappings(&document(3, &["source.js"], &[], b"AAAg", None));
    assert_eq!(result.unwrap_err(), ParseError::InvalidVlqField);
}

#[test]
fn it_reports_dangling_source_references() {
    // the source delta of `C` resolves to index 1 in a one-entry table
    let result = parse_mappings(&document(3, &["source.js"], &[], b"ACAA", None));
    assert_eq!(
        result.unwrap_err(),
        ParseError::SourceIndexOutOfRange { index: 1, length: 1 }
    );
}

#[test]
fn it_reports_dangling_name_references() {
    // the name delta of `C` resolves to index 1 in a one-entry table
    let result = parse_mappings(&document(3, &["source.js"], &["name1"], b"AAAAC", None));
    assert_eq!(
        result.unwrap_err(),
        ParseError::NameIndexOutOfRange { index: 1, length: 1 }
    );
}

#[test]
fn it_keeps_accumulators_across_line_boundaries() {
    // The middle line's segment carries only a generated column; the third
    // line's source delta of +1 must resolve against the first segment's
    // source index, not restart at zero.
    let cache = parse_mappings(&document(
        3,
        &["a.js", "b.js"],
        &[],
        b"AAAA;C;ACAA",
        None,
    ))
    .unwrap();

    let second = cache.mapping_for_generated_position(2, 1);
    assert_eq!(second.generated, CodePosition { line: 2, column: 1 });
    assert_eq!(second.source, "");

    let third = cache.mapping_for_generated_position(3, 0);
    assert_eq!(third.source, "b.js");
    assert_eq!(third.original, CodePosition { line: 1, column: 0 });
}

#[test]
fn it_resolves_integer_names_to_decimal_strings() {
    let doc = SourceMap {
        version: 3,
        sources: vec!["source.js".to_string()],
        names: vec![NameValue::Int(-42), NameValue::UInt(7)],
        source_root: None,
        mappings: b"AAAAA,CAAAC".to_vec(),
    };
    let cache = parse_mappings(&doc).unwrap();
    assert_eq!(cache.mapping_for_generated_position(1, 0).name, "-42");
    assert_eq!(cache.mapping_for_generated_position(1, 1).name, "7");
}

#[test]
fn it_clamps_queries_to_the_nearest_mapping() {
    // mappings at generated (1,0) and (1,4)
    let cache = parse_mappings(&document(3, &["s.js"], &[], b"AAAA,IAAA", None)).unwrap();

    // exact matches
    assert_eq!(
        cache.mapping_for_generated_position(1, 0).generated,
        CodePosition { line: 1, column: 0 }
    );
    assert_eq!(
        cache.mapping_for_generated_position(1, 4).generated,
        CodePosition { line: 1, column: 4 }
    );
    // between two keys: the least upper bound
    assert_eq!(
        cache.mapping_for_generated_position(1, 2).generated,
        CodePosition { line: 1, column: 4 }
    );
    // past the end: clamped to the last mapping
    assert_eq!(
        cache.mapping_for_generated_position(9, 9).generated,
        CodePosition { line: 1, column: 4 }
    );
    // before the first mapping: still a mapping, never a missing result
    assert_eq!(
        cache.mapping_for_generated_position(0, 0).generated,
        CodePosition { line: 1, column: 0 }
    );
}

#[test]
fn it_sorts_mappings_within_a_line() {
    // two segments of one line arrive with descending columns: IAAA (col 4)
    // then a delta of -4 back to column 0
    let cache = parse_mappings(&document(3, &["s.js"], &[], b"IAAA,JAAA", None)).unwrap();
    assert_eq!(
        cache.mapping_for_generated_position(1, 0).generated,
        CodePosition { line: 1, column: 0 }
    );
    assert_eq!(
        cache.mapping_for_generated_position(1, 4).generated,
        CodePosition { line: 1, column: 4 }
    );
}

#[test]
fn utf8_to_string_decodes_valid_bytes() {
    assert_eq!(utf8_to_string(b"hello"), "hello");
    assert_eq!(utf8_to_string("gr\u{fc}\u{df}e".as_bytes()), "gr\u{fc}\u{df}e");
    assert_eq!(utf8_to_string(b""), "");
}

#[test]
fn utf8_to_string_maps_invalid_bytes_to_empty() {
    assert_eq!(utf8_to_string(&[0xFF, 0xFE]), "");
    assert_eq!(utf8_to_string(&[0xC3]), "");
}
