use cmap::{lexer, parse_cmap, CMap, CMapError, CMapRange, CodespaceRange, Value, WritingMode};

fn parse(text: &str) -> CMap {
    parse_cmap(text.as_bytes()).unwrap()
}

fn parse_err(text: &str) -> CMapError {
    parse_cmap(text.as_bytes()).err().unwrap()
}

#[test]
fn codespace_range_example() {
    let cmap = parse("1 begincodespacerange <00> <ff> endcodespacerange");
    assert_eq!(cmap.extract_codepoint(&[0x41]), Some(0));
    assert_eq!(cmap.extract_codepoint(&[0xff, 0x01]), Some(0));
    assert_eq!(cmap.extract_codepoint(&[]), None);
}

#[test]
fn bfchar_example() {
    let cmap = parse("2 beginbfchar <01> <0041> <02> /space endbfchar");
    assert_eq!(cmap.codepoint_to_unicode(1), Ok("A".to_string()));
    assert_eq!(cmap.codepoint_to_unicode(2), Ok("space".to_string()));
    assert_eq!(cmap.codepoint_to_unicode(3), Err(CMapError::NoUnicodeMappingFound(3)));
}

#[test]
fn bfrange_example() {
    let cmap = parse("1 beginbfrange <00> <02> <0041> endbfrange");
    assert_eq!(cmap.codepoint_to_unicode(0), Ok("A\u{0}".to_string()));
    assert_eq!(cmap.codepoint_to_unicode(1), Ok("B\u{0}".to_string()));
    assert_eq!(cmap.codepoint_to_unicode(2), Ok("C\u{0}".to_string()));
    assert_eq!(cmap.codepoint_to_unicode(3), Err(CMapError::NoUnicodeMappingFound(3)));
}

#[test]
fn cidrange_example() {
    let cmap = parse("1 begincidrange <0000> <00ff> 10 endcidrange");
    assert_eq!(cmap.codepoint_to_cid(5), 15);
    assert_eq!(cmap.codepoint_to_cid(0), 10);
    assert_eq!(cmap.codepoint_to_cid(255), 265);
    assert_eq!(cmap.codepoint_to_cid(1000), 0);
}

#[test]
fn nested_parentheses_are_kept() {
    let tokens = lexer(b"(a(b)c)").unwrap();
    assert_eq!(tokens.len(), 1);
    assert!(matches!(&tokens[0], Value::LiteralString(s) if s.as_slice() == b"a(b)c"));
    let tokens = lexer(b"(\\()").unwrap();
    assert!(matches!(&tokens[0], Value::LiteralString(s) if s.as_slice() == b"("));
}

#[test]
fn in_range_checks_length_and_bounds() {
    let range = CodespaceRange { from: 0x8140, to: 0x9ffc, len: 2 };
    assert!(range.in_range(&[0x81, 0x40]));
    assert!(range.in_range(&[0x9f, 0xfc]));
    assert!(!range.in_range(&[0x9f, 0xfd]));
    assert!(!range.in_range(&[0x80, 0x00]));
    assert!(!range.in_range(&[0x81]));
    assert!(!range.in_range(&[0x00, 0x81, 0x40]));
}

#[test]
fn mapped_value_offsets_from_start() {
    let range = CMapRange { from: 10, to: 20, start: 100 };
    assert_eq!(range.mapped_value(10), Some(100));
    assert_eq!(range.mapped_value(15), Some(105));
    assert_eq!(range.mapped_value(20), Some(110));
    assert_eq!(range.mapped_value(9), None);
    assert_eq!(range.mapped_value(21), None);
}

#[test]
fn unmapped_code_has_cid_zero() {
    let cmap = CMap::default();
    assert_eq!(cmap.codepoint_to_cid(7), 0);
    let cmap = parse("1 begincidchar <01> 5 endcidchar");
    assert_eq!(cmap.codepoint_to_cid(2), 0);
}

#[test]
fn unmapped_code_has_no_unicode() {
    let cmap = CMap::default();
    assert_eq!(cmap.codepoint_to_unicode(7), Err(CMapError::NoUnicodeMappingFound(7)));
}

#[test]
fn direct_mappings_win_over_ranges() {
    let cmap = parse(
        "1 begincidchar <05> 7 endcidchar 1 beginbfchar <05> <0058> endbfchar \
         1 begincidrange <00> <ff> 100 endcidrange % two tokens the cursor passes over\n\
         fill fill 1 beginbfrange <00> <ff> <0061> endbfrange",
    );
    assert_eq!(cmap.codepoint_to_cid(5), 7);
    assert_eq!(cmap.codepoint_to_cid(6), 106);
    assert_eq!(cmap.codepoint_to_unicode(5), Ok("X".to_string()));
    assert_eq!(cmap.codepoint_to_unicode(6), Ok("g\u{0}".to_string()));
}

#[test]
fn first_declared_range_wins() {
    let cmap = parse("2 begincidrange <00> <10> 100 <05> <20> 500 endcidrange");
    assert_eq!(cmap.codepoint_to_cid(7), 107);
    assert_eq!(cmap.codepoint_to_cid(17), 512);
}

#[test]
fn bfrange_array_length_mismatch() {
    let err = parse_err("1 beginbfrange <00> <02> [<0041> <0042>] endbfrange");
    assert_eq!(err, CMapError::InvalidArrayLength { expected: 3, found: 2 });
}

#[test]
fn bfrange_array_expands_with_carry() {
    let cmap = parse("1 beginbfrange <00ff> <0101> [<0041> <0042> (C)] endbfrange");
    assert_eq!(cmap.codepoint_to_unicode(0x00ff), Ok("A".to_string()));
    assert_eq!(cmap.codepoint_to_unicode(0x0100), Ok("B".to_string()));
    assert_eq!(cmap.codepoint_to_unicode(0x0101), Ok("C".to_string()));
}

#[test]
fn type_mismatch_names_both_kinds() {
    let err = parse_err("1 beginbfchar <01> 5 endbfchar");
    assert_eq!(err, CMapError::CMapType { expected: "Literal String or Name", found: "Integer" });
    let err = parse_err("(x) beginbfchar");
    assert_eq!(err, CMapError::CMapType { expected: "Integer", found: "LiteralString" });
    let err = parse_err("1 begincidchar <01> (x) endcidchar");
    assert_eq!(err, CMapError::CMapType { expected: "Integer", found: "LiteralString" });
}

#[test]
fn missing_tokens_are_an_error() {
    assert_eq!(parse_err("beginbfchar"), CMapError::UnexpectedEnd);
    assert_eq!(parse_err("1 beginbfchar <01>"), CMapError::UnexpectedEnd);
    assert_eq!(parse_err("/WMode"), CMapError::UnexpectedEnd);
}

#[test]
fn lexical_errors() {
    assert_eq!(parse_err("1 begincodespacerange <0g> <ff>"), CMapError::Lexer);
    assert_eq!(parse_err("(unterminated"), CMapError::Lexer);
    assert_eq!(parse_err("[1 2"), CMapError::Lexer);
    assert_eq!(parse_err("<012>"), CMapError::Lexer);
    assert!(lexer(b"}").is_err());
}

#[test]
fn text_errors() {
    assert_eq!(parse_err("1 beginbfchar <01> <d800> endbfchar"), CMapError::Utf16(0xd800));
    assert_eq!(parse_err("/CMapName /#ff def"), CMapError::Utf8);
    assert_eq!(parse_err("(x) usecmap"), CMapError::CMapType { expected: "Name", found: "LiteralString" });
}

#[test]
fn metadata_is_read() {
    let cmap = parse(
        "/CIDInit /ProcSet findresource begin 12 dict begin begincmap \
         /CIDSystemInfo 3 dict dup begin /Registry (Adobe) def /Ordering (UCS) def \
         /Supplement 6 def end def /CMapName /Adobe-Identity-UCS def /CMapType 2 def \
         /CMapVersion 3 def /WMode 1 def endcmap",
    );
    assert_eq!(cmap.registry, "Adobe");
    assert_eq!(cmap.ordering, "UCS");
    assert_eq!(cmap.supplement, 6);
    assert_eq!(cmap.name, "Adobe-Identity-UCS");
    assert_eq!(cmap.cmap_type, 2);
    assert_eq!(cmap.version, "3");
    assert_eq!(cmap.writing_mode, WritingMode::Vertically);
    let cmap = parse("/CMapVersion -12 def /WMode 0 def");
    assert_eq!(cmap.version, "-12");
    assert_eq!(cmap.writing_mode, WritingMode::Horizontally);
    let cmap = parse("/CMapVersion (1.2) def");
    assert_eq!(cmap.version, "1.2");
}

#[test]
fn endcmap_stops_reading() {
    let cmap = parse("endcmap 1 begincidrange <00> <ff> 1 endcidrange");
    assert_eq!(cmap.codepoint_to_cid(5), 0);
}

#[test]
fn cursor_jump_after_blocks() {
    // After a block of three-token groups the cursor lands two tokens past its terminator.
    let cmap = parse("1 begincidrange <00> <01> 5 endcidrange 1 begincidchar <01> 9 endcidchar");
    assert_eq!(cmap.codepoint_to_cid(1), 6);
    // After a block of two-token groups it lands one token past, on the next operator.
    let cmap = parse("1 begincidchar <01> 9 endcidchar 1 begincidchar <02> 8 endcidchar");
    assert_eq!(cmap.codepoint_to_cid(2), 8);
    // A name that is no metadata key at the very start also passes over the next token.
    let cmap = parse("/x 1 begincidchar <01> 9 endcidchar");
    assert_eq!(cmap.codepoint_to_cid(1), 9);
}

#[test]
fn usecmap_is_skipped() {
    let cmap = parse("/Adobe-Japan1-6 usecmap 1 begincidchar <01> 9 endcidchar");
    assert_eq!(cmap.codepoint_to_cid(1), 9);
}

#[test]
fn extract_codepoint_picks_shortest_code() {
    let cmap = parse("2 begincodespacerange <00> <80> <8140> <9ffc> endcodespacerange");
    assert_eq!(cmap.extract_codepoint(&[0x41, 0x81]), Some(0));
    assert_eq!(cmap.extract_codepoint(&[0x81, 0x40]), Some(1));
    assert_eq!(cmap.extract_codepoint(&[0xa0, 0x40]), None);
}

#[test]
fn builders_and_merge() {
    let mut base = CMap::default();
    base.add_codespace_range(CodespaceRange { from: 0, to: 0xff, len: 1 });
    base.add_cid_mapping(&[0x01], 11);
    base.add_unicode_mapping(&[0x01], "one".to_string());
    let mut other = parse("1 begincidchar <01> 12 endcidchar 1 begincidrange <10> <1f> 50 endcidrange");
    other.add_unicode_mapping(&[0x02], "two".to_string());
    base.merge(&other);
    assert_eq!(base.codepoint_to_cid(1), 12);
    assert_eq!(base.codepoint_to_cid(0x11), 51);
    assert_eq!(base.codepoint_to_unicode(1), Ok("one".to_string()));
    assert_eq!(base.codepoint_to_unicode(2), Ok("two".to_string()));
    assert_eq!(base.extract_codepoint(&[0x20]), Some(0));
}

#[test]
fn lexer_numbers_and_names() {
    let tokens = lexer(b"12 -3 +4 1.5 .5 -.5 99999999999999999999 /A#20B true false def").unwrap();
    assert!(matches!(tokens[0], Value::Integer(12)));
    assert!(matches!(tokens[1], Value::Integer(-3)));
    assert!(matches!(tokens[2], Value::Integer(4)));
    assert!(matches!(&tokens[3], Value::Number(s) if s == "1.5"));
    assert!(matches!(&tokens[4], Value::Number(s) if s == ".5"));
    assert!(matches!(&tokens[5], Value::Number(s) if s == "-.5"));
    assert!(matches!(&tokens[6], Value::Number(s) if s == "99999999999999999999"));
    assert!(matches!(&tokens[7], Value::Name(n) if n.as_slice() == b"A B"));
    assert!(matches!(tokens[8], Value::Boolean(true)));
    assert!(matches!(tokens[9], Value::Boolean(false)));
    assert!(matches!(&tokens[10], Value::Operator(s) if s == "def"));
    assert_eq!(tokens.len(), 11);
}

#[test]
fn lexer_escapes_comments_and_containers() {
    let tokens = lexer(b"% a comment\n(a\\nb\\053\\\nc\\q) [1 <41>] << /K (v) >> %end").unwrap();
    assert_eq!(tokens.len(), 3);
    assert!(matches!(&tokens[0], Value::LiteralString(s) if s.as_slice() == b"a\nb+cq"));
    match &tokens[1] {
        Value::Array(items) => {
            assert_eq!(items.len(), 2);
            assert!(matches!(items[0], Value::Integer(1)));
            assert!(matches!(&items[1], Value::LiteralString(s) if s.as_slice() == b"A"));
        },
        other => panic!("unexpected token {:?}", other),
    }
    match &tokens[2] {
        Value::Dictionary(entries) => {
            assert_eq!(entries.len(), 1);
            assert_eq!(entries[0].0.as_slice(), b"K");
            assert!(matches!(&entries[0].1, Value::LiteralString(s) if s.as_slice() == b"v"));
        },
        other => panic!("unexpected token {:?}", other),
    }
}

#[test]
fn value_accessors_report_kinds() {
    let tokens = lexer(b"/N 5 (s)").unwrap();
    assert_eq!(tokens[0].get_type(), "Name");
    assert_eq!(tokens[0].as_name().unwrap(), b"N");
    assert_eq!(tokens[1].as_integer().unwrap(), 5);
    assert_eq!(tokens[2].as_literal_string().unwrap(), b"s");
    assert_eq!(
        tokens[0].as_integer().err(),
        Some(CMapError::CMapType { expected: "Integer", found: "Name" })
    );
    assert_eq!(
        tokens[1].as_literal_string().err(),
        Some(CMapError::CMapType { expected: "LiteralString", found: "Integer" })
    );
}

#[test]
fn writing_mode_from_flag() {
    assert_eq!(WritingMode::from(true), WritingMode::Vertically);
    assert_eq!(WritingMode::from(false), WritingMode::Horizontally);
    assert_eq!(WritingMode::default(), WritingMode::Horizontally);
}
