use accessor_parser::error::{
    AccessorParserError, AccessorParserErrorKind, AccessorValidationError,
    AccessorValidationErrorKind, InvalidUnicodeError,
};
use accessor_parser::parser::{parse_accessor, take_spanned_accessor, to_chars};
use accessor_parser::string_interpolator::{
    take_spanned_string_interpolator, SpannedInterpolatorSegment, SpannedStringInterpolator,
    StringInterpolator,
};
use accessor_parser::validation::{edit_distance, PathNode};
use accessor_parser::{
    Accessor, AccessorKey, AccessorParserSpan, SpannedAccessor, SpannedAccessorKey,
};

fn is_text(key: &AccessorKey, text: &str) -> bool {
    matches!(key, AccessorKey::String(s) if s.as_str() == text)
}

fn node(children: Vec<(&str, PathNode)>) -> PathNode {
    PathNode::Node { children: children.into_iter().map(|(k, v)| (k.to_owned(), v)).collect() }
}

fn test_path_tree() -> PathNode {
    node(vec![
        (
            "event",
            node(vec![
                ("created_ms", PathNode::KnownField),
                ("metadata", PathNode::ObjectRoot),
                ("payload", PathNode::ObjectRoot),
            ]),
        ),
        ("item", PathNode::Root),
        (
            "_variables",
            node(vec![
                ("target1", PathNode::Root),
                ("target2", PathNode::Root),
                ("target3", PathNode::KnownField),
            ]),
        ),
    ])
}

fn accessor(text: &str) -> SpannedAccessor {
    let (_, accessor) = take_spanned_accessor(&to_chars(text), 0).unwrap();
    accessor
}

fn span(start: usize, end: usize) -> AccessorParserSpan {
    AccessorParserSpan { start, end }
}

#[test]
fn should_take_string_interpolation_with_postfix() {
    let interpolator = take_spanned_string_interpolator("${item} -").unwrap();
    let segments = match interpolator {
        SpannedStringInterpolator { segments, postfix } if postfix.as_str() == " -" => segments,
        err => unreachable!("{:?}", err),
    };

    let keys = match segments.as_slice() {
        [SpannedInterpolatorSegment {
            prefix,
            accessor: SpannedAccessor { keys, span: AccessorParserSpan { start: 0, end: 7 } },
        }] if prefix.as_str() == "" => keys,
        err => unreachable!("{:?}", err),
    };

    match keys.as_slice() {
        [SpannedAccessorKey { key, span: AccessorParserSpan { start: 2, end: 6 } }]
            if is_text(key, "item") => {}
        err => unreachable!("{:?}", err),
    }
}

#[test]
fn should_take_string_interpolation_with_prefix() {
    let interpolator = take_spanned_string_interpolator("- ${item}").unwrap();
    let segments = match interpolator {
        SpannedStringInterpolator { segments, postfix } if postfix.as_str() == "" => segments,
        err => unreachable!("{:?}", err),
    };

    let keys = match segments.as_slice() {
        [SpannedInterpolatorSegment {
            prefix,
            accessor: SpannedAccessor { keys, span: AccessorParserSpan { start: 2, end: 9 } },
        }] if prefix.as_str() == "- " => keys,
        err => unreachable!("{:?}", err),
    };

    match keys.as_slice() {
        [SpannedAccessorKey { key, span: AccessorParserSpan { start: 4, end: 8 } }]
            if is_text(key, "item") => {}
        err => unreachable!("{:?}", err),
    }
}

#[test]
fn should_take_string_interpolation_with_pre_and_postfix() {
    let interpolator = take_spanned_string_interpolator("- ${item} -").unwrap();
    let segments = match interpolator {
        SpannedStringInterpolator { segments, postfix } if postfix.as_str() == " -" => segments,
        err => unreachable!("{:?}", err),
    };

    let keys = match segments.as_slice() {
        [SpannedInterpolatorSegment {
            prefix,
            accessor: SpannedAccessor { keys, span: AccessorParserSpan { start: 2, end: 9 } },
        }] if prefix.as_str() == "- " => keys,
        err => unreachable!("{:?}", err),
    };

    match keys.as_slice() {
        [SpannedAccessorKey { key, span: AccessorParserSpan { start: 4, end: 8 } }]
            if is_text(key, "item") => {}
        err => unreachable!("{:?}", err),
    }
}

#[test]
fn should_take_string_interpolation_with_multiple_accessor() {
    let interpolator = take_spanned_string_interpolator("${event.created_ms} - ${item}").unwrap();
    let segments = match interpolator {
        SpannedStringInterpolator { segments, postfix } if postfix.as_str() == "" => segments,
        err => unreachable!("{:?}", err),
    };

    let (keys1, keys2) = match segments.as_slice() {
        [SpannedInterpolatorSegment {
            prefix: prefix1,
            accessor: SpannedAccessor { keys: keys1, span: AccessorParserSpan { start: 0, end: 19 } },
        }, SpannedInterpolatorSegment {
            prefix: prefix2,
            accessor: SpannedAccessor { keys: keys2, span: AccessorParserSpan { start: 22, end: 29 } },
        }] if prefix1.as_str() == "" && prefix2.as_str() == " - " => (keys1, keys2),
        err => unreachable!("{:?}", err),
    };

    match keys1.as_slice() {
        [SpannedAccessorKey { key: key1, span: AccessorParserSpan { start: 2, end: 7 } }, SpannedAccessorKey {
            key: key2,
            span: AccessorParserSpan { start: 7, end: 18 },
        }] if is_text(key1, "event") && is_text(key2, "created_ms") => {}
        err => unreachable!("{:?}", err),
    }

    match keys2.as_slice() {
        [SpannedAccessorKey { key: key1, span: AccessorParserSpan { start: 24, end: 28 } }]
            if is_text(key1, "item") => {}
        err => unreachable!("{:?}", err),
    }
}

#[test]
fn should_compute_edit_distance() {
    assert_eq!(3, edit_distance("saturday", "sunday"));
    assert_eq!(3, edit_distance("kitten", "sitting"));
    assert_eq!(4, edit_distance("levenshtein", "meilenstein"));
}

#[test]
fn should_validate_accessor_correctly() {
    let valid_mappings = test_path_tree();

    let accessor = accessor("${event.created_ms}");
    valid_mappings.validate_accessor(&accessor).unwrap();

    let accessor = self::accessor("${item}");
    valid_mappings.validate_accessor(&accessor).unwrap();

    let accessor = self::accessor("${_variables.target1.pippo}");
    valid_mappings.validate_accessor(&accessor).unwrap();
}

#[test]
fn should_validate_interpolator_correctly() {
    let valid_mappings = test_path_tree();

    let interpolator = take_spanned_string_interpolator("${event.created_ms} - ${item}").unwrap();
    valid_mappings.validate_interpolator(&interpolator).unwrap();

    let interpolator =
        take_spanned_string_interpolator("${item.pippo} - _variables.target1[1234]").unwrap();
    valid_mappings.validate_interpolator(&interpolator).unwrap();

    let interpolator = take_spanned_string_interpolator("${_variables.target1.pippo}").unwrap();
    valid_mappings.validate_interpolator(&interpolator).unwrap();
}

#[test]
fn parse_accessor_single_root_key() {
    let a = parse_accessor("${key}").unwrap();
    assert_eq!(a.keys().len(), 1);
    assert!(is_text(a.keys()[0].key(), "key"));
    assert_eq!(a.keys()[0].span(), span(2, 5));
    assert_eq!(a.span(), span(0, 6));
}

#[test]
fn parse_accessor_mixed_keys() {
    let a = parse_accessor("${key1[1234].key2}").unwrap();
    let keys = a.keys();
    assert_eq!(keys.len(), 3);
    assert!(is_text(keys[0].key(), "key1"));
    assert!(matches!(keys[1].key(), AccessorKey::Numeric(1234)));
    assert!(is_text(keys[2].key(), "key2"));
    assert_eq!(keys[0].span(), span(2, 6));
    assert_eq!(keys[1].span(), span(6, 12));
    assert_eq!(keys[2].span(), span(12, 17));
    assert_eq!(a.span(), span(0, 18));
}

#[test]
fn parse_accessor_missing_closing_brace() {
    let err = parse_accessor("${key1[1234].key2").unwrap_err();
    assert_eq!(err.kind(), AccessorParserErrorKind::MissingClosingBracket);
    assert_eq!(err.span(), span(0, 2));
}

#[test]
fn parse_accessor_spans_rebuild_text() {
    let text = "${a[1].b}";
    let a = parse_accessor(text).unwrap();
    let chars: Vec<char> = text.chars().collect();
    let mut rebuilt = String::from("${");
    let mut last_end = 2;
    for key in a.keys() {
        assert_eq!(key.span().start(), last_end);
        assert!(key.span().start() < key.span().end());
        rebuilt.extend(&chars[key.span().start()..key.span().end()]);
        last_end = key.span().end();
    }
    rebuilt.push('}');
    assert_eq!(rebuilt, text);
    assert_eq!(a.span(), span(0, chars.len()));

    let again = parse_accessor(&rebuilt).unwrap();
    assert_eq!(again.span(), a.span());
    for (x, y) in again.keys().iter().zip(a.keys()) {
        assert_eq!(x.span(), y.span());
        assert_eq!(format!("{:?}", x.key()), format!("{:?}", y.key()));
    }
}

#[test]
fn parse_accessor_reads_every_key_form_whole() {
    let text = "${r\\u{6F}ot.\"q.u\\\"x\"[42].n\\[}";
    let a = parse_accessor(text).unwrap();
    assert_eq!(a.span(), span(0, text.chars().count()));
    let keys = a.keys();
    assert_eq!(keys.len(), 4);
    assert!(is_text(keys[0].key(), "root"));
    assert!(is_text(keys[1].key(), "q.u\"x"));
    assert!(matches!(keys[2].key(), AccessorKey::Numeric(42)));
    assert!(is_text(keys[3].key(), "n["));
}

#[test]
fn parse_accessor_counts_characters_not_bytes() {
    let a = parse_accessor("${é.ü}").unwrap();
    assert_eq!(a.keys()[0].span(), span(2, 3));
    assert_eq!(a.keys()[1].span(), span(3, 5));
    assert_eq!(a.span(), span(0, 6));
}

#[test]
fn parse_accessor_without_opening() {
    let err = parse_accessor("key}").unwrap_err();
    assert_eq!(err, AccessorParserError { kind: AccessorParserErrorKind::InvalidAccessorKey, span: span(0, 1) });
}

#[test]
fn parse_accessor_quoted_key_without_closing_quote() {
    let err = parse_accessor("${a.\"bc}").unwrap_err();
    assert_eq!(err, AccessorParserError { kind: AccessorParserErrorKind::Unknown, span: span(8, 9) });
}

#[test]
fn parse_accessor_index_too_large() {
    let err = parse_accessor("${a[99999999999999999999999]}").unwrap_err();
    assert_eq!(err, AccessorParserError { kind: AccessorParserErrorKind::NotANumber, span: span(4, 27) });
}

#[test]
fn parse_accessor_index_with_plus_sign() {
    let err = parse_accessor("${a[+5]}").unwrap_err();
    assert_eq!(err, AccessorParserError { kind: AccessorParserErrorKind::NotANumber, span: span(4, 6) });
}

#[test]
fn unicode_escape_with_plus_sign() {
    let err = parse_accessor("${a\\u{+61}}").unwrap_err();
    assert_eq!(
        err,
        AccessorParserError {
            kind: AccessorParserErrorKind::InvalidUnicode(InvalidUnicodeError::InvalidHexadecimal),
            span: span(6, 9),
        }
    );
}

#[test]
fn schema_well_formedness() {
    assert!(test_path_tree().is_well_formed());
    let repeated = node(vec![("a", PathNode::Root), ("b", node(vec![("x", PathNode::Root), ("x", PathNode::KnownField)]))]);
    assert!(!repeated.is_well_formed());
    let repeated = node(vec![("a", PathNode::Root), ("a", PathNode::KnownField)]);
    assert!(!repeated.is_well_formed());
}

#[test]
fn conversions_drop_spans() {
    let a = Accessor::from(parse_accessor("${x[3]}").unwrap());
    assert!(is_text(&a.keys()[0], "x"));
    assert!(matches!(a.keys()[1], AccessorKey::Numeric(3)));
    let i = StringInterpolator::from(take_spanned_string_interpolator("p ${q} r").unwrap());
    assert_eq!(i.postfix, " r");
    let segment = &i.segments[0];
    assert_eq!(segment.prefix, "p ");
    assert!(is_text(&segment.accessor.keys()[0], "q"));
    assert!(matches!(AccessorKey::from(4usize), AccessorKey::Numeric(4)));
    assert!(is_text(&AccessorKey::from("k".to_owned()), "k"));
}

#[test]
fn parse_accessor_escapes_in_keys() {
    let a = parse_accessor("${a\\.b.\\u{263A}\\n}").unwrap();
    assert!(is_text(a.keys()[0].key(), "a.b"));
    assert!(is_text(a.keys()[1].key(), "\u{263A}\n"));
}

#[test]
fn parse_accessor_unescaped_reserved_character() {
    let err = parse_accessor("${a$b}").unwrap_err();
    assert_eq!(err, AccessorParserError { kind: AccessorParserErrorKind::InvalidCharacter('$'), span: span(3, 4) });
}

#[test]
fn interpolation_without_accessor() {
    let i = take_spanned_string_interpolator("plain text").unwrap();
    assert!(i.segments.is_empty());
    assert_eq!(i.postfix, "plain text");
}

#[test]
fn interpolation_with_escaped_dollar() {
    let i = take_spanned_string_interpolator("cost \\$5").unwrap();
    assert!(i.segments.is_empty());
    assert_eq!(i.postfix, "cost $5");
}

#[test]
fn interpolation_propagates_accessor_error() {
    let err = take_spanned_string_interpolator("a $b").unwrap_err();
    assert_eq!(err, AccessorParserError { kind: AccessorParserErrorKind::InvalidAccessorKey, span: span(2, 3) });
}

#[test]
fn interpolation_into_unspanned() {
    let i = take_spanned_string_interpolator("x ${a[2]} y").unwrap().into_interpolator();
    assert_eq!(i.segments.len(), 1);
    assert_eq!(i.segments[0].prefix, "x ");
    let keys = i.segments[0].accessor.keys();
    assert!(is_text(&keys[0], "a"));
    assert!(matches!(keys[1], AccessorKey::Numeric(2)));
    assert_eq!(i.postfix, " y");
}

#[test]
fn accessor_into_unspanned() {
    let a = parse_accessor("${x.y}").unwrap().into_accessor();
    assert_eq!(a.keys().len(), 2);
    assert!(is_text(&a.keys()[1], "y"));
}

#[test]
fn edit_distance_properties() {
    assert_eq!(edit_distance("kitten", "sitting"), 3);
    assert_eq!(edit_distance("sitting", "kitten"), 3);
    assert_eq!(edit_distance("abc", "abc"), 0);
    assert_eq!(edit_distance("", ""), 0);
    assert_eq!(edit_distance("", "abc"), 3);
    assert_eq!(edit_distance("a", "aa"), 1);
    assert_eq!(edit_distance("héllo", "hello"), 1);
}

fn unknown_key_suggestions(err: &AccessorValidationError) -> Vec<String> {
    match &err.kind {
        AccessorValidationErrorKind::UnknownKey { possible_keys } => possible_keys.clone(),
        other => unreachable!("{:?}", other),
    }
}

#[test]
fn unknown_key_suggests_closest_first() {
    let schema = node(vec![(
        "event",
        node(vec![("payload", PathNode::KnownField), ("created_ms", PathNode::KnownField)]),
    )]);
    let err = schema.validate_accessor(&accessor("${event.created}")).unwrap_err();
    assert_eq!(unknown_key_suggestions(&err), vec!["created_ms".to_owned(), "payload".to_owned()]);
    assert_eq!(err.span, span(7, 15));

    let schema = node(vec![("event", node(vec![("created_ms", PathNode::KnownField)]))]);
    let err = schema.validate_accessor(&accessor("${event.unknown}")).unwrap_err();
    assert_eq!(unknown_key_suggestions(&err), vec!["created_ms".to_owned()]);
}

#[test]
fn node_is_not_string_representable() {
    let schema = test_path_tree();
    let standalone = accessor("${event}");
    schema.validate_accessor(&standalone).unwrap();

    let interpolator = take_spanned_string_interpolator("${event}").unwrap();
    let errors = schema.validate_interpolator(&interpolator).unwrap_err();
    assert_eq!(errors.len(), 1);
    assert!(matches!(errors[0].kind, AccessorValidationErrorKind::NotStringRepresentable));
    assert_eq!(errors[0].span, span(0, 8));
}

#[test]
fn object_root_rules() {
    let schema = test_path_tree();
    schema.validate_accessor(&accessor("${event.payload}")).unwrap();
    schema.validate_accessor(&accessor("${event.payload.x[3]}")).unwrap();
    let err = schema.validate_accessor(&accessor("${event.payload[3]}")).unwrap_err();
    assert!(matches!(err.kind, AccessorValidationErrorKind::NumericIndexInMap));
    assert_eq!(err.span, span(15, 18));

    let interpolator = take_spanned_string_interpolator("${event.metadata}").unwrap();
    let errors = schema.validate_interpolator(&interpolator).unwrap_err();
    assert!(matches!(errors[0].kind, AccessorValidationErrorKind::NotStringRepresentable));
}

#[test]
fn node_rejects_numeric_index() {
    let err = test_path_tree().validate_accessor(&accessor("${event[0]}")).unwrap_err();
    assert!(matches!(err.kind, AccessorValidationErrorKind::NumericIndexInMap));
    assert_eq!(err.span, span(7, 10));
}

#[test]
fn known_field_is_not_indexable() {
    let err =
        test_path_tree().validate_accessor(&accessor("${event.created_ms.x}")).unwrap_err();
    assert!(matches!(err.kind, AccessorValidationErrorKind::NotIndexable));
    assert_eq!(err.span, span(18, 20));
}

#[test]
fn interpolator_collects_every_failing_segment() {
    let interpolator =
        take_spanned_string_interpolator("${nope} ${item} ${event.created_ms.x} ${event}").unwrap();
    let errors = test_path_tree().validate_interpolator(&interpolator).unwrap_err();
    assert_eq!(errors.len(), 3);
    assert!(matches!(errors[0].kind, AccessorValidationErrorKind::UnknownKey { .. }));
    assert!(matches!(errors[1].kind, AccessorValidationErrorKind::NotIndexable));
    assert!(matches!(errors[2].kind, AccessorValidationErrorKind::NotStringRepresentable));
}
