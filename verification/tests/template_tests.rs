use sewer_replacement::ast::Part;
use sewer_replacement::capture::{Capture, CaptureList};
use sewer_replacement::eval::Error;
use sewer_replacement::parse::parse_template;

fn caps(groups: Vec<Option<&[u8]>>, names: Vec<Option<&[u8]>>) -> CaptureList {
    CaptureList::new(
        groups.into_iter().map(|g| g.map(|v| v.to_vec())).collect(),
        names.into_iter().map(|n| n.map(|v| v.to_vec())).collect(),
    )
}

fn empty_caps() -> CaptureList {
    caps(vec![], vec![])
}

#[test]
fn literal_bytes() {
    let t = parse_template(b"ABC").unwrap();
    assert_eq!(t.build(&empty_caps()).unwrap(), b"ABC".to_vec());
}

#[test]
fn hex_escape_round_trip() {
    for v in 0x00u8..=0x7f {
        let text = format!("\\x{:02x}", v);
        let t = parse_template(text.as_bytes()).unwrap();
        assert_eq!(t.build(&empty_caps()).unwrap(), vec![v]);
    }
}

#[test]
fn hex_escape_upper_case() {
    let t = parse_template(b"\\x4A").unwrap();
    assert_eq!(t.build(&empty_caps()).unwrap(), vec![0x4a]);
}

#[test]
fn escaped_backslash_and_space() {
    let t = parse_template(b"\\\\\\ ").unwrap();
    assert_eq!(t.build(&empty_caps()).unwrap(), b"\\ ".to_vec());
}

#[test]
fn doubled_markers_are_literals() {
    let t = parse_template(b"$$(())||").unwrap();
    assert_eq!(t.build(&empty_caps()).unwrap(), b"$()|".to_vec());
}

#[test]
fn positional_reference() {
    let t = parse_template(b"$0").unwrap();
    let c = caps(vec![Some(b"abc")], vec![None]);
    assert_eq!(t.build(&c).unwrap(), b"abc".to_vec());
}

#[test]
fn positional_reference_multi_digit() {
    let t = parse_template(b"$10").unwrap();
    let mut groups: Vec<Option<&[u8]>> = vec![Some(b"m")];
    for _ in 0..9 {
        groups.push(None);
    }
    groups.push(Some(b"ten"));
    let c = caps(groups, vec![None; 11]);
    assert_eq!(t.build(&c).unwrap(), b"ten".to_vec());
}

#[test]
fn named_reference() {
    let t = parse_template(b"$<g1>").unwrap();
    let c = caps(vec![Some(b"m"), Some(b"X")], vec![None, Some(b"g1")]);
    assert_eq!(t.build(&c).unwrap(), b"X".to_vec());
}

#[test]
fn missing_positional_reference() {
    let t = parse_template(b"$3").unwrap();
    let c = caps(vec![Some(b"m")], vec![None]);
    assert!(matches!(t.build(&c), Err(Error::RepetitionNotFoundId(3))));
}

#[test]
fn missing_named_reference() {
    let t = parse_template(b"$<nope>").unwrap();
    let c = caps(vec![Some(b"m")], vec![None]);
    match t.build(&c) {
        Err(Error::RepetitionNotFoundString(n)) => assert_eq!(n, b"nope".to_vec()),
        other => panic!("expected a named-reference failure, got {:?}", other),
    }
}

#[test]
fn alternation_exactly_one_succeeds() {
    let t = parse_template(b"($<g1>|$<g2>)").unwrap();
    let c = caps(
        vec![Some(b"m"), Some(b"X"), None],
        vec![None, Some(b"g1"), Some(b"g2")],
    );
    assert_eq!(t.build(&c).unwrap(), b"X".to_vec());
}

#[test]
fn alternation_two_successes_is_ambiguous() {
    let t = parse_template(b"($<g1>|$<g2>)").unwrap();
    let c = caps(
        vec![Some(b"m"), Some(b"X"), Some(b"Y")],
        vec![None, Some(b"g1"), Some(b"g2")],
    );
    match t.build(&c) {
        Err(Error::GroupConflict(a, b)) => {
            assert_eq!(a, b"X".to_vec());
            assert_eq!(b, b"Y".to_vec());
        }
        other => panic!("expected a group conflict, got {:?}", other),
    }
}

#[test]
fn alternation_no_success() {
    let t = parse_template(b"($<g1>|$<g2>)").unwrap();
    let c = caps(vec![Some(b"m")], vec![None]);
    match t.build(&c) {
        Err(Error::NoGroupMatched(errs)) => assert_eq!(errs.len(), 2),
        other => panic!("expected no-group-matched, got {:?}", other),
    }
}

#[test]
fn nested_alternation_failure_is_soft() {
    let t = parse_template(b"(?x)( ($1|$2) | $3 )").unwrap();
    let c = caps(vec![Some(b"m"), None, None, Some(b"z")], vec![None; 4]);
    assert_eq!(t.build(&c).unwrap(), b"z".to_vec());
}

#[test]
fn nested_conflict_is_hard() {
    let t = parse_template(b"(?x)( ($1|$2) | $3 )").unwrap();
    let c = caps(
        vec![Some(b"m"), Some(b"a"), Some(b"b"), None],
        vec![None; 4],
    );
    assert!(matches!(t.build(&c), Err(Error::GroupConflict(_, _))));
}

#[test]
fn evaluation_is_idempotent() {
    let t = parse_template(b"a$1($2|$3)").unwrap();
    let c = caps(
        vec![Some(b"m"), Some(b"one"), None, Some(b"three")],
        vec![None; 4],
    );
    let first = t.build(&c).unwrap();
    let second = t.build(&c).unwrap();
    assert_eq!(first, second);
}

#[test]
fn tolerate_group_fail_classification() {
    assert!(Error::RepetitionNotFoundId(0).tolerate_group_fail());
    assert!(Error::RepetitionNotFoundString(b"g".to_vec()).tolerate_group_fail());
    assert!(Error::NoGroupMatched(vec![]).tolerate_group_fail());
    assert!(!Error::Parse(0).tolerate_group_fail());
    assert!(!Error::GroupConflict(b"a".to_vec(), b"b".to_vec()).tolerate_group_fail());
}

#[test]
fn parse_error_bad_escape() {
    assert!(matches!(parse_template(b"ab\\q"), Err(Error::Parse(2))));
}

#[test]
fn parse_error_bare_marker() {
    assert!(matches!(parse_template(b"$"), Err(Error::Parse(0))));
}

#[test]
fn parse_error_empty_template() {
    assert!(matches!(parse_template(b""), Err(Error::Parse(0))));
}

#[test]
fn parse_error_unterminated_group() {
    assert!(parse_template(b"(ab").is_err());
}

#[test]
fn parse_error_empty_name() {
    assert!(parse_template(b"$<>").is_err());
}

#[test]
fn parse_error_non_ascii_literal() {
    assert!(matches!(parse_template(&[0x61, 0x80]), Err(Error::Parse(1))));
}

#[test]
fn parse_error_stray_close_marker() {
    assert!(parse_template(b"ab)").is_err());
}

#[test]
fn empty_group_matches_nothing() {
    let t = parse_template(b"()").unwrap();
    match t.build(&empty_caps()) {
        Err(Error::NoGroupMatched(errs)) => assert_eq!(errs.len(), 0),
        other => panic!("expected no-group-matched, got {:?}", other),
    }
}

#[test]
fn extended_mode_skips_whitespace_and_comments() {
    let t = parse_template(b"(?x)a b # note\nc").unwrap();
    assert_eq!(t.build(&empty_caps()).unwrap(), b"abc".to_vec());
}

#[test]
fn extended_mode_group_spacing() {
    let t = parse_template(b"(?x)( $1 | $2 )").unwrap();
    let c = caps(vec![Some(b"m"), Some(b"v"), None], vec![None; 3]);
    assert_eq!(t.build(&c).unwrap(), b"v".to_vec());
}

#[test]
fn plain_mode_whitespace_is_literal() {
    let t = parse_template(b"a b").unwrap();
    assert_eq!(t.build(&empty_caps()).unwrap(), b"a b".to_vec());
}

#[test]
fn plain_mode_comment_marker_is_literal() {
    let t = parse_template(b"#x").unwrap();
    assert_eq!(t.build(&empty_caps()).unwrap(), b"#x".to_vec());
}

#[test]
fn render_literal_is_hex_escaped() {
    let t = parse_template(b"a").unwrap();
    assert_eq!(t.render(), b"\\x61".to_vec());
}

#[test]
fn render_references_and_groups() {
    let t = parse_template(b"$12$<g>(a|b)").unwrap();
    assert_eq!(t.render(), b"$12${g}(\\x61|\\x62)".to_vec());
}

#[test]
fn render_single_part() {
    let p = Part::RepId(7);
    assert_eq!(p.render(), b"$7".to_vec());
}

#[test]
fn capture_list_lookup() {
    let c = caps(
        vec![Some(b"whole"), None, Some(b"two")],
        vec![None, Some(b"a"), Some(b"b")],
    );
    assert_eq!(c.get(0), Some(b"whole".to_vec()));
    assert_eq!(c.get(1), None);
    assert_eq!(c.get(2), Some(b"two".to_vec()));
    assert_eq!(c.get(9), None);
    assert_eq!(c.name(b"b"), Some(b"two".to_vec()));
    assert_eq!(c.name(b"a"), None);
    assert_eq!(c.name(b"zz"), None);
}

#[test]
fn name_may_not_hold_a_brace() {
    assert!(parse_template(b"$<a}b>").is_err());
}

#[test]
fn extended_flag_alone_is_an_empty_template() {
    assert!(parse_template(b"(?x)").is_err());
}

#[test]
fn extended_flag_matters_only_at_the_start() {
    let t = parse_template(b"a(?x)b").unwrap();
    assert_eq!(t.build(&empty_caps()).unwrap(), b"a?xb".to_vec());
}

#[test]
fn literal_and_reference_mix() {
    let t = parse_template(b"-$0-").unwrap();
    let c = caps(vec![Some(b"m")], vec![None]);
    assert_eq!(t.build(&c).unwrap(), b"-m-".to_vec());
}
