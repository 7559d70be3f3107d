use mapper_ex::path::{parse, PathSegment};

#[test]
fn test_simple_key() {
    let segs = parse("$.firstName").unwrap();
    assert_eq!(segs.len(), 1);
    assert!(matches!(&segs[0], PathSegment::Key(k) if k == "firstName"));
}

#[test]
fn test_nested_keys() {
    let segs = parse("$.address.zip").unwrap();
    assert_eq!(segs.len(), 2);
    assert!(matches!(&segs[0], PathSegment::Key(k) if k == "address"));
    assert!(matches!(&segs[1], PathSegment::Key(k) if k == "zip"));
}

#[test]
fn test_wildcard() {
    let segs = parse("$.educations[*]").unwrap();
    assert_eq!(segs.len(), 2);
    assert!(matches!(&segs[0], PathSegment::Key(k) if k == "educations"));
    assert!(matches!(&segs[1], PathSegment::Wildcard));
}

#[test]
fn test_wildcard_with_nested() {
    let segs = parse("$.notes[*].action").unwrap();
    assert_eq!(segs.len(), 3);
    assert!(matches!(&segs[0], PathSegment::Key(k) if k == "notes"));
    assert!(matches!(&segs[1], PathSegment::Wildcard));
    assert!(matches!(&segs[2], PathSegment::Key(k) if k == "action"));
}

#[test]
fn test_index() {
    let segs = parse("$.source[0]").unwrap();
    assert_eq!(segs.len(), 2);
    assert!(matches!(&segs[0], PathSegment::Key(k) if k == "source"));
    assert!(matches!(&segs[1], PathSegment::Index(0)));
}

#[test]
fn test_complex_combined() {
    let segs = parse("$.notes[*].candidates.data[0].id").unwrap();
    assert_eq!(segs.len(), 6);
    assert!(matches!(&segs[0], PathSegment::Key(k) if k == "notes"));
    assert!(matches!(&segs[1], PathSegment::Wildcard));
    assert!(matches!(&segs[2], PathSegment::Key(k) if k == "candidates"));
    assert!(matches!(&segs[3], PathSegment::Key(k) if k == "data"));
    assert!(matches!(&segs[4], PathSegment::Index(0)));
    assert!(matches!(&segs[5], PathSegment::Key(k) if k == "id"));
}

#[test]
fn test_root_only() {
    let segs = parse("$").unwrap();
    assert!(segs.is_empty());
}

#[test]
fn test_root_dot() {
    let segs = parse("$.").unwrap();
    assert!(segs.is_empty());
}

#[test]
fn test_invalid_no_dollar() {
    assert!(parse("firstName").is_err());
}

#[test]
fn test_deep_nesting() {
    let segs = parse("$.a.b.c.d.e").unwrap();
    assert_eq!(segs.len(), 5);
    assert!(matches!(&segs[0], PathSegment::Key(k) if k == "a"));
    assert!(matches!(&segs[4], PathSegment::Key(k) if k == "e"));
}

#[test]
fn unclosed_bracket_is_refused() {
    let e = parse("$.a[0").unwrap_err();
    assert!(e.contains("$.a[0"));
}

#[test]
fn bad_bracket_body_is_refused() {
    assert!(parse("$.a[x]").unwrap_err().ends_with("$.a[x]"));
    assert!(parse("$.a[-1]").unwrap_err().ends_with("$.a[-1]"));
    assert!(parse("$.a[]").unwrap_err().ends_with("$.a[]"));
    assert!(parse("firstName").unwrap_err().ends_with("firstName"));
}

#[test]
fn empty_path_is_refused() {
    assert!(parse("").is_err());
}

#[test]
fn dollar_without_dot_reads_segments() {
    let segs = parse("$[2]").unwrap();
    assert_eq!(segs, vec![PathSegment::Index(2)]);
    let segs = parse("$a").unwrap();
    assert_eq!(segs, vec![PathSegment::Key("a".to_string())]);
}

#[test]
fn index_with_plus_sign_reads_as_number() {
    let segs = parse("$.a[+3]").unwrap();
    assert_eq!(segs[1], PathSegment::Index(3));
}
