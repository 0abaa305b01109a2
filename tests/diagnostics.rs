use ddebug::builder::{BuildError, BuildErros, ParseError};
use ddebug::searcher::{seed, SearcherError};

#[test]
fn test_parse_single_error_code() {
    let test_cargo_output = r#"
error[E0384]: cannot assign twice to immutable variable `a`
 --> test/test_project/src/main.rs:4:5
error: could not compile `test_project` (bin "test_project") due to previous error; 3 warnings emitted
"#;

    let build_errors = BuildErros::try_from(test_cargo_output.to_string()).unwrap();

    let expected_error = BuildError {
        error_code: Some("E0384".to_owned()),
        source_file: Some("test/test_project/src/main.rs".into()),
        error_src: "error[E0384]: cannot assign twice to immutable variable `a`".to_owned(),
    };

    let expected_build_errors = BuildErros {
        errors: vec![expected_error],
    };

    assert_eq!(expected_build_errors, build_errors);
}

#[test]
fn location_without_error_is_rejected() {
    let out = " --> src/main.rs:1:1\n";
    let r = BuildErros::try_from(out.to_string());
    assert_eq!(r, Err(ParseError::UnmatchedLocationInformation));
}

#[test]
fn second_location_for_one_error_is_rejected() {
    let out = "error[E0001]: x\n --> a.rs:1:1\n --> b.rs:2:2\n";
    let r = BuildErros::try_from(out.to_string());
    assert_eq!(r, Err(ParseError::UnmatchedLocationInformation));
}

#[test]
fn error_without_code_is_parsed() {
    let out = "error: could not find crate\n  --> src/lib.rs:1:5\n";
    let r = BuildErros::try_from(out.to_string()).unwrap();
    assert_eq!(
        r.errors,
        vec![BuildError {
            error_code: None,
            source_file: Some("src/lib.rs".to_string()),
            error_src: "error: could not find crate".to_string(),
        }]
    );
}

#[test]
fn errors_without_location_are_dropped() {
    let out = "error: aborting due to previous error\nerror[E0308]: mismatched types\n\t--> src/x.rs:9:1\n";
    let r = BuildErros::try_from(out.to_string()).unwrap();
    assert_eq!(r.errors.len(), 1);
    assert_eq!(r.errors[0].error_code, Some("E0308".to_string()));
    assert_eq!(r.errors[0].source_file, Some("src/x.rs".to_string()));
    assert_eq!(r.errors[0].error_src, "error[E0308]: mismatched types");
}

#[test]
fn records_keep_discovery_order_and_skip_other_lines() {
    let out = "warning: unused\nerror[E0001]: one\r\n   |\n --> a.rs:1:1\r\nnote: x\nerror[E0002]: two\n --> b.rs:2:2\n";
    let r = BuildErros::try_from(out.to_string()).unwrap();
    let codes: Vec<Option<String>> = r.errors.iter().map(|e| e.error_code.clone()).collect();
    assert_eq!(codes, vec![Some("E0001".to_string()), Some("E0002".to_string())]);
    assert_eq!(r.errors[0].source_file, Some("a.rs".to_string()));
    assert_eq!(r.errors[0].error_src, "error[E0001]: one");
    assert_eq!(r.errors[1].source_file, Some("b.rs".to_string()));
}

#[test]
fn bracket_after_colon_is_no_code() {
    let out = "error: expected one of `[` or `]`\n --> m.rs:3:1\n";
    let r = BuildErros::try_from(out.to_string()).unwrap();
    assert_eq!(r.errors[0].error_code, None);
}

#[test]
fn unclosed_code_bracket_is_no_code() {
    let out = "error[E0384: cannot\n --> m.rs:3:1\n";
    let r = BuildErros::try_from(out.to_string()).unwrap();
    assert_eq!(r.errors[0].error_code, None);
}

#[test]
fn location_without_colon_keeps_whole_path() {
    let out = "error[E1]: e\n-->   dir/file.rs   \n";
    let r = BuildErros::try_from(out.to_string()).unwrap();
    assert_eq!(r.errors[0].source_file, Some("dir/file.rs".to_string()));
}

#[test]
fn empty_output_has_no_errors() {
    let r = BuildErros::try_from(String::new()).unwrap();
    assert!(r.errors.is_empty());
    let r = BuildErros::try_from(" \n\n \t\n".to_string()).unwrap();
    assert!(r.errors.is_empty());
}

#[test]
fn unicode_whitespace_is_trimmed() {
    let out = "\u{3000}error[E7]: wide\u{00a0}\n\u{2003}--> u.rs:1:1\n";
    let r = BuildErros::try_from(out.to_string()).unwrap();
    assert_eq!(r.errors[0].error_src, "error[E7]: wide");
    assert_eq!(r.errors[0].source_file, Some("u.rs".to_string()));
}

fn record(code: Option<&str>, src: &str) -> BuildError {
    BuildError {
        error_code: code.map(|c| c.to_string()),
        source_file: Some("src/main.rs".to_string()),
        error_src: src.to_string(),
    }
}

#[test]
fn signature_compares_codes() {
    let a = record(Some("E0384"), "error[E0384]: cannot assign twice to immutable variable `a`");
    let b = record(Some("E0384"), "error[E0384]: cannot assign twice to immutable variable `b`");
    let c = record(Some("E0308"), "error[E0384]: cannot assign twice to immutable variable `a`");
    assert!(a.same_signature(&b));
    assert!(!a.same_signature(&c));
}

#[test]
fn signature_falls_back_to_source_without_code() {
    let a = record(None, "error: could not find crate");
    let b = record(None, "error: could not find crate");
    let c = record(None, "error: could not find module");
    let d = record(Some("E0463"), "error: could not find crate");
    assert!(a.same_signature(&b));
    assert!(!a.same_signature(&c));
    assert!(!a.same_signature(&d));
    assert!(!d.same_signature(&a));
}

#[test]
fn signature_is_transitive_on_example() {
    let master = record(Some("E0384"), "error[E0384]: first");
    let variant = record(Some("E0384"), "error[E0384]: second");
    let rerun = record(Some("E0384"), "error[E0384]: third");
    assert!(variant.same_signature(&master));
    assert!(rerun.same_signature(&variant));
    assert!(rerun.same_signature(&master));
    assert!(master.same_signature(&master));
}

#[test]
fn seed_without_errors_is_none() {
    let r = seed(BuildErros { errors: vec![] });
    assert!(matches!(r, Ok(None)));
}

#[test]
fn seed_takes_first_error() {
    let out = "error[E0384]: cannot assign twice to immutable variable `a`\n --> src/main.rs:4:5\nerror[E0308]: other\n --> src/main.rs:9:1\n";
    let errors = BuildErros::try_from(out.to_string()).unwrap();
    let master = seed(errors).unwrap().unwrap();
    assert_eq!(master.error_code, Some("E0384".to_string()));
    assert_eq!(master.source_file, Some("src/main.rs".to_string()));
}

#[test]
fn seed_without_location_fails() {
    let errors = BuildErros {
        errors: vec![BuildError {
            error_code: Some("E0384".to_string()),
            source_file: None,
            error_src: "error[E0384]: x".to_string(),
        }],
    };
    match seed(errors) {
        Err(SearcherError::ErrorSourceFileIsMissing(src)) => assert_eq!(src, "error[E0384]: x"),
        other => panic!("unexpected {:?}", other.map(|o| o.is_some())),
    }
}

#[test]
fn code_may_follow_the_keyword_after_a_space() {
    let out = "error [E0384]: cannot assign twice\n --> src/main.rs:4:5\n";
    let r = BuildErros::try_from(out.to_string()).unwrap();
    assert_eq!(r.errors[0].error_code, Some("E0384".to_string()));
    assert_eq!(r.errors[0].error_src, "error [E0384]: cannot assign twice");
}
