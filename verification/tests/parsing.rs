//! End-to-end tests of the record and document parsers.

use tamanegi::{parse_finding, parse_findings, Expected, Field, Finding};

/// A record block built from the eleven raw value texts, each line
/// terminated by `'\n'`.
fn block(vals: [&str; 11]) -> String {
    let labels = [
        "Finding: ",
        "Secret: ",
        "RuleID: ",
        "Entropy: ",
        "File: ",
        "Line: ",
        "Commit: ",
        "Author: ",
        "Email: ",
        "Date: ",
        "Fingerprint: ",
    ];
    let mut out = String::new();
    for (label, val) in labels.iter().zip(vals.iter()) {
        out.push_str(label);
        out.push_str(val);
        out.push('\n');
    }
    out
}

fn full_block() -> String {
    block([
        "tok",
        "s3cr3t",
        "aws-key",
        "4.2",
        "a.go",
        "10",
        "abc123",
        "bob",
        "b@x.com",
        "2024-01-01",
        "fp1",
    ])
}

fn opt(s: &str) -> Option<String> {
    Some(s.to_string())
}

fn entropy_as_f64(f: &Finding) -> f64 {
    let d = f.entropy.as_ref().expect("entropy absent");
    let mut text = String::new();
    if d.negative {
        text.push('-');
    }
    text.push_str(&d.int_digits);
    if !d.frac_digits.is_empty() {
        text.push('.');
        text.push_str(&d.frac_digits);
    }
    text.parse::<f64>().expect("digits do not convert")
}

#[test]
fn full_record_end_to_end() {
    let input = "Finding: tok\nSecret: s3cr3t\nRuleID: aws-key\nEntropy: 4.2\nFile: a.go\n\
                 Line: 10\nCommit: abc123\nAuthor: bob\nEmail: b@x.com\nDate: 2024-01-01\n\
                 Fingerprint: fp1\n";
    let (f, rest) = parse_finding(input).expect("well-formed record must parse");
    assert_eq!(rest, input.chars().count());
    assert_eq!(f.secret_token, opt("tok"));
    assert_eq!(f.secret, opt("s3cr3t"));
    assert_eq!(f.rule_id, opt("aws-key"));
    let d = f.entropy.as_ref().expect("entropy populated");
    assert!(!d.negative);
    assert_eq!(d.int_digits, "4");
    assert_eq!(d.frac_digits, "2");
    assert_eq!(f.file, opt("a.go"));
    assert_eq!(f.line, Some(10));
    assert_eq!(f.commit, opt("abc123"));
    assert_eq!(f.author, opt("bob"));
    assert_eq!(f.email, opt("b@x.com"));
    assert_eq!(f.date, opt("2024-01-01"));
    assert_eq!(f.fingerprint, opt("fp1"));
    let (all, stop) = parse_findings(input);
    assert_eq!(all.len(), 1);
    assert_eq!(stop, input.chars().count());
}

#[test]
fn values_are_trimmed() {
    let input = block([
        "  tok  ",
        "\ts3cr3t\t",
        " aws-key",
        "4.2",
        "a.go ",
        "10",
        "abc123",
        " bob ",
        "b@x.com",
        "2024-01-01",
        "fp1  ",
    ]);
    let (f, _) = parse_finding(&input).expect("record must parse");
    assert_eq!(f.secret_token, opt("tok"));
    assert_eq!(f.secret, opt("s3cr3t"));
    assert_eq!(f.rule_id, opt("aws-key"));
    assert_eq!(f.file, opt("a.go"));
    assert_eq!(f.author, opt("bob"));
    assert_eq!(f.fingerprint, opt("fp1"));
}

#[test]
fn blank_fields_are_absent_not_empty() {
    let input = block(["tok", "", "aws-key", "", "a.go", "", "abc123", "   ", "b@x.com", "\t", "fp1"]);
    let (f, _) = parse_finding(&input).expect("record with blank values must parse");
    assert_eq!(f.secret, None);
    assert_eq!(f.entropy.as_ref().map(|d| d.int_digits.clone()), None);
    assert_eq!(f.line, None);
    assert_eq!(f.author, None);
    assert_eq!(f.date, None);
    assert_eq!(f.secret_token, opt("tok"));
}

#[test]
fn entropy_decimal_is_exact() {
    let mut vals = [
        "tok", "s", "r", "3.95", "a.go", "10", "c", "a", "e", "d", "fp",
    ];
    let (f, _) = parse_finding(&block(vals)).expect("record must parse");
    assert_eq!(entropy_as_f64(&f), 3.95);
    vals[3] = "";
    let (f2, _) = parse_finding(&block(vals)).expect("record must parse");
    assert!(f2.entropy.is_none());
}

#[test]
fn entropy_sign_handling() {
    let vals = ["tok", "s", "r", "-1.5", "a.go", "10", "c", "a", "e", "d", "fp"];
    let (f, _) = parse_finding(&block(vals)).expect("record must parse");
    let d = f.entropy.as_ref().unwrap();
    assert!(d.negative);
    assert_eq!(d.int_digits, "1");
    assert_eq!(d.frac_digits, "5");
    assert_eq!(entropy_as_f64(&f), -1.5);

    let vals2 = ["tok", "s", "r", "+2", "a.go", "10", "c", "a", "e", "d", "fp"];
    let (f2, _) = parse_finding(&block(vals2)).expect("record must parse");
    let d2 = f2.entropy.as_ref().unwrap();
    assert!(!d2.negative);
    assert_eq!(d2.int_digits, "2");
    assert_eq!(d2.frac_digits, "");
}

#[test]
fn entropy_trailing_dot_fails_record() {
    let vals = ["tok", "s", "r", "3.", "a.go", "10", "c", "a", "e", "d", "fp"];
    let input = block(vals);
    let err = parse_finding(&input).expect_err("dot without digits leaves the cursor off a break");
    assert!(matches!(err.expected, Expected::LineBreak));
    assert_eq!(err.offset, input.find("3.").unwrap() + 1);
}

#[test]
fn unterminated_first_line_fails() {
    let input = "Finding: x";
    let err = parse_finding(input).expect_err("missing mandatory line break must fail");
    assert!(matches!(err.expected, Expected::LineBreak));
    assert_eq!(err.offset, 10);
    // the document parser stops cleanly instead
    let (all, stop) = parse_findings(input);
    assert!(all.is_empty());
    assert_eq!(stop, 0);
}

#[test]
fn zero_records_is_empty_not_error() {
    let (all, stop) = parse_findings("");
    assert!(all.is_empty());
    assert_eq!(stop, 0);

    let (all2, stop2) = parse_findings("totally unrelated text\nwith lines\n");
    assert!(all2.is_empty());
    assert_eq!(stop2, 0);
}

#[test]
fn label_mismatch_names_the_field() {
    let input = "Finding: x\nWrong: y\n";
    let err = parse_finding(input).expect_err("wrong label must fail");
    assert!(matches!(err.expected, Expected::Label(Field::Secret)));
    assert_eq!(err.offset, 11);
}

#[test]
fn nondigit_line_number_fails_record() {
    let vals = ["tok", "s", "r", "4.2", "a.go", "abc", "c", "a", "e", "d", "fp"];
    let input = block(vals);
    let err = parse_finding(&input).expect_err("non-digit line number must fail");
    assert!(matches!(err.expected, Expected::LineBreak));
    assert_eq!(err.offset, input.find("abc").unwrap());
}

#[test]
fn negative_line_number_fails_record() {
    let vals = ["tok", "s", "r", "4.2", "a.go", "-5", "c", "a", "e", "d", "fp"];
    let err = parse_finding(&block(vals)).expect_err("a sign is not a valid line number");
    assert!(matches!(err.expected, Expected::LineBreak));
}

#[test]
fn line_number_overflow_fails_record() {
    let vals = ["tok", "s", "r", "4.2", "a.go", "4294967296", "c", "a", "e", "d", "fp"];
    let input = block(vals);
    let err = parse_finding(&input).expect_err("an overflowing line number must fail");
    assert!(matches!(err.expected, Expected::LineBreak));
    assert_eq!(err.offset, input.find("4294967296").unwrap());

    let vals2 = ["tok", "s", "r", "4.2", "a.go", "4294967295", "c", "a", "e", "d", "fp"];
    let (f, _) = parse_finding(&block(vals2)).expect("the largest line number parses");
    assert_eq!(f.line, Some(u32::MAX));
}

#[test]
fn three_records_in_order() {
    let one = block(["t1", "s1", "r1", "1.0", "f1", "1", "c1", "a1", "e1", "d1", "p1"]);
    let two = block(["t2", "s2", "r2", "2.0", "f2", "2", "c2", "a2", "e2", "d2", "p2"]);
    let three = block(["t3", "s3", "r3", "3.0", "f3", "3", "c3", "a3", "e3", "d3", "p3"]);
    // one blank separator line between the first two, none after the second
    let input = format!("{}\n{}{}", one, two, three);
    let (all, stop) = parse_findings(&input);
    assert_eq!(all.len(), 3);
    assert_eq!(all[0].rule_id, opt("r1"));
    assert_eq!(all[1].rule_id, opt("r2"));
    assert_eq!(all[2].rule_id, opt("r3"));
    assert_eq!(stop, input.chars().count());
}

#[test]
fn trailing_garbage_truncates_cleanly() {
    let one = block(["t1", "s1", "r1", "1.0", "f1", "1", "c1", "a1", "e1", "d1", "p1"]);
    let input = format!("{}Finding: half\nSecret: lost", one);
    let (all, stop) = parse_findings(&input);
    assert_eq!(all.len(), 1);
    assert_eq!(stop, one.chars().count());
}

#[test]
fn last_record_may_omit_trailing_newline() {
    let input = full_block();
    let trimmed_input = input.strip_suffix('\n').unwrap();
    let (f, rest) = parse_finding(trimmed_input).expect("final break is optional");
    assert_eq!(f.fingerprint, opt("fp1"));
    assert_eq!(rest, trimmed_input.chars().count());
    let (all, stop) = parse_findings(trimmed_input);
    assert_eq!(all.len(), 1);
    assert_eq!(stop, trimmed_input.chars().count());
}

#[test]
fn carriage_return_line_endings_accepted() {
    let input = "Finding: tok\r\nSecret: s3cr3t\r\nRuleID: aws-key\r\nEntropy: 4.2\r\n\
                 File: a.go\r\nLine: 10\r\nCommit: abc123\r\nAuthor: bob\r\nEmail: b@x.com\r\n\
                 Date: 2024-01-01\r\nFingerprint: fp1\r\n";
    let (f, rest) = parse_finding(input).expect("carriage returns are trimmed away");
    assert_eq!(f.secret_token, opt("tok"));
    assert_eq!(f.line, Some(10));
    assert_eq!(f.fingerprint, opt("fp1"));
    assert_eq!(rest, input.chars().count());
}

#[test]
fn document_position_reported_in_characters() {
    // a non-ASCII value: positions count characters, not bytes
    let vals = ["tøk", "s", "r", "4.2", "a.go", "10", "c", "a", "e", "d", "fp"];
    let input = block(vals);
    let (f, rest) = parse_finding(&input).expect("record must parse");
    assert_eq!(f.secret_token, opt("tøk"));
    assert_eq!(rest, input.chars().count());
}
