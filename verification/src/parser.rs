//! The executable parsers, each proved to follow the grammar exactly.

use vstd::prelude::*;
use vstd::string::StrSliceExecFns;

use crate::finding::{
    view_opt, view_opt_decimal, Decimal, DecimalView, Expected, Field, Finding, FindingView,
    ParseError,
};
use crate::grammar::{
    decimal_parse, digits_end, digits_value, field_value, is_digit, is_space,
    entropy_line, lemma_digits_end_bounds, lemma_parse_finding_bounds, lemma_trim_end_at_bounds,
    last_text_line, line_break_end, line_end, line_no_line, match_label, skip_space,
    spec_label, spec_parse_finding, spec_parse_findings, text_line, trim_end_at, trimmed,
    u32_field,
};

verus! {

/// Whether `c` is trimmed away at the ends of a field value.
fn is_space_char(c: char) -> (b: bool)
    ensures
        b == is_space(c),
{
    let u = c as u32;
    c == ' ' || (9 <= u && u <= 13) || c == '\u{85}' || c == '\u{a0}' || c == '\u{1680}' || (
    0x2000 <= u && u <= 0x200a) || c == '\u{2028}' || c == '\u{2029}' || c == '\u{202f}'
        || c == '\u{205f}' || c == '\u{3000}'
}

/// Whether `c` is a decimal digit.
fn is_digit_char(c: char) -> (b: bool)
    ensures
        b == is_digit(c),
{
    let u = c as u32;
    48 <= u && u <= 57
}

/// The label of `f`, as it appears at the head of the field's line.
pub fn label_text(f: Field) -> (r: &'static str)
    ensures
        r@ == spec_label(f),
{
    match f {
        Field::SecretToken => "Finding: ",
        Field::Secret => "Secret: ",
        Field::RuleId => "RuleID: ",
        Field::Entropy => "Entropy: ",
        Field::File => "File: ",
        Field::Line => "Line: ",
        Field::Commit => "Commit: ",
        Field::Author => "Author: ",
        Field::Email => "Email: ",
        Field::Date => "Date: ",
        Field::Fingerprint => "Fingerprint: ",
    }
}

/// The position of the first `'\n'` at or after `i`, or the end of `s`.
fn find_line_end(s: &str, i: usize) -> (le: usize)
    requires
        i as int <= s@.len(),
    ensures
        le as int == line_end(s@, i as int),
        i <= le,
        le as int <= s@.len(),
{
    let n = s.unicode_len();
    let mut j = i;
    while j < n && s.get_char(j) != '\n'
        invariant
            i <= j <= n,
            n == s@.len(),
            line_end(s@, i as int) == line_end(s@, j as int),
        decreases n - j,
    {
        proof {
            assert(line_end(s@, j as int) == line_end(s@, j as int + 1));
        }
        j = j + 1;
    }
    j
}

/// The position of the first non-digit at or after `i`, or the end of
/// `s`.
fn find_digits_end(s: &str, i: usize) -> (k: usize)
    requires
        i as int <= s@.len(),
    ensures
        k as int == digits_end(s@, i as int),
        i <= k,
        k as int <= s@.len(),
{
    let n = s.unicode_len();
    let mut j = i;
    while j < n && is_digit_char(s.get_char(j))
        invariant
            i <= j <= n,
            n == s@.len(),
            digits_end(s@, i as int) == digits_end(s@, j as int),
        decreases n - j,
    {
        proof {
            assert(digits_end(s@, j as int) == digits_end(s@, j as int + 1));
        }
        j = j + 1;
    }
    j
}

/// Whether the label of `f` occurs literally in `s` at position `i`.
fn check_label(s: &str, i: usize, f: Field) -> (b: bool)
    requires
        i as int <= s@.len(),
    ensures
        b == match_label(s@, i as int, spec_label(f)),
{
    let lab = label_text(f);
    let ll = lab.unicode_len();
    let n = s.unicode_len();
    if n - i < ll {
        return false;
    }
    let mut k: usize = 0;
    while k < ll
        invariant
            0 <= k <= ll,
            ll == spec_label(f).len(),
            lab@ == spec_label(f),
            i + ll <= n,
            n == s@.len(),
            forall|t: int| 0 <= t < k ==> s@[i + t] == spec_label(f)[t],
        decreases ll - k,
    {
        if s.get_char(i + k) != lab.get_char(k) {
            proof {
                if match_label(s@, i as int, spec_label(f)) {
                    assert(s@.subrange(i as int, i + ll as int)[k as int] == s@[i + k]);
                }
            }
            return false;
        }
        k = k + 1;
    }
    proof {
        assert(s@.subrange(i as int, i + ll as int) =~= spec_label(f));
    }
    true
}

/// The position just past a line break at `i`, if one is there.
fn take_line_break(s: &str, i: usize) -> (r: Option<usize>)
    requires
        i as int <= s@.len(),
    ensures
        match r {
            Some(q) => line_break_end(s@, i as int) == Some(q as int) && q as int <= s@.len(),
            None => line_break_end(s@, i as int) is None,
        },
{
    let n = s.unicode_len();
    if i < n && s.get_char(i) == '\n' {
        Some(i + 1)
    } else if i < n && i + 1 < n && s.get_char(i) == '\r' && s.get_char(i + 1) == '\n' {
        Some(i + 2)
    } else {
        None
    }
}

/// A text field's value starting at `i`: everything up to the next
/// `'\n'`, trimmed, `None` when only whitespace is left.  Returns the
/// value and the position of the line end.
fn parse_text_value(s: &str, i: usize) -> (r: (Option<String>, usize))
    requires
        i as int <= s@.len(),
    ensures
        r.1 as int == line_end(s@, i as int),
        i <= r.1,
        r.1 as int <= s@.len(),
        view_opt(r.0) == field_value(s@.subrange(i as int, line_end(s@, i as int))),
{
    let le = find_line_end(s, i);
    let raw = s.substring_char(i, le);
    let ghost rv = s@.subrange(i as int, le as int);
    let m = raw.unicode_len();
    let mut a: usize = 0;
    while a < m && is_space_char(raw.get_char(a))
        invariant
            0 <= a <= m,
            m == rv.len(),
            raw@ == rv,
            skip_space(rv, 0) == skip_space(rv, a as int),
        decreases m - a,
    {
        proof {
            assert(skip_space(rv, a as int) == skip_space(rv, a as int + 1));
        }
        a = a + 1;
    }
    if a == m {
        proof {
            lemma_trim_end_at_bounds(rv, m as int);
            assert(trimmed(rv).len() == 0);
        }
        return (None, le);
    }
    let mut b: usize = m;
    while b > a + 1 && is_space_char(raw.get_char(b - 1))
        invariant
            a < b <= m,
            m == rv.len(),
            raw@ == rv,
            !is_space(rv[a as int]),
            trim_end_at(rv, m as int) == trim_end_at(rv, b as int),
        decreases b,
    {
        proof {
            assert(trim_end_at(rv, b as int) == trim_end_at(rv, b as int - 1));
        }
        b = b - 1;
    }
    proof {
        assert(!is_space(rv[b as int - 1]));
        assert(trim_end_at(rv, b as int) == b as int);
        assert(trimmed(rv) == rv.subrange(a as int, b as int));
        assert(rv.subrange(a as int, b as int) =~= s@.subrange(a + i, b + i));
    }
    let v = s.substring_char(a + i, b + i).to_owned();
    (Some(v), le)
}

/// A decimal numeral at `i`, if any: the recognized parts and the
/// position just past the recognized span.
fn parse_decimal(s: &str, i: usize) -> (r: Option<(Decimal, usize)>)
    requires
        i as int <= s@.len(),
    ensures
        match r {
            Some((d, p)) => decimal_parse(s@, i as int) == Some((d@, p as int)) && i <= p && p
                as int <= s@.len(),
            None => decimal_parse(s@, i as int) is None,
        },
{
    let n = s.unicode_len();
    let (neg, j) = if i < n && (s.get_char(i) == '-' || s.get_char(i) == '+') {
        (s.get_char(i) == '-', i + 1)
    } else {
        (false, i)
    };
    let k = find_digits_end(s, j);
    if k == j {
        return None;
    }
    let int_digits = s.substring_char(j, k).to_owned();
    if k < n && s.get_char(k) == '.' {
        let m = find_digits_end(s, k + 1);
        if m > k + 1 {
            let frac_digits = s.substring_char(k + 1, m).to_owned();
            return Some((Decimal { negative: neg, int_digits, frac_digits }, m));
        }
    }
    Some((Decimal { negative: neg, int_digits, frac_digits: String::new() }, k))
}

/// An unsigned integer at `i`, if any: `(None, i)` both when no digit is
/// there and when the digits overflow 32 bits, so that in the overflow
/// case the cursor stays on the first digit and the record fails at its
/// mandatory line break.
fn parse_u32_val(s: &str, i: usize) -> (r: (Option<u32>, usize))
    requires
        i as int <= s@.len(),
    ensures
        r.0 == u32_field(s@, i as int).0,
        r.1 as int == u32_field(s@, i as int).1,
        i <= r.1,
        r.1 as int <= s@.len(),
{
    let j = find_digits_end(s, i);
    if j == i {
        return (None, i);
    }
    proof {
        lemma_digits_end_bounds(s@, i as int);
    }
    let mut acc: u32 = 0;
    let mut over: bool = false;
    let mut k = i;
    while k < j
        invariant
            i <= k <= j,
            j as int == digits_end(s@, i as int),
            j as int <= s@.len(),
            forall|t: int| i <= t < j ==> is_digit(s@[t]),
            !over ==> acc as int == digits_value(s@.subrange(i as int, k as int)),
            over ==> digits_value(s@.subrange(i as int, k as int)) > u32::MAX as int,
        decreases j - k,
    {
        let c = s.get_char(k);
        let d: u32 = c as u32 - 48;
        proof {
            assert(is_digit(s@[k as int]));
            assert(s@.subrange(i as int, k as int + 1).drop_last() =~= s@.subrange(
                i as int,
                k as int,
            ));
            assert(s@.subrange(i as int, k as int + 1).last() == s@[k as int]);
            assert(digits_value(s@.subrange(i as int, k as int + 1)) == digits_value(
                s@.subrange(i as int, k as int),
            ) * 10 + d);
        }
        if over {
        } else if acc > (0xffff_ffffu32 - d) / 10 {
            proof {
                let x = (0xffff_ffffu32 - d) as int;
                assert(x == 10 * (x / 10) + x % 10) by (nonlinear_arith);
                assert(acc as int * 10 + d > u32::MAX as int);
            }
            over = true;
        } else {
            proof {
                let x = (0xffff_ffffu32 - d) as int;
                assert(x == 10 * (x / 10) + x % 10) by (nonlinear_arith);
                assert(acc as int * 10 + d <= u32::MAX as int);
            }
            acc = acc * 10 + d;
        }
        k = k + 1;
    }
    if over {
        (None, i)
    } else {
        (Some(acc), j)
    }
}

/// One text line of a record: label, value, mandatory line break.
fn take_text_line(s: &str, i: usize, f: Field) -> (r: Result<(Option<String>, usize), ParseError>)
    requires
        i as int <= s@.len(),
    ensures
        match r {
            Ok((v, p)) => text_line(s@, i as int, f) == Ok::<_, (int, Expected)>(
                (view_opt(v), p as int),
            ) && p as int <= s@.len(),
            Err(pe) => text_line(s@, i as int, f) == Err::<(Option<Seq<char>>, int), _>(
                (pe.offset as int, pe.expected),
            ),
        },
{
    if !check_label(s, i, f) {
        return Err(ParseError { offset: i, expected: Expected::Label(f) });
    }
    let n = s.unicode_len();
    let ll = label_text(f).unicode_len();
    proof {
        assert(i + ll <= n);
    }
    let (v, le) = parse_text_value(s, i + ll);
    match take_line_break(s, le) {
        Some(q) => Ok((v, q)),
        None => Err(ParseError { offset: le, expected: Expected::LineBreak }),
    }
}

/// The last line of a record: label, value, optional line break.
fn take_last_text_line(s: &str, i: usize, f: Field) -> (r: Result<
    (Option<String>, usize),
    ParseError,
>)
    requires
        i as int <= s@.len(),
    ensures
        match r {
            Ok((v, p)) => last_text_line(s@, i as int, f) == Ok::<_, (int, Expected)>(
                (view_opt(v), p as int),
            ) && p as int <= s@.len(),
            Err(pe) => last_text_line(s@, i as int, f) == Err::<(Option<Seq<char>>, int), _>(
                (pe.offset as int, pe.expected),
            ),
        },
{
    if !check_label(s, i, f) {
        return Err(ParseError { offset: i, expected: Expected::Label(f) });
    }
    let n = s.unicode_len();
    let ll = label_text(f).unicode_len();
    proof {
        assert(i + ll <= n);
    }
    let (v, le) = parse_text_value(s, i + ll);
    match take_line_break(s, le) {
        Some(q) => Ok((v, q)),
        None => Ok((v, le)),
    }
}

/// The `Entropy: ` line: label, optional decimal numeral, mandatory
/// line break.
fn take_entropy_line(s: &str, i: usize) -> (r: Result<(Option<Decimal>, usize), ParseError>)
    requires
        i as int <= s@.len(),
    ensures
        match r {
            Ok((v, p)) => entropy_line(s@, i as int) == Ok::<_, (int, Expected)>(
                (view_opt_decimal(v), p as int),
            ) && p as int <= s@.len(),
            Err(pe) => entropy_line(s@, i as int) == Err::<(Option<DecimalView>, int), _>(
                (pe.offset as int, pe.expected),
            ),
        },
{
    if !check_label(s, i, Field::Entropy) {
        return Err(ParseError { offset: i, expected: Expected::Label(Field::Entropy) });
    }
    let n = s.unicode_len();
    let ll = label_text(Field::Entropy).unicode_len();
    proof {
        assert(i + ll <= n);
    }
    let (v, p) = match parse_decimal(s, i + ll) {
        Some((d, k)) => (Some(d), k),
        None => (None, i + ll),
    };
    match take_line_break(s, p) {
        Some(q) => Ok((v, q)),
        None => Err(ParseError { offset: p, expected: Expected::LineBreak }),
    }
}

/// The `Line: ` line: label, optional unsigned integer, mandatory line
/// break.
fn take_line_no_line(s: &str, i: usize) -> (r: Result<(Option<u32>, usize), ParseError>)
    requires
        i as int <= s@.len(),
    ensures
        match r {
            Ok((v, p)) => line_no_line(s@, i as int) == Ok::<_, (int, Expected)>((v, p as int))
                && p as int <= s@.len(),
            Err(pe) => line_no_line(s@, i as int) == Err::<(Option<u32>, int), _>(
                (pe.offset as int, pe.expected),
            ),
        },
{
    if !check_label(s, i, Field::Line) {
        return Err(ParseError { offset: i, expected: Expected::Label(Field::Line) });
    }
    let n = s.unicode_len();
    let ll = label_text(Field::Line).unicode_len();
    proof {
        assert(i + ll <= n);
    }
    let (v, p) = parse_u32_val(s, i + ll);
    match take_line_break(s, p) {
        Some(q) => Ok((v, q)),
        None => Err(ParseError { offset: p, expected: Expected::LineBreak }),
    }
}

/// One record block at position `pos` of `s`: the eleven labeled lines
/// in their fixed order, exactly as [`spec_parse_finding`] states them.
/// `Ok` carries the record and the position just past the block; `Err`
/// the position of the first mismatch and what was expected there.  No
/// partial record is ever returned.
pub fn parse_finding_at(s: &str, pos: usize) -> (r: Result<(Finding, usize), ParseError>)
    requires
        pos as int <= s@.len(),
    ensures
        match r {
            Ok((f, e)) => spec_parse_finding(s@, pos as int) == Ok::<_, (int, Expected)>(
                (f@, e as int),
            ) && e as int <= s@.len(),
            Err(pe) => spec_parse_finding(s@, pos as int) == Err::<(FindingView, int), _>(
                (pe.offset as int, pe.expected),
            ),
        },
{
    let (secret_token, p) = match take_text_line(s, pos, Field::SecretToken) {
        Ok(x) => x,
        Err(e) => {
            return Err(e);
        },
    };
    let (secret, p) = match take_text_line(s, p, Field::Secret) {
        Ok(x) => x,
        Err(e) => {
            return Err(e);
        },
    };
    let (rule_id, p) = match take_text_line(s, p, Field::RuleId) {
        Ok(x) => x,
        Err(e) => {
            return Err(e);
        },
    };
    let (entropy, p) = match take_entropy_line(s, p) {
        Ok(x) => x,
        Err(e) => {
            return Err(e);
        },
    };
    let (file, p) = match take_text_line(s, p, Field::File) {
        Ok(x) => x,
        Err(e) => {
            return Err(e);
        },
    };
    let (line, p) = match take_line_no_line(s, p) {
        Ok(x) => x,
        Err(e) => {
            return Err(e);
        },
    };
    let (commit, p) = match take_text_line(s, p, Field::Commit) {
        Ok(x) => x,
        Err(e) => {
            return Err(e);
        },
    };
    let (author, p) = match take_text_line(s, p, Field::Author) {
        Ok(x) => x,
        Err(e) => {
            return Err(e);
        },
    };
    let (email, p) = match take_text_line(s, p, Field::Email) {
        Ok(x) => x,
        Err(e) => {
            return Err(e);
        },
    };
    let (date, p) = match take_text_line(s, p, Field::Date) {
        Ok(x) => x,
        Err(e) => {
            return Err(e);
        },
    };
    let (fingerprint, p) = match take_last_text_line(s, p, Field::Fingerprint) {
        Ok(x) => x,
        Err(e) => {
            return Err(e);
        },
    };
    Ok(
        (
            Finding {
                secret_token,
                secret,
                rule_id,
                entropy,
                file,
                line,
                commit,
                author,
                email,
                date,
                fingerprint,
            },
            p,
        ),
    )
}

/// One record block at the head of `input`.
pub fn parse_finding(input: &str) -> (r: Result<(Finding, usize), ParseError>)
    ensures
        match r {
            Ok((f, e)) => spec_parse_finding(input@, 0) == Ok::<_, (int, Expected)>(
                (f@, e as int),
            ) && e as int <= input@.len(),
            Err(pe) => spec_parse_finding(input@, 0) == Err::<(FindingView, int), _>(
                (pe.offset as int, pe.expected),
            ),
        },
{
    parse_finding_at(input, 0)
}

/// The whole document: as many record blocks as match, each optionally
/// followed by one blank line.  The first failed block attempt stops
/// the repetition cleanly — a document with no leading record yields an
/// empty sequence, not a failure.  Returns the records in input order
/// and the position where parsing stopped.
pub fn parse_findings(input: &str) -> (r: (Vec<Finding>, usize))
    ensures
        r.0@.map_values(|f: Finding| f@) == spec_parse_findings(input@, 0).0,
        r.1 as int == spec_parse_findings(input@, 0).1,
        r.1 as int <= input@.len(),
{
    let mut found: Vec<Finding> = Vec::new();
    let mut pos: usize = 0;
    let n = input.unicode_len();
    loop
        invariant
            pos <= n,
            n == input@.len(),
            spec_parse_findings(input@, 0).0 == found@.map_values(|f: Finding| f@)
                + spec_parse_findings(input@, pos as int).0,
            spec_parse_findings(input@, 0).1 == spec_parse_findings(input@, pos as int).1,
        decreases n - pos,
    {
        match parse_finding_at(input, pos) {
            Err(_) => {
                return (found, pos);
            },
            Ok((f, e)) => {
                proof {
                    lemma_parse_finding_bounds(input@, pos as int);
                }
                let next = match take_line_break(input, e) {
                    Some(q) => q,
                    None => e,
                };
                let ghost prev = pos as int;
                found.push(f);
                pos = next;
                proof {
                    assert(spec_parse_findings(input@, prev).0 == seq![f@] + spec_parse_findings(
                        input@,
                        pos as int,
                    ).0);
                    assert(found@.map_values(|g: Finding| g@) =~= found@.drop_last().map_values(
                        |g: Finding| g@,
                    ).push(f@));
                    assert(found@.drop_last().map_values(|g: Finding| g@).push(f@)
                        + spec_parse_findings(input@, pos as int).0 =~= found@.drop_last()
                        .map_values(|g: Finding| g@) + (seq![f@] + spec_parse_findings(
                        input@,
                        pos as int,
                    ).0));
                }
            },
        }
    }
}

} // verus!
