//! The grammar of a report, as specification functions.
//!
//! A record block is eleven lines, each `Label: value`, in a fixed
//! order.  Text values run from the end of the label to the next `'\n'`
//! and are trimmed of surrounding whitespace; an empty remainder is
//! absent.  The `Entropy: ` value is a decimal numeral, the `Line: `
//! value an unsigned integer; for both, absence of any numeral is a
//! valid outcome, while a value that is present but leaves the cursor
//! off a line break makes the whole record fail.  A document is as many
//! record blocks as match, each optionally followed by one blank line.

use vstd::prelude::*;

use crate::finding::{DecimalView, Expected, Field, FindingView};

verus! {

/// The characters removed by trimming: the Unicode `White_Space` set.
pub open spec fn is_space(c: char) -> bool {
    let u = c as u32;
    c == ' ' || (9 <= u && u <= 13) || c == '\u{85}' || c == '\u{a0}' || c == '\u{1680}' || (
    0x2000 <= u && u <= 0x200a) || c == '\u{2028}' || c == '\u{2029}' || c == '\u{202f}'
        || c == '\u{205f}' || c == '\u{3000}'
}

/// A decimal digit.
pub open spec fn is_digit(c: char) -> bool {
    48 <= c as u32 && c as u32 <= 57
}

/// The numeric value of a decimal digit.
pub open spec fn digit_value(c: char) -> int {
    c as u32 - 48
}

/// The label that opens the line of a given field, including the space
/// that separates it from the value.
pub open spec fn spec_label(f: Field) -> Seq<char> {
    match f {
        Field::SecretToken => "Finding: "@,
        Field::Secret => "Secret: "@,
        Field::RuleId => "RuleID: "@,
        Field::Entropy => "Entropy: "@,
        Field::File => "File: "@,
        Field::Line => "Line: "@,
        Field::Commit => "Commit: "@,
        Field::Author => "Author: "@,
        Field::Email => "Email: "@,
        Field::Date => "Date: "@,
        Field::Fingerprint => "Fingerprint: "@,
    }
}

/// Whether `label` occurs literally in `s` at position `i`.
pub open spec fn match_label(s: Seq<char>, i: int, label: Seq<char>) -> bool {
    0 <= i && i + label.len() <= s.len() && s.subrange(i, i + label.len()) == label
}

/// The position of the first `'\n'` at or after `i`, or the length of
/// `s` if there is none: text values run up to, not including, it.
pub open spec fn line_end(s: Seq<char>, i: int) -> int
    decreases s.len() - i when 0 <= i <= s.len()
{
    if i >= s.len() {
        i
    } else if s[i] == '\n' {
        i
    } else {
        line_end(s, i + 1)
    }
}

/// The position just past a line break at `i`: a line break is `'\n'`
/// alone or `"\r\n"`; anything else, including a bare `'\r'`, is none.
pub open spec fn line_break_end(s: Seq<char>, i: int) -> Option<int> {
    if 0 <= i < s.len() && s[i] == '\n' {
        Some(i + 1)
    } else if 0 <= i && i + 1 < s.len() && s[i] == '\r' && s[i + 1] == '\n' {
        Some(i + 2)
    } else {
        None
    }
}

/// The position reached from a line break at `i` where the break is
/// optional: unchanged if none matches.
pub open spec fn opt_break(s: Seq<char>, i: int) -> int {
    match line_break_end(s, i) {
        Some(j) => j,
        None => i,
    }
}

/// The position of the first non-whitespace character at or after `i`.
pub open spec fn skip_space(s: Seq<char>, i: int) -> int
    decreases s.len() - i when 0 <= i <= s.len()
{
    if i >= s.len() {
        i
    } else if is_space(s[i]) {
        skip_space(s, i + 1)
    } else {
        i
    }
}

/// The position just past the last non-whitespace character before `i`.
pub open spec fn trim_end_at(s: Seq<char>, i: int) -> int
    decreases i when 0 <= i <= s.len()
{
    if i <= 0 {
        0
    } else if is_space(s[i - 1]) {
        trim_end_at(s, i - 1)
    } else {
        i
    }
}

/// `s` with leading and trailing whitespace removed.
pub open spec fn trimmed(s: Seq<char>) -> Seq<char> {
    let a = skip_space(s, 0);
    let b = trim_end_at(s, s.len() as int);
    if a < b {
        s.subrange(a, b)
    } else {
        Seq::empty()
    }
}

/// A text field's value: the captured span, trimmed; absent rather than
/// empty when nothing but whitespace follows the label.
pub open spec fn field_value(raw: Seq<char>) -> Option<Seq<char>> {
    let t = trimmed(raw);
    if t.len() == 0 {
        None
    } else {
        Some(t)
    }
}

/// The position of the first non-digit at or after `i`.
pub open spec fn digits_end(s: Seq<char>, i: int) -> int
    decreases s.len() - i when 0 <= i <= s.len()
{
    if i >= s.len() {
        i
    } else if is_digit(s[i]) {
        digits_end(s, i + 1)
    } else {
        i
    }
}

/// The number denoted by a sequence of decimal digits.
pub open spec fn digits_value(d: Seq<char>) -> int
    decreases d.len()
{
    if d.len() == 0 {
        0
    } else {
        digits_value(d.drop_last()) * 10 + digit_value(d.last())
    }
}

/// A decimal numeral at `i`: an optional sign, one or more digits, and
/// an optional fractional part (`'.'` followed by one or more digits).
/// `None` when no digit sequence is there, which is not an error; a
/// `'.'` without digits after it is left unconsumed.
pub open spec fn decimal_parse(s: Seq<char>, i: int) -> Option<(DecimalView, int)> {
    let j = if 0 <= i < s.len() && (s[i] == '-' || s[i] == '+') {
        i + 1
    } else {
        i
    };
    let k = digits_end(s, j);
    if k == j {
        None
    } else {
        let d = DecimalView {
            negative: j > i && s[i] == '-',
            int_digits: s.subrange(j, k),
            frac_digits: Seq::empty(),
        };
        if k < s.len() && s[k] == '.' && digits_end(s, k + 1) > k + 1 {
            Some(
                (
                    DecimalView { frac_digits: s.subrange(k + 1, digits_end(s, k + 1)), ..d },
                    digits_end(s, k + 1),
                ),
            )
        } else {
            Some((d, k))
        }
    }
}

/// An unsigned integer at `i`: one or more digits, no sign, no
/// fractional part.  `(None, i)` when there is no digit, and also when
/// the digits are there but their value does not fit in 32 bits: the
/// cursor then stays on the first digit, so the mandatory line break
/// that follows the field fails and the record is rejected rather than
/// the field degrading to absent.
pub open spec fn u32_field(s: Seq<char>, i: int) -> (Option<u32>, int) {
    let k = digits_end(s, i);
    if k == i {
        (None, i)
    } else if digits_value(s.subrange(i, k)) <= u32::MAX as int {
        (Some(digits_value(s.subrange(i, k)) as u32), k)
    } else {
        (None, i)
    }
}

/// One text line: the label of `f`, then the value up to the next
/// `'\n'`, then a mandatory line break.
pub open spec fn text_line(s: Seq<char>, i: int, f: Field) -> Result<
    (Option<Seq<char>>, int),
    (int, Expected),
> {
    if !match_label(s, i, spec_label(f)) {
        Err((i, Expected::Label(f)))
    } else {
        let vs = i + spec_label(f).len();
        let le = line_end(s, vs);
        match line_break_end(s, le) {
            Some(q) => Ok((field_value(s.subrange(vs, le)), q)),
            None => Err((le, Expected::LineBreak)),
        }
    }
}

/// The `Entropy: ` line: the label, an optional decimal numeral, then a
/// mandatory line break.
pub open spec fn entropy_line(s: Seq<char>, i: int) -> Result<
    (Option<DecimalView>, int),
    (int, Expected),
> {
    if !match_label(s, i, spec_label(Field::Entropy)) {
        Err((i, Expected::Label(Field::Entropy)))
    } else {
        let vs = i + spec_label(Field::Entropy).len();
        let (v, p) = match decimal_parse(s, vs) {
            Some((d, k)) => (Some(d), k),
            None => (None, vs),
        };
        match line_break_end(s, p) {
            Some(q) => Ok((v, q)),
            None => Err((p, Expected::LineBreak)),
        }
    }
}

/// The `Line: ` line: the label, an optional unsigned integer, then a
/// mandatory line break.
pub open spec fn line_no_line(s: Seq<char>, i: int) -> Result<
    (Option<u32>, int),
    (int, Expected),
> {
    if !match_label(s, i, spec_label(Field::Line)) {
        Err((i, Expected::Label(Field::Line)))
    } else {
        let vs = i + spec_label(Field::Line).len();
        let (v, p) = u32_field(s, vs);
        match line_break_end(s, p) {
            Some(q) => Ok((v, q)),
            None => Err((p, Expected::LineBreak)),
        }
    }
}

/// The last line of a block: the label of `f` and the value up to the
/// next `'\n'`, followed by an optional line break — the very last
/// record of a document may omit its trailing break.
pub open spec fn last_text_line(s: Seq<char>, i: int, f: Field) -> Result<
    (Option<Seq<char>>, int),
    (int, Expected),
> {
    if !match_label(s, i, spec_label(f)) {
        Err((i, Expected::Label(f)))
    } else {
        let vs = i + spec_label(f).len();
        let le = line_end(s, vs);
        Ok((field_value(s.subrange(vs, le)), opt_break(s, le)))
    }
}

/// One record block at `i`: the eleven labeled lines in their fixed
/// order.  `Ok` carries the record and the position just past the
/// block; `Err` carries the position of the first mismatch and what was
/// expected there.
pub open spec fn spec_parse_finding(s: Seq<char>, i: int) -> Result<
    (FindingView, int),
    (int, Expected),
> {
    match text_line(s, i, Field::SecretToken) {
        Err(e) => Err(e),
        Ok((secret_token, p)) => match text_line(s, p, Field::Secret) {
            Err(e) => Err(e),
            Ok((secret, p)) => match text_line(s, p, Field::RuleId) {
                Err(e) => Err(e),
                Ok((rule_id, p)) => match entropy_line(s, p) {
                    Err(e) => Err(e),
                    Ok((entropy, p)) => match text_line(s, p, Field::File) {
                        Err(e) => Err(e),
                        Ok((file, p)) => match line_no_line(s, p) {
                            Err(e) => Err(e),
                            Ok((line, p)) => match text_line(s, p, Field::Commit) {
                                Err(e) => Err(e),
                                Ok((commit, p)) => match text_line(s, p, Field::Author) {
                                    Err(e) => Err(e),
                                    Ok((author, p)) => match text_line(s, p, Field::Email) {
                                        Err(e) => Err(e),
                                        Ok((email, p)) => match text_line(s, p, Field::Date) {
                                            Err(e) => Err(e),
                                            Ok((date, p)) => match last_text_line(
                                                s,
                                                p,
                                                Field::Fingerprint,
                                            ) {
                                                Err(e) => Err(e),
                                                Ok((fingerprint, p)) => Ok(
                                                    (
                                                        FindingView {
                                                            secret_token,
                                                            secret,
                                                            rule_id,
                                                            entropy,
                                                            file,
                                                            line,
                                                            commit,
                                                            author,
                                                            email,
                                                            date,
                                                            fingerprint,
                                                        },
                                                        p,
                                                    ),
                                                ),
                                            },
                                        },
                                    },
                                },
                            },
                        },
                    },
                },
            },
        },
    }
}

/// A document at `i`: as many record blocks as match, each optionally
/// followed by one further line break (a blank separator line).  The
/// first failed block attempt stops the repetition cleanly; the pair is
/// the records found and the position where parsing stopped.  The bound
/// check on the recursive call only justifies termination: a parsed
/// block always moves the position forward (`lemma_parse_finding_bounds`).
pub open spec fn spec_parse_findings(s: Seq<char>, i: int) -> (Seq<FindingView>, int)
    decreases s.len() - i when 0 <= i <= s.len()
{
    match spec_parse_finding(s, i) {
        Err(_) => (Seq::empty(), i),
        Ok((fv, e)) => {
            let next = opt_break(s, e);
            if i < next <= s.len() {
                let (rest, stop) = spec_parse_findings(s, next);
                (seq![fv] + rest, stop)
            } else {
                (seq![fv], e)
            }
        },
    }
}

/// The eleven labels are nonempty, with these lengths.
pub proof fn lemma_label_lengths()
    ensures
        spec_label(Field::SecretToken).len() == 9,
        spec_label(Field::Secret).len() == 8,
        spec_label(Field::RuleId).len() == 8,
        spec_label(Field::Entropy).len() == 9,
        spec_label(Field::File).len() == 6,
        spec_label(Field::Line).len() == 6,
        spec_label(Field::Commit).len() == 8,
        spec_label(Field::Author).len() == 8,
        spec_label(Field::Email).len() == 7,
        spec_label(Field::Date).len() == 6,
        spec_label(Field::Fingerprint).len() == 13,
        forall|f: Field| #[trigger] spec_label(f).len() >= 6,
{
    reveal_strlit("Finding: ");
    reveal_strlit("Secret: ");
    reveal_strlit("RuleID: ");
    reveal_strlit("Entropy: ");
    reveal_strlit("File: ");
    reveal_strlit("Line: ");
    reveal_strlit("Commit: ");
    reveal_strlit("Author: ");
    reveal_strlit("Email: ");
    reveal_strlit("Date: ");
    reveal_strlit("Fingerprint: ");
    assert forall|f: Field| #[trigger] spec_label(f).len() >= 6 by {
        match f {
            Field::SecretToken => assert(spec_label(f).len() == 9),
            Field::Secret => assert(spec_label(f).len() == 8),
            Field::RuleId => assert(spec_label(f).len() == 8),
            Field::Entropy => assert(spec_label(f).len() == 9),
            Field::File => assert(spec_label(f).len() == 6),
            Field::Line => assert(spec_label(f).len() == 6),
            Field::Commit => assert(spec_label(f).len() == 8),
            Field::Author => assert(spec_label(f).len() == 8),
            Field::Email => assert(spec_label(f).len() == 7),
            Field::Date => assert(spec_label(f).len() == 6),
            Field::Fingerprint => assert(spec_label(f).len() == 13),
        }
    }
}

/// Where `line_end` lands: at or after `i`, at `'\n'` or at the end of
/// `s`, with no `'\n'` in between.
pub proof fn lemma_line_end_bounds(s: Seq<char>, i: int)
    requires
        0 <= i <= s.len(),
    ensures
        i <= line_end(s, i) <= s.len(),
        forall|j: int| i <= j < line_end(s, i) ==> s[j] != '\n',
        line_end(s, i) < s.len() ==> s[line_end(s, i)] == '\n',
    decreases s.len() - i,
{
    if i < s.len() && s[i] != '\n' {
        lemma_line_end_bounds(s, i + 1);
    }
}

/// `line_end` on a span known to hold no `'\n'` before position `m`,
/// with `m` itself a `'\n'` or the end of `s`.
pub proof fn lemma_line_end_of_run(s: Seq<char>, i: int, m: int)
    requires
        0 <= i <= m <= s.len(),
        forall|j: int| i <= j < m ==> s[j] != '\n',
        m < s.len() ==> s[m] == '\n',
    ensures
        line_end(s, i) == m,
    decreases m - i,
{
    if i < m {
        lemma_line_end_of_run(s, i + 1, m);
    }
}

/// Where `skip_space` lands: at or after `i`, on the first
/// non-whitespace character.
pub proof fn lemma_skip_space_bounds(s: Seq<char>, i: int)
    requires
        0 <= i <= s.len(),
    ensures
        i <= skip_space(s, i) <= s.len(),
        forall|j: int| i <= j < skip_space(s, i) ==> is_space(s[j]),
        skip_space(s, i) < s.len() ==> !is_space(s[skip_space(s, i)]),
    decreases s.len() - i,
{
    if i < s.len() && is_space(s[i]) {
        lemma_skip_space_bounds(s, i + 1);
    }
}

/// Where `trim_end_at` lands: at or before `i`, just past a
/// non-whitespace character.
pub proof fn lemma_trim_end_at_bounds(s: Seq<char>, i: int)
    requires
        0 <= i <= s.len(),
    ensures
        0 <= trim_end_at(s, i) <= i,
        forall|j: int| trim_end_at(s, i) <= j < i ==> is_space(s[j]),
        trim_end_at(s, i) > 0 ==> !is_space(s[trim_end_at(s, i) - 1]),
    decreases i,
{
    if i > 0 && is_space(s[i - 1]) {
        lemma_trim_end_at_bounds(s, i - 1);
    }
}

/// Where `digits_end` lands: at or after `i`, on the first non-digit.
pub proof fn lemma_digits_end_bounds(s: Seq<char>, i: int)
    requires
        0 <= i <= s.len(),
    ensures
        i <= digits_end(s, i) <= s.len(),
        forall|j: int| i <= j < digits_end(s, i) ==> is_digit(s[j]),
        digits_end(s, i) < s.len() ==> !is_digit(s[digits_end(s, i)]),
    decreases s.len() - i,
{
    if i < s.len() && is_digit(s[i]) {
        lemma_digits_end_bounds(s, i + 1);
    }
}

/// `digits_end` on a span known to be digits up to `m`, with `m` itself
/// a non-digit or the end of `s`.
pub proof fn lemma_digits_end_of_run(s: Seq<char>, i: int, m: int)
    requires
        0 <= i <= m <= s.len(),
        forall|j: int| i <= j < m ==> is_digit(s[j]),
        m < s.len() ==> !is_digit(s[m]),
    ensures
        digits_end(s, i) == m,
    decreases m - i,
{
    if i < m {
        lemma_digits_end_of_run(s, i + 1, m);
    }
}

/// A parsed record block lies within `s` and moves the position
/// strictly forward; a failed one names a position within `s`.
pub proof fn lemma_parse_finding_bounds(s: Seq<char>, i: int)
    requires
        0 <= i <= s.len(),
    ensures
        match spec_parse_finding(s, i) {
            Ok((fv, e)) => i < e <= s.len(),
            Err((off, ex)) => i <= off <= s.len(),
        },
{
    lemma_label_lengths();
    assert forall|p: int, f: Field| 0 <= p <= s.len() implies match #[trigger] text_line(s, p, f) {
        Ok((v, q)) => p < q <= s.len(),
        Err((off, ex)) => p <= off <= s.len(),
    } by {
        if match_label(s, p, spec_label(f)) {
            lemma_line_end_bounds(s, p + spec_label(f).len());
        }
    }
    assert forall|p: int, f: Field| 0 <= p <= s.len() implies match #[trigger] last_text_line(s, p, f) {
        Ok((v, q)) => p < q <= s.len(),
        Err((off, ex)) => p <= off <= s.len(),
    } by {
        if match_label(s, p, spec_label(f)) {
            lemma_line_end_bounds(s, p + spec_label(f).len());
        }
    }
    assert forall|p: int| 0 <= p <= s.len() implies match #[trigger] entropy_line(s, p) {
        Ok((v, q)) => p < q <= s.len(),
        Err((off, ex)) => p <= off <= s.len(),
    } by {
        if match_label(s, p, spec_label(Field::Entropy)) {
            let vs = p + spec_label(Field::Entropy).len();
            lemma_digits_end_bounds(s, vs);
            if vs < s.len() && (s[vs] == '-' || s[vs] == '+') {
                lemma_digits_end_bounds(s, vs + 1);
                let k = digits_end(s, vs + 1);
                if k < s.len() && s[k] == '.' {
                    lemma_digits_end_bounds(s, k + 1);
                }
            } else {
                let k = digits_end(s, vs);
                if k < s.len() && s[k] == '.' {
                    lemma_digits_end_bounds(s, k + 1);
                }
            }
        }
    }
    assert forall|p: int| 0 <= p <= s.len() implies match #[trigger] line_no_line(s, p) {
        Ok((v, q)) => p < q <= s.len(),
        Err((off, ex)) => p <= off <= s.len(),
    } by {
        if match_label(s, p, spec_label(Field::Line)) {
            lemma_digits_end_bounds(s, p + spec_label(Field::Line).len());
        }
    }
}

} // verus!
