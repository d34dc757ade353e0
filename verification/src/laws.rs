//! General properties of the grammar, proved once and for all: what a
//! well-formed record block parses to, field by field; that blank
//! values come out absent; that a document of chained record blocks
//! yields exactly those records in order; that a document with no
//! leading record yields an empty sequence; and that a non-numeric
//! `Line: ` value fails the whole record.

use vstd::prelude::*;

use crate::finding::{DecimalView, Expected, Field, FindingView};
use crate::grammar::{
    decimal_parse, digits_end, digits_value, entropy_line, field_value, is_digit, is_space,
    last_text_line, lemma_digits_end_of_run, lemma_label_lengths, lemma_line_end_of_run,
    lemma_parse_finding_bounds, lemma_skip_space_bounds, lemma_trim_end_at_bounds,
    line_break_end, line_no_line, match_label, opt_break, skip_space, spec_label,
    spec_parse_finding, spec_parse_findings, text_line, trimmed, u32_field,
};

verus! {

/// One line of a record block: the label of `f`, the raw value text,
/// and the terminating line break.
pub open spec fn line_of(f: Field, v: Seq<char>) -> Seq<char> {
    spec_label(f) + v + seq!['\n']
}

/// `v` contains no line break, so it can stand as the raw value text of
/// a single line.
pub open spec fn no_line_break(v: Seq<char>) -> bool {
    forall|j: int| 0 <= j < v.len() ==> v[j] != '\n'
}

/// A well-formed decimal value: at least one integer digit, digits
/// everywhere.
pub open spec fn wf_decimal(d: DecimalView) -> bool {
    &&& d.int_digits.len() > 0
    &&& forall|j: int| 0 <= j < d.int_digits.len() ==> is_digit(#[trigger] d.int_digits[j])
    &&& forall|j: int| 0 <= j < d.frac_digits.len() ==> is_digit(#[trigger] d.frac_digits[j])
}

/// A well-formed line-number numeral: at least one digit, digits only,
/// and a value that fits in 32 bits.
pub open spec fn wf_line_no(d: Seq<char>) -> bool {
    &&& d.len() > 0
    &&& forall|j: int| 0 <= j < d.len() ==> is_digit(#[trigger] d[j])
    &&& digits_value(d) <= u32::MAX as int
}

/// The text of a decimal value as it stands in a record block: a minus
/// sign when negative, the integer digits, and `'.'` with the
/// fractional digits when there are any; nothing at all when absent.
pub open spec fn render_decimal(d: Option<DecimalView>) -> Seq<char> {
    match d {
        None => Seq::empty(),
        Some(d) => (if d.negative {
            seq!['-']
        } else {
            Seq::empty()
        }) + d.int_digits + (if d.frac_digits.len() > 0 {
            seq!['.'] + d.frac_digits
        } else {
            Seq::empty()
        }),
    }
}

/// The text of a line-number value as it stands in a record block.
pub open spec fn render_line_no(d: Option<Seq<char>>) -> Seq<char> {
    match d {
        None => Seq::empty(),
        Some(ds) => ds,
    }
}

/// A value of nothing but whitespace parses as absent, never as an
/// empty string.
pub proof fn lemma_whitespace_only_absent(v: Seq<char>)
    requires
        forall|j: int| 0 <= j < v.len() ==> is_space(#[trigger] v[j]),
    ensures
        field_value(v) is None,
{
    lemma_skip_space_bounds(v, 0);
    lemma_trim_end_at_bounds(v, v.len() as int);
    assert(skip_space(v, 0) == v.len());
    assert(trimmed(v).len() == 0);
}

/// A populated value parses as itself, trimmed.
pub proof fn lemma_populated_value_kept(v: Seq<char>)
    requires
        trimmed(v).len() > 0,
    ensures
        field_value(v) == Some(trimmed(v)),
{
}

/// A text line of the expected shape at position `i` parses to the
/// trimmed value and moves past its line break.
pub proof fn lemma_text_line_at(s: Seq<char>, i: int, f: Field, v: Seq<char>)
    requires
        0 <= i,
        i + line_of(f, v).len() <= s.len(),
        s.subrange(i, i + line_of(f, v).len()) == line_of(f, v),
        no_line_break(v),
    ensures
        text_line(s, i, f) == Ok::<_, (int, Expected)>(
            (field_value(v), i + line_of(f, v).len()),
        ),
        last_text_line(s, i, f) == Ok::<_, (int, Expected)>(
            (field_value(v), i + line_of(f, v).len()),
        ),
{
    let lv = line_of(f, v);
    let ll = spec_label(f).len() as int;
    let b = lv.len() as int;
    assert(b == ll + v.len() + 1);
    assert forall|t: int| 0 <= t < b implies s[i + t] == lv[t] by {
        assert(s.subrange(i, i + b)[t] == s[i + t]);
    }
    assert(s.subrange(i, i + ll) =~= spec_label(f)) by {
        assert forall|t: int| 0 <= t < ll implies s.subrange(i, i + ll)[t] == spec_label(f)[t] by {
            assert(s[i + t] == lv[t]);
            assert(lv[t] == spec_label(f)[t]);
        }
    }
    assert(match_label(s, i, spec_label(f)));
    let vs = i + ll;
    let ve = vs + v.len();
    assert(s[ve] == '\n') by {
        assert(lv[ll + v.len()] == '\n');
    }
    assert forall|j: int| vs <= j < ve implies s[j] != '\n' by {
        assert(lv[j - i] == v[j - i - ll]);
    }
    lemma_line_end_of_run(s, vs, ve);
    assert(s.subrange(vs, ve) =~= v) by {
        assert forall|t: int| 0 <= t < v.len() implies s.subrange(vs, ve)[t] == v[t] by {
            assert(s[vs + t] == lv[ll + t]);
        }
    }
    assert(line_break_end(s, ve) == Some(ve + 1));
}

/// An `Entropy: ` line of the expected shape at position `i` parses to
/// exactly the decimal value it renders, absent included.
#[verifier::rlimit(50)]
pub proof fn lemma_entropy_line_at(s: Seq<char>, i: int, d: Option<DecimalView>)
    requires
        0 <= i,
        i + line_of(Field::Entropy, render_decimal(d)).len() <= s.len(),
        s.subrange(i, i + line_of(Field::Entropy, render_decimal(d)).len()) == line_of(
            Field::Entropy,
            render_decimal(d),
        ),
        d matches Some(dv) ==> wf_decimal(dv),
    ensures
        entropy_line(s, i) == Ok::<_, (int, Expected)>(
            (d, i + line_of(Field::Entropy, render_decimal(d)).len()),
        ),
{
    let r = render_decimal(d);
    let lv = line_of(Field::Entropy, r);
    let ll = spec_label(Field::Entropy).len() as int;
    let b = lv.len() as int;
    assert(b == ll + r.len() + 1);
    assert forall|j: int| i <= j < i + b implies #[trigger] s[j] == lv[j - i] by {
        assert(s.subrange(i, i + b)[j - i] == s[j]);
    }
    assert(s.subrange(i, i + ll) =~= spec_label(Field::Entropy)) by {
        assert forall|t: int| 0 <= t < ll implies s.subrange(i, i + ll)[t] == spec_label(
            Field::Entropy,
        )[t] by {
            assert(s[i + t] == lv[t]);
            assert(lv[t] == spec_label(Field::Entropy)[t]);
        }
    }
    assert(match_label(s, i, spec_label(Field::Entropy)));
    let vs = i + ll;
    let ve = vs + r.len();
    assert(s[ve] == '\n') by {
        assert(lv[ll + r.len()] == '\n');
    }
    match d {
        None => {
            assert(r.len() == 0);
            assert(s[vs] == '\n');
            assert(!is_digit(s[vs]));
            assert(digits_end(s, vs) == vs);
            assert(decimal_parse(s, vs) is None);
            assert(line_break_end(s, ve) == Some(ve + 1));
        },
        Some(dv) => {
            let sl: int = if dv.negative {
                1
            } else {
                0
            };
            let ni = dv.int_digits.len() as int;
            let nf = dv.frac_digits.len() as int;
            let ds = vs + sl;
            assert forall|j: int| vs <= j < ve implies #[trigger] s[j] == r[j - vs] by {
                assert(s[j] == lv[j - i]);
                assert(lv[j - i] == r[j - i - ll]);
            }
            if dv.negative {
                assert(s[vs] == '-') by {
                    assert(r[0] == '-');
                }
            } else {
                assert(s[vs] == dv.int_digits[0]) by {
                    assert(r[0] == dv.int_digits[0]);
                }
                assert(is_digit(s[vs]));
                assert(s[vs] != '-' && s[vs] != '+');
            }
            assert forall|j: int| ds <= j < ds + ni implies is_digit(#[trigger] s[j]) by {
                assert(s[j] == r[j - vs]);
                assert(r[sl + (j - ds)] == dv.int_digits[j - ds]);
            }
            assert(s.subrange(ds, ds + ni) =~= dv.int_digits) by {
                assert forall|u: int| 0 <= u < ni implies s.subrange(ds, ds + ni)[u]
                    == dv.int_digits[u] by {
                    assert(s[ds + u] == r[sl + u]);
                    assert(r[sl + u] == dv.int_digits[u]);
                }
            }
            if nf > 0 {
                assert(r.len() == sl + ni + 1 + nf);
                assert(s[ds + ni] == '.') by {
                    assert(r[sl + ni] == '.');
                }
                assert(!is_digit(s[ds + ni]));
                lemma_digits_end_of_run(s, ds, ds + ni);
                let fs = ds + ni + 1;
                assert forall|j: int| fs <= j < fs + nf implies is_digit(#[trigger] s[j]) by {
                    assert(s[j] == r[j - vs]);
                    assert(r[sl + ni + 1 + (j - fs)] == dv.frac_digits[j - fs]);
                }
                assert(s[fs + nf] == '\n');
                assert(!is_digit(s[fs + nf]));
                lemma_digits_end_of_run(s, fs, fs + nf);
                assert(s.subrange(fs, fs + nf) =~= dv.frac_digits) by {
                    assert forall|u: int| 0 <= u < nf implies s.subrange(fs, fs + nf)[u]
                        == dv.frac_digits[u] by {
                        assert(s[fs + u] == r[sl + ni + 1 + u]);
                        assert(r[sl + ni + 1 + u] == dv.frac_digits[u]);
                    }
                }
                assert(decimal_parse(s, vs) == Some((dv, ve)));
            } else {
                assert(r.len() == sl + ni);
                assert(s[ds + ni] == '\n');
                assert(!is_digit(s[ds + ni]));
                lemma_digits_end_of_run(s, ds, ds + ni);
                assert(dv.frac_digits =~= Seq::<char>::empty());
                assert(decimal_parse(s, vs) == Some((dv, ve)));
            }
            assert(line_break_end(s, ve) == Some(ve + 1));
        },
    }
}

/// A `Line: ` line of the expected shape at position `i` parses to the
/// number its digits denote, absent included.
pub proof fn lemma_line_no_line_at(s: Seq<char>, i: int, d: Option<Seq<char>>)
    requires
        0 <= i,
        i + line_of(Field::Line, render_line_no(d)).len() <= s.len(),
        s.subrange(i, i + line_of(Field::Line, render_line_no(d)).len()) == line_of(
            Field::Line,
            render_line_no(d),
        ),
        d matches Some(ds) ==> wf_line_no(ds),
    ensures
        line_no_line(s, i) == Ok::<_, (int, Expected)>(
            (
                match d {
                    None => None,
                    Some(ds) => Some(digits_value(ds) as u32),
                },
                i + line_of(Field::Line, render_line_no(d)).len(),
            ),
        ),
{
    let r = render_line_no(d);
    let lv = line_of(Field::Line, r);
    let ll = spec_label(Field::Line).len() as int;
    let b = lv.len() as int;
    assert(b == ll + r.len() + 1);
    assert forall|j: int| i <= j < i + b implies #[trigger] s[j] == lv[j - i] by {
        assert(s.subrange(i, i + b)[j - i] == s[j]);
    }
    assert(s.subrange(i, i + ll) =~= spec_label(Field::Line)) by {
        assert forall|t: int| 0 <= t < ll implies s.subrange(i, i + ll)[t] == spec_label(
            Field::Line,
        )[t] by {
            assert(s[i + t] == lv[t]);
            assert(lv[t] == spec_label(Field::Line)[t]);
        }
    }
    assert(match_label(s, i, spec_label(Field::Line)));
    let vs = i + ll;
    let ve = vs + r.len();
    assert forall|j: int| vs <= j < ve implies #[trigger] s[j] == r[j - vs] by {
        assert(s[j] == lv[j - i]);
        assert(lv[j - i] == r[j - i - ll]);
    }
    assert(s[ve] == '\n') by {
        assert(lv[ll + r.len()] == '\n');
    }
    match d {
        None => {
            assert(s[vs] == '\n');
            assert(!is_digit(s[vs]));
            assert(digits_end(s, vs) == vs);
            assert(line_break_end(s, ve) == Some(ve + 1));
        },
        Some(ds) => {
            let nd = ds.len() as int;
            assert forall|j: int| vs <= j < ve implies is_digit(#[trigger] s[j]) by {
                assert(s[j] == r[j - vs]);
                assert(r[j - vs] == ds[j - vs]);
            }
            assert(!is_digit(s[ve]));
            lemma_digits_end_of_run(s, vs, ve);
            assert(s.subrange(vs, ve) =~= ds) by {
                assert forall|u: int| 0 <= u < nd implies s.subrange(vs, ve)[u] == ds[u] by {
                    assert(s[vs + u] == r[u]);
                }
            }
            assert(u32_field(s, vs) == (Some(digits_value(ds) as u32), ve));
            assert(line_break_end(s, ve) == Some(ve + 1));
        },
    }
}

/// The text of a whole record block: the eleven lines in their fixed
/// order, each ending in `'\n'`.  The nine text values are the raw
/// (untrimmed) spans; the two numeric values are rendered numerals, or
/// nothing where absent.
pub open spec fn record_block(
    secret_token: Seq<char>,
    secret: Seq<char>,
    rule_id: Seq<char>,
    entropy: Option<DecimalView>,
    file: Seq<char>,
    line: Option<Seq<char>>,
    commit: Seq<char>,
    author: Seq<char>,
    email: Seq<char>,
    date: Seq<char>,
    fingerprint: Seq<char>,
) -> Seq<char> {
    line_of(Field::SecretToken, secret_token) + line_of(Field::Secret, secret) + line_of(
        Field::RuleId,
        rule_id,
    ) + line_of(Field::Entropy, render_decimal(entropy)) + line_of(Field::File, file) + line_of(
        Field::Line,
        render_line_no(line),
    ) + line_of(Field::Commit, commit) + line_of(Field::Author, author) + line_of(
        Field::Email,
        email,
    ) + line_of(Field::Date, date) + line_of(Field::Fingerprint, fingerprint)
}

/// The record that such a block denotes: each text value trimmed and
/// absent when blank, the numerals converted.
pub open spec fn block_finding(
    secret_token: Seq<char>,
    secret: Seq<char>,
    rule_id: Seq<char>,
    entropy: Option<DecimalView>,
    file: Seq<char>,
    line: Option<Seq<char>>,
    commit: Seq<char>,
    author: Seq<char>,
    email: Seq<char>,
    date: Seq<char>,
    fingerprint: Seq<char>,
) -> FindingView {
    FindingView {
        secret_token: field_value(secret_token),
        secret: field_value(secret),
        rule_id: field_value(rule_id),
        entropy,
        file: field_value(file),
        line: match line {
            None => None,
            Some(ds) => Some(digits_value(ds) as u32),
        },
        commit: field_value(commit),
        author: field_value(author),
        email: field_value(email),
        date: field_value(date),
        fingerprint: field_value(fingerprint),
    }
}

/// The eleven line spans of a record block standing at position `i`
/// of `s`: each line of the block is a subrange of `s`.
#[verifier::rlimit(100)]
proof fn lemma_block_lines_at(
    s: Seq<char>,
    i: int,
    secret_token: Seq<char>,
    secret: Seq<char>,
    rule_id: Seq<char>,
    entropy: Option<DecimalView>,
    file: Seq<char>,
    line: Option<Seq<char>>,
    commit: Seq<char>,
    author: Seq<char>,
    email: Seq<char>,
    date: Seq<char>,
    fingerprint: Seq<char>,
)
    requires
        0 <= i,
        i + record_block(
            secret_token,
            secret,
            rule_id,
            entropy,
            file,
            line,
            commit,
            author,
            email,
            date,
            fingerprint,
        ).len() <= s.len(),
        s.subrange(
            i,
            i + record_block(
                secret_token,
                secret,
                rule_id,
                entropy,
                file,
                line,
                commit,
                author,
                email,
                date,
                fingerprint,
            ).len(),
        ) == record_block(
            secret_token,
            secret,
            rule_id,
            entropy,
            file,
            line,
            commit,
            author,
            email,
            date,
            fingerprint,
        ),
    ensures
        ({
            let l0 = line_of(Field::SecretToken, secret_token);
            let l1 = line_of(Field::Secret, secret);
            let l2 = line_of(Field::RuleId, rule_id);
            let l3 = line_of(Field::Entropy, render_decimal(entropy));
            let l4 = line_of(Field::File, file);
            let l5 = line_of(Field::Line, render_line_no(line));
            let l6 = line_of(Field::Commit, commit);
            let l7 = line_of(Field::Author, author);
            let l8 = line_of(Field::Email, email);
            let l9 = line_of(Field::Date, date);
            let l10 = line_of(Field::Fingerprint, fingerprint);
            let o1 = i + l0.len();
            let o2 = o1 + l1.len();
            let o3 = o2 + l2.len();
            let o4 = o3 + l3.len();
            let o5 = o4 + l4.len();
            let o6 = o5 + l5.len();
            let o7 = o6 + l6.len();
            let o8 = o7 + l7.len();
            let o9 = o8 + l8.len();
            let o10 = o9 + l9.len();
            let o11 = o10 + l10.len();
            &&& s.subrange(i, o1) == l0
            &&& s.subrange(o1, o2) == l1
            &&& s.subrange(o2, o3) == l2
            &&& s.subrange(o3, o4) == l3
            &&& s.subrange(o4, o5) == l4
            &&& s.subrange(o5, o6) == l5
            &&& s.subrange(o6, o7) == l6
            &&& s.subrange(o7, o8) == l7
            &&& s.subrange(o8, o9) == l8
            &&& s.subrange(o9, o10) == l9
            &&& s.subrange(o10, o11) == l10
            &&& o11 == i + record_block(
                secret_token,
                secret,
                rule_id,
                entropy,
                file,
                line,
                commit,
                author,
                email,
                date,
                fingerprint,
            ).len()
        }),
{
    let l0 = line_of(Field::SecretToken, secret_token);
    let l1 = line_of(Field::Secret, secret);
    let l2 = line_of(Field::RuleId, rule_id);
    let l3 = line_of(Field::Entropy, render_decimal(entropy));
    let l4 = line_of(Field::File, file);
    let l5 = line_of(Field::Line, render_line_no(line));
    let l6 = line_of(Field::Commit, commit);
    let l7 = line_of(Field::Author, author);
    let l8 = line_of(Field::Email, email);
    let l9 = line_of(Field::Date, date);
    let l10 = line_of(Field::Fingerprint, fingerprint);
    let blk = record_block(
        secret_token,
        secret,
        rule_id,
        entropy,
        file,
        line,
        commit,
        author,
        email,
        date,
        fingerprint,
    );
    let p1 = l0 + l1;
    let p2 = p1 + l2;
    let p3 = p2 + l3;
    let p4 = p3 + l4;
    let p5 = p4 + l5;
    let p6 = p5 + l6;
    let p7 = p6 + l7;
    let p8 = p7 + l8;
    let p9 = p8 + l9;
    let p10 = p9 + l10;
    assert(blk == p10);
    let o0 = i;
    let o1 = o0 + l0.len();
    let o2 = o1 + l1.len();
    let o3 = o2 + l2.len();
    let o4 = o3 + l3.len();
    let o5 = o4 + l4.len();
    let o6 = o5 + l5.len();
    let o7 = o6 + l6.len();
    let o8 = o7 + l7.len();
    let o9 = o8 + l8.len();
    let o10 = o9 + l9.len();
    let o11 = o10 + l10.len();
    assert(blk.len() == o11 - i);
    assert forall|j: int| i <= j < o11 implies #[trigger] s[j] == blk[j - i] by {
        assert(s.subrange(i, i + blk.len())[j - i] == s[j]);
    }
    assert(s.subrange(o0, o1) =~= l0) by {
        assert forall|u: int| 0 <= u < l0.len() implies s.subrange(o0, o1)[u] == l0[u] by {
            assert(s[o0 + u] == blk[o0 - i + u]);
        }
    }
    assert(s.subrange(o1, o2) =~= l1) by {
        assert forall|u: int| 0 <= u < l1.len() implies s.subrange(o1, o2)[u] == l1[u] by {
            assert(s[o1 + u] == blk[o1 - i + u]);
        }
    }
    assert(s.subrange(o2, o3) =~= l2) by {
        assert forall|u: int| 0 <= u < l2.len() implies s.subrange(o2, o3)[u] == l2[u] by {
            assert(s[o2 + u] == blk[o2 - i + u]);
        }
    }
    assert(s.subrange(o3, o4) =~= l3) by {
        assert forall|u: int| 0 <= u < l3.len() implies s.subrange(o3, o4)[u] == l3[u] by {
            assert(s[o3 + u] == blk[o3 - i + u]);
        }
    }
    assert(s.subrange(o4, o5) =~= l4) by {
        assert forall|u: int| 0 <= u < l4.len() implies s.subrange(o4, o5)[u] == l4[u] by {
            assert(s[o4 + u] == blk[o4 - i + u]);
        }
    }
    assert(s.subrange(o5, o6) =~= l5) by {
        assert forall|u: int| 0 <= u < l5.len() implies s.subrange(o5, o6)[u] == l5[u] by {
            assert(s[o5 + u] == blk[o5 - i + u]);
        }
    }
    assert(s.subrange(o6, o7) =~= l6) by {
        assert forall|u: int| 0 <= u < l6.len() implies s.subrange(o6, o7)[u] == l6[u] by {
            assert(s[o6 + u] == blk[o6 - i + u]);
        }
    }
    assert(s.subrange(o7, o8) =~= l7) by {
        assert forall|u: int| 0 <= u < l7.len() implies s.subrange(o7, o8)[u] == l7[u] by {
            assert(s[o7 + u] == blk[o7 - i + u]);
        }
    }
    assert(s.subrange(o8, o9) =~= l8) by {
        assert forall|u: int| 0 <= u < l8.len() implies s.subrange(o8, o9)[u] == l8[u] by {
            assert(s[o8 + u] == blk[o8 - i + u]);
        }
    }
    assert(s.subrange(o9, o10) =~= l9) by {
        assert forall|u: int| 0 <= u < l9.len() implies s.subrange(o9, o10)[u] == l9[u] by {
            assert(s[o9 + u] == blk[o9 - i + u]);
        }
    }
    assert(s.subrange(o10, o11) =~= l10) by {
        assert forall|u: int| 0 <= u < l10.len() implies s.subrange(o10, o11)[u] == l10[u] by {
            assert(s[o10 + u] == blk[o10 - i + u]);
        }
    }
}

/// A well-formed record block anywhere in a document parses as one
/// record, to exactly the values the block renders, and consumes
/// exactly the block.
#[verifier::rlimit(100)]
pub proof fn lemma_record_block_at(
    s: Seq<char>,
    i: int,
    secret_token: Seq<char>,
    secret: Seq<char>,
    rule_id: Seq<char>,
    entropy: Option<DecimalView>,
    file: Seq<char>,
    line: Option<Seq<char>>,
    commit: Seq<char>,
    author: Seq<char>,
    email: Seq<char>,
    date: Seq<char>,
    fingerprint: Seq<char>,
)
    requires
        0 <= i,
        i + record_block(
            secret_token,
            secret,
            rule_id,
            entropy,
            file,
            line,
            commit,
            author,
            email,
            date,
            fingerprint,
        ).len() <= s.len(),
        s.subrange(
            i,
            i + record_block(
                secret_token,
                secret,
                rule_id,
                entropy,
                file,
                line,
                commit,
                author,
                email,
                date,
                fingerprint,
            ).len(),
        ) == record_block(
            secret_token,
            secret,
            rule_id,
            entropy,
            file,
            line,
            commit,
            author,
            email,
            date,
            fingerprint,
        ),
        no_line_break(secret_token),
        no_line_break(secret),
        no_line_break(rule_id),
        no_line_break(file),
        no_line_break(commit),
        no_line_break(author),
        no_line_break(email),
        no_line_break(date),
        no_line_break(fingerprint),
        entropy matches Some(dv) ==> wf_decimal(dv),
        line matches Some(ds) ==> wf_line_no(ds),
    ensures
        spec_parse_finding(s, i) == Ok::<_, (int, Expected)>(
            (
                block_finding(
                    secret_token,
                    secret,
                    rule_id,
                    entropy,
                    file,
                    line,
                    commit,
                    author,
                    email,
                    date,
                    fingerprint,
                ),
                i + record_block(
                    secret_token,
                    secret,
                    rule_id,
                    entropy,
                    file,
                    line,
                    commit,
                    author,
                    email,
                    date,
                    fingerprint,
                ).len(),
            ),
        ),
{
    lemma_block_lines_at(
        s,
        i,
        secret_token,
        secret,
        rule_id,
        entropy,
        file,
        line,
        commit,
        author,
        email,
        date,
        fingerprint,
    );
    let l0 = line_of(Field::SecretToken, secret_token);
    let l1 = line_of(Field::Secret, secret);
    let l2 = line_of(Field::RuleId, rule_id);
    let l3 = line_of(Field::Entropy, render_decimal(entropy));
    let l4 = line_of(Field::File, file);
    let l5 = line_of(Field::Line, render_line_no(line));
    let l6 = line_of(Field::Commit, commit);
    let l7 = line_of(Field::Author, author);
    let l8 = line_of(Field::Email, email);
    let l9 = line_of(Field::Date, date);
    let l10 = line_of(Field::Fingerprint, fingerprint);
    let o1 = i + l0.len();
    let o2 = o1 + l1.len();
    let o3 = o2 + l2.len();
    let o4 = o3 + l3.len();
    let o5 = o4 + l4.len();
    let o6 = o5 + l5.len();
    let o7 = o6 + l6.len();
    let o8 = o7 + l7.len();
    let o9 = o8 + l8.len();
    let o10 = o9 + l9.len();
    let o11 = o10 + l10.len();
    lemma_text_line_at(s, i, Field::SecretToken, secret_token);
    lemma_text_line_at(s, o1, Field::Secret, secret);
    lemma_text_line_at(s, o2, Field::RuleId, rule_id);
    lemma_entropy_line_at(s, o3, entropy);
    lemma_text_line_at(s, o4, Field::File, file);
    lemma_line_no_line_at(s, o5, line);
    lemma_text_line_at(s, o6, Field::Commit, commit);
    lemma_text_line_at(s, o7, Field::Author, author);
    lemma_text_line_at(s, o8, Field::Email, email);
    lemma_text_line_at(s, o9, Field::Date, date);
    lemma_text_line_at(s, o10, Field::Fingerprint, fingerprint);
}

/// Every record block with all eleven fields populated parses to a
/// record whose fields are exactly the trimmed text values and the
/// converted numbers, consuming exactly the block.
pub proof fn lemma_full_block_parses(
    s: Seq<char>,
    i: int,
    secret_token: Seq<char>,
    secret: Seq<char>,
    rule_id: Seq<char>,
    entropy: DecimalView,
    file: Seq<char>,
    line: Seq<char>,
    commit: Seq<char>,
    author: Seq<char>,
    email: Seq<char>,
    date: Seq<char>,
    fingerprint: Seq<char>,
)
    requires
        0 <= i,
        i + record_block(
            secret_token,
            secret,
            rule_id,
            Some(entropy),
            file,
            Some(line),
            commit,
            author,
            email,
            date,
            fingerprint,
        ).len() <= s.len(),
        s.subrange(
            i,
            i + record_block(
                secret_token,
                secret,
                rule_id,
                Some(entropy),
                file,
                Some(line),
                commit,
                author,
                email,
                date,
                fingerprint,
            ).len(),
        ) == record_block(
            secret_token,
            secret,
            rule_id,
            Some(entropy),
            file,
            Some(line),
            commit,
            author,
            email,
            date,
            fingerprint,
        ),
        no_line_break(secret_token),
        no_line_break(secret),
        no_line_break(rule_id),
        no_line_break(file),
        no_line_break(commit),
        no_line_break(author),
        no_line_break(email),
        no_line_break(date),
        no_line_break(fingerprint),
        wf_decimal(entropy),
        wf_line_no(line),
        trimmed(secret_token).len() > 0,
        trimmed(secret).len() > 0,
        trimmed(rule_id).len() > 0,
        trimmed(file).len() > 0,
        trimmed(commit).len() > 0,
        trimmed(author).len() > 0,
        trimmed(email).len() > 0,
        trimmed(date).len() > 0,
        trimmed(fingerprint).len() > 0,
    ensures
        spec_parse_finding(s, i) == Ok::<_, (int, Expected)>(
            (
                FindingView {
                    secret_token: Some(trimmed(secret_token)),
                    secret: Some(trimmed(secret)),
                    rule_id: Some(trimmed(rule_id)),
                    entropy: Some(entropy),
                    file: Some(trimmed(file)),
                    line: Some(digits_value(line) as u32),
                    commit: Some(trimmed(commit)),
                    author: Some(trimmed(author)),
                    email: Some(trimmed(email)),
                    date: Some(trimmed(date)),
                    fingerprint: Some(trimmed(fingerprint)),
                },
                i + record_block(
                    secret_token,
                    secret,
                    rule_id,
                    Some(entropy),
                    file,
                    Some(line),
                    commit,
                    author,
                    email,
                    date,
                    fingerprint,
                ).len(),
            ),
        ),
{
    lemma_record_block_at(
        s,
        i,
        secret_token,
        secret,
        rule_id,
        Some(entropy),
        file,
        Some(line),
        commit,
        author,
        email,
        date,
        fingerprint,
    );
}

/// In a well-formed record block, a field whose value portion is blank
/// (nothing after the label, or only whitespace) parses as absent, not
/// as an empty string.
pub proof fn lemma_blank_fields_absent(
    s: Seq<char>,
    i: int,
    secret_token: Seq<char>,
    secret: Seq<char>,
    rule_id: Seq<char>,
    entropy: Option<DecimalView>,
    file: Seq<char>,
    line: Option<Seq<char>>,
    commit: Seq<char>,
    author: Seq<char>,
    email: Seq<char>,
    date: Seq<char>,
    fingerprint: Seq<char>,
)
    requires
        0 <= i,
        i + record_block(
            secret_token,
            secret,
            rule_id,
            entropy,
            file,
            line,
            commit,
            author,
            email,
            date,
            fingerprint,
        ).len() <= s.len(),
        s.subrange(
            i,
            i + record_block(
                secret_token,
                secret,
                rule_id,
                entropy,
                file,
                line,
                commit,
                author,
                email,
                date,
                fingerprint,
            ).len(),
        ) == record_block(
            secret_token,
            secret,
            rule_id,
            entropy,
            file,
            line,
            commit,
            author,
            email,
            date,
            fingerprint,
        ),
        no_line_break(secret_token),
        no_line_break(secret),
        no_line_break(rule_id),
        no_line_break(file),
        no_line_break(commit),
        no_line_break(author),
        no_line_break(email),
        no_line_break(date),
        no_line_break(fingerprint),
        entropy matches Some(dv) ==> wf_decimal(dv),
        line matches Some(ds) ==> wf_line_no(ds),
    ensures
        spec_parse_finding(s, i) is Ok,
        ({
            let fv = spec_parse_finding(s, i)->Ok_0.0;
            &&& (forall|j: int| 0 <= j < secret_token.len() ==> is_space(#[trigger] secret_token[j]))
                ==> fv.secret_token is None
            &&& (forall|j: int| 0 <= j < secret.len() ==> is_space(#[trigger] secret[j]))
                ==> fv.secret is None
            &&& (forall|j: int| 0 <= j < rule_id.len() ==> is_space(#[trigger] rule_id[j]))
                ==> fv.rule_id is None
            &&& entropy is None ==> fv.entropy is None
            &&& (forall|j: int| 0 <= j < file.len() ==> is_space(#[trigger] file[j])) ==> fv.file
                is None
            &&& line is None ==> fv.line is None
            &&& (forall|j: int| 0 <= j < commit.len() ==> is_space(#[trigger] commit[j]))
                ==> fv.commit is None
            &&& (forall|j: int| 0 <= j < author.len() ==> is_space(#[trigger] author[j]))
                ==> fv.author is None
            &&& (forall|j: int| 0 <= j < email.len() ==> is_space(#[trigger] email[j])) ==> fv.email
                is None
            &&& (forall|j: int| 0 <= j < date.len() ==> is_space(#[trigger] date[j])) ==> fv.date
                is None
            &&& (forall|j: int| 0 <= j < fingerprint.len() ==> is_space(#[trigger] fingerprint[j]))
                ==> fv.fingerprint is None
        }),
{
    lemma_record_block_at(
        s,
        i,
        secret_token,
        secret,
        rule_id,
        entropy,
        file,
        line,
        commit,
        author,
        email,
        date,
        fingerprint,
    );
    if forall|j: int| 0 <= j < secret_token.len() ==> is_space(#[trigger] secret_token[j]) {
        lemma_whitespace_only_absent(secret_token);
    }
    if forall|j: int| 0 <= j < secret.len() ==> is_space(#[trigger] secret[j]) {
        lemma_whitespace_only_absent(secret);
    }
    if forall|j: int| 0 <= j < rule_id.len() ==> is_space(#[trigger] rule_id[j]) {
        lemma_whitespace_only_absent(rule_id);
    }
    if forall|j: int| 0 <= j < file.len() ==> is_space(#[trigger] file[j]) {
        lemma_whitespace_only_absent(file);
    }
    if forall|j: int| 0 <= j < commit.len() ==> is_space(#[trigger] commit[j]) {
        lemma_whitespace_only_absent(commit);
    }
    if forall|j: int| 0 <= j < author.len() ==> is_space(#[trigger] author[j]) {
        lemma_whitespace_only_absent(author);
    }
    if forall|j: int| 0 <= j < email.len() ==> is_space(#[trigger] email[j]) {
        lemma_whitespace_only_absent(email);
    }
    if forall|j: int| 0 <= j < date.len() ==> is_space(#[trigger] date[j]) {
        lemma_whitespace_only_absent(date);
    }
    if forall|j: int| 0 <= j < fingerprint.len() ==> is_space(#[trigger] fingerprint[j]) {
        lemma_whitespace_only_absent(fingerprint);
    }
}

/// A document of chained record blocks parses to exactly those records,
/// in their original order: `offs` are the positions where the blocks
/// start (with one final position where no further block matches),
/// `ends` the positions just past each block, and an optional blank
/// line may separate one block from the next.
pub proof fn lemma_document_yields_all_records(
    s: Seq<char>,
    i: int,
    fvs: Seq<FindingView>,
    ends: Seq<int>,
    offs: Seq<int>,
)
    requires
        0 <= i <= s.len(),
        offs.len() == fvs.len() + 1,
        ends.len() == fvs.len(),
        offs[0] == i,
        forall|k: int| 0 <= k < fvs.len() ==> spec_parse_finding(s, #[trigger] offs[k]) == Ok::<
            (FindingView, int),
            (int, Expected),
        >((fvs[k], ends[k])),
        forall|k: int| 0 <= k < fvs.len() ==> opt_break(s, #[trigger] ends[k]) == offs[k + 1],
        spec_parse_finding(s, offs[fvs.len() as int]) is Err,
    ensures
        spec_parse_findings(s, i) == (fvs, offs[fvs.len() as int]),
    decreases fvs.len(),
{
    if fvs.len() == 0 {
        assert(fvs =~= Seq::<FindingView>::empty());
    } else {
        lemma_parse_finding_bounds(s, i);
        let e0 = ends[0];
        let n1 = offs[1];
        assert(spec_parse_finding(s, i) == Ok::<(FindingView, int), (int, Expected)>(
            (fvs[0], e0),
        ));
        assert(i < e0 <= s.len());
        assert(opt_break(s, e0) == n1);
        assert(e0 <= n1 <= s.len());
        let fvs2 = fvs.subrange(1, fvs.len() as int);
        let ends2 = ends.subrange(1, ends.len() as int);
        let offs2 = offs.subrange(1, offs.len() as int);
        assert forall|k: int| 0 <= k < fvs2.len() implies spec_parse_finding(
            s,
            #[trigger] offs2[k],
        ) == Ok::<(FindingView, int), (int, Expected)>((fvs2[k], ends2[k])) by {
            assert(offs2[k] == offs[k + 1]);
            assert(fvs2[k] == fvs[k + 1]);
            assert(ends2[k] == ends[k + 1]);
        }
        assert forall|k: int| 0 <= k < fvs2.len() implies opt_break(s, #[trigger] ends2[k])
            == offs2[k + 1] by {
            assert(ends2[k] == ends[k + 1]);
            assert(offs2[k + 1] == offs[k + 2]);
        }
        assert(offs2[fvs2.len() as int] == offs[fvs.len() as int]);
        lemma_document_yields_all_records(s, n1, fvs2, ends2, offs2);
        assert(seq![fvs[0]] + fvs2 =~= fvs);
    }
}

/// A document with zero records — one that does not begin with the
/// first label — yields an empty sequence and consumes nothing; it is
/// not a failure.
pub proof fn lemma_no_leading_record(s: Seq<char>)
    requires
        !match_label(s, 0, spec_label(Field::SecretToken)),
    ensures
        spec_parse_findings(s, 0) == (Seq::<FindingView>::empty(), 0int),
{
    assert(text_line(s, 0, Field::SecretToken) is Err);
}

/// In particular, an empty document yields an empty sequence.
pub proof fn lemma_empty_document_no_records(s: Seq<char>)
    requires
        s.len() == 0,
    ensures
        spec_parse_findings(s, 0) == (Seq::<FindingView>::empty(), 0int),
{
    lemma_label_lengths();
    lemma_no_leading_record(s);
}

/// The first five lines of a record block, followed by the `Line: `
/// label: the shape on which only the line-number value is still open.
pub open spec fn block_prefix_to_line_value(
    secret_token: Seq<char>,
    secret: Seq<char>,
    rule_id: Seq<char>,
    entropy: Option<DecimalView>,
    file: Seq<char>,
) -> Seq<char> {
    line_of(Field::SecretToken, secret_token) + line_of(Field::Secret, secret) + line_of(
        Field::RuleId,
        rule_id,
    ) + line_of(Field::Entropy, render_decimal(entropy)) + line_of(Field::File, file) + spec_label(
        Field::Line,
    )
}

/// The line spans of a block prefix standing at position `i` of `s`:
/// each of the five leading lines, and the `Line: ` label after them,
/// is a subrange of `s`.
#[verifier::rlimit(100)]
proof fn lemma_prefix_lines_at(
    s: Seq<char>,
    i: int,
    secret_token: Seq<char>,
    secret: Seq<char>,
    rule_id: Seq<char>,
    entropy: Option<DecimalView>,
    file: Seq<char>,
)
    requires
        0 <= i,
        i + block_prefix_to_line_value(secret_token, secret, rule_id, entropy, file).len()
            <= s.len(),
        s.subrange(
            i,
            i + block_prefix_to_line_value(secret_token, secret, rule_id, entropy, file).len(),
        ) == block_prefix_to_line_value(secret_token, secret, rule_id, entropy, file),
    ensures
        ({
            let l0 = line_of(Field::SecretToken, secret_token);
            let l1 = line_of(Field::Secret, secret);
            let l2 = line_of(Field::RuleId, rule_id);
            let l3 = line_of(Field::Entropy, render_decimal(entropy));
            let l4 = line_of(Field::File, file);
            let o1 = i + l0.len();
            let o2 = o1 + l1.len();
            let o3 = o2 + l2.len();
            let o4 = o3 + l3.len();
            let o5 = o4 + l4.len();
            let vs = o5 + spec_label(Field::Line).len();
            &&& s.subrange(i, o1) == l0
            &&& s.subrange(o1, o2) == l1
            &&& s.subrange(o2, o3) == l2
            &&& s.subrange(o3, o4) == l3
            &&& s.subrange(o4, o5) == l4
            &&& s.subrange(o5, vs) == spec_label(Field::Line)
            &&& vs == i + block_prefix_to_line_value(
                secret_token,
                secret,
                rule_id,
                entropy,
                file,
            ).len()
        }),
{
    let l0 = line_of(Field::SecretToken, secret_token);
    let l1 = line_of(Field::Secret, secret);
    let l2 = line_of(Field::RuleId, rule_id);
    let l3 = line_of(Field::Entropy, render_decimal(entropy));
    let l4 = line_of(Field::File, file);
    let lab = spec_label(Field::Line);
    let pre = block_prefix_to_line_value(secret_token, secret, rule_id, entropy, file);
    let p1 = l0 + l1;
    let p2 = p1 + l2;
    let p3 = p2 + l3;
    let p4 = p3 + l4;
    let p5 = p4 + lab;
    assert(pre == p5);
    let o0 = i;
    let o1 = o0 + l0.len();
    let o2 = o1 + l1.len();
    let o3 = o2 + l2.len();
    let o4 = o3 + l3.len();
    let o5 = o4 + l4.len();
    let vs = o5 + lab.len();
    assert(pre.len() == vs - i);
    assert forall|j: int| i <= j < vs implies #[trigger] s[j] == pre[j - i] by {
        assert(s.subrange(i, i + pre.len())[j - i] == s[j]);
    }
    assert(s.subrange(o0, o1) =~= l0) by {
        assert forall|u: int| 0 <= u < l0.len() implies s.subrange(o0, o1)[u] == l0[u] by {
            assert(s[o0 + u] == pre[o0 - i + u]);
        }
    }
    assert(s.subrange(o1, o2) =~= l1) by {
        assert forall|u: int| 0 <= u < l1.len() implies s.subrange(o1, o2)[u] == l1[u] by {
            assert(s[o1 + u] == pre[o1 - i + u]);
        }
    }
    assert(s.subrange(o2, o3) =~= l2) by {
        assert forall|u: int| 0 <= u < l2.len() implies s.subrange(o2, o3)[u] == l2[u] by {
            assert(s[o2 + u] == pre[o2 - i + u]);
        }
    }
    assert(s.subrange(o3, o4) =~= l3) by {
        assert forall|u: int| 0 <= u < l3.len() implies s.subrange(o3, o4)[u] == l3[u] by {
            assert(s[o3 + u] == pre[o3 - i + u]);
        }
    }
    assert(s.subrange(o4, o5) =~= l4) by {
        assert forall|u: int| 0 <= u < l4.len() implies s.subrange(o4, o5)[u] == l4[u] by {
            assert(s[o4 + u] == pre[o4 - i + u]);
        }
    }
    assert(s.subrange(o5, vs) =~= lab) by {
        assert forall|u: int| 0 <= u < lab.len() implies s.subrange(o5, vs)[u] == lab[u] by {
            assert(s[o5 + u] == pre[o5 - i + u]);
        }
    }
}

/// A `Line: ` value that starts with anything but a digit or a line
/// break fails the whole record — the field does not degrade to
/// absent.
#[verifier::rlimit(100)]
pub proof fn lemma_nondigit_line_number_rejected(
    s: Seq<char>,
    i: int,
    secret_token: Seq<char>,
    secret: Seq<char>,
    rule_id: Seq<char>,
    entropy: Option<DecimalView>,
    file: Seq<char>,
)
    requires
        0 <= i,
        i + block_prefix_to_line_value(secret_token, secret, rule_id, entropy, file).len()
            < s.len(),
        s.subrange(
            i,
            i + block_prefix_to_line_value(secret_token, secret, rule_id, entropy, file).len(),
        ) == block_prefix_to_line_value(secret_token, secret, rule_id, entropy, file),
        no_line_break(secret_token),
        no_line_break(secret),
        no_line_break(rule_id),
        no_line_break(file),
        entropy matches Some(dv) ==> wf_decimal(dv),
        !is_digit(s[i + block_prefix_to_line_value(secret_token, secret, rule_id, entropy, file).len()]),
        s[i + block_prefix_to_line_value(secret_token, secret, rule_id, entropy, file).len()] != '\n',
        s[i + block_prefix_to_line_value(secret_token, secret, rule_id, entropy, file).len()] != '\r',
    ensures
        spec_parse_finding(s, i) == Err::<(FindingView, int), _>(
            (
                i + block_prefix_to_line_value(secret_token, secret, rule_id, entropy, file).len(),
                Expected::LineBreak,
            ),
        ),
{
    lemma_prefix_lines_at(s, i, secret_token, secret, rule_id, entropy, file);
    let l0 = line_of(Field::SecretToken, secret_token);
    let l1 = line_of(Field::Secret, secret);
    let l2 = line_of(Field::RuleId, rule_id);
    let l3 = line_of(Field::Entropy, render_decimal(entropy));
    let l4 = line_of(Field::File, file);
    let lab = spec_label(Field::Line);
    let o1 = i + l0.len();
    let o2 = o1 + l1.len();
    let o3 = o2 + l2.len();
    let o4 = o3 + l3.len();
    let o5 = o4 + l4.len();
    let vs = o5 + lab.len();
    lemma_text_line_at(s, i, Field::SecretToken, secret_token);
    lemma_text_line_at(s, o1, Field::Secret, secret);
    lemma_text_line_at(s, o2, Field::RuleId, rule_id);
    lemma_entropy_line_at(s, o3, entropy);
    lemma_text_line_at(s, o4, Field::File, file);
    assert(match_label(s, o5, lab));
    assert(digits_end(s, vs) == vs);
    assert(u32_field(s, vs) == (None::<u32>, vs));
    assert(line_break_end(s, vs) is None);
    assert(line_no_line(s, o5) == Err::<(Option<u32>, int), _>((vs, Expected::LineBreak)));
}

} // verus!
