//! Parsing of the embedded seed dictionaries: two-column comma-separated
//! rows, one per line, `character,reading` / `word,reading` or
//! `token,category`; and quoting of SQL string literals for the loader
//! statements the host submits.

use vstd::prelude::*;

verus! {

use crate::text::{append_chars, chars_vec, string_of};
use crate::codec::sub_vec;

/// A seed row the parser rejects, with its 1-based line number.
#[derive(Clone, Copy, Debug, PartialEq, Eq, Structural)]
pub enum CsvError {
    MissingComma { line: usize },
    BadCategory { line: usize },
}

/// A single quote doubled, every other character kept.
pub open spec fn sql_escaped(s: Seq<char>) -> Seq<char>
    decreases s.len(),
{
    if s.len() == 0 {
        Seq::empty()
    } else if s.last() == '\'' {
        sql_escaped(s.drop_last()) + seq!['\'', '\'']
    } else {
        sql_escaped(s.drop_last()) + seq![s.last()]
    }
}

/// The SQL string literal for a value: quoted, with inner quotes doubled.
pub open spec fn sql_literal_spec(s: Seq<char>) -> Seq<char> {
    seq!['\''] + sql_escaped(s) + seq!['\'']
}

/// Quote a value as a SQL string literal.
pub fn sql_literal(value: &str) -> (r: String)
    ensures
        r@ == sql_literal_spec(value@),
{
    let cs = chars_vec(value);
    let mut out: Vec<char> = Vec::new();
    out.push('\'');
    let mut i: usize = 0;
    while i < cs.len()
        invariant
            i <= cs@.len(),
            cs@ == value@,
            out@ == seq!['\''] + sql_escaped(cs@.take(i as int)),
        decreases cs@.len() - i,
    {
        let c = cs[i];
        if c == '\'' {
            out.push('\'');
            out.push('\'');
        } else {
            out.push(c);
        }
        i = i + 1;
        proof {
            let t = cs@.take(i as int);
            assert(t.drop_last() =~= cs@.take(i - 1));
            assert(t.last() == cs@[i - 1]);
            if cs@[i - 1] == '\'' {
                assert(out@ =~= seq!['\''] + (sql_escaped(t.drop_last()) + seq!['\'', '\'']));
            } else {
                assert(out@ =~= seq!['\''] + (sql_escaped(t.drop_last()) + seq![t.last()]));
            }
        }
    }
    out.push('\'');
    proof {
        assert(cs@.take(cs@.len() as int) =~= cs@);
        assert(out@ =~= sql_literal_spec(value@));
    }
    string_of(&out)
}

/// The first position at or after `from` holding a newline, or the length
/// if there is none.
pub open spec fn newline_at(s: Seq<char>, from: int) -> int
    decreases s.len() - from
        when 0 <= from
{
    if from >= s.len() {
        s.len() as int
    } else if s[from] == '\n' {
        from
    } else {
        newline_at(s, from + 1)
    }
}

pub proof fn lemma_newline_at_bounds(s: Seq<char>, from: int)
    requires
        0 <= from <= s.len(),
    ensures
        from <= newline_at(s, from) <= s.len(),
    decreases s.len() - from,
{
    if from < s.len() && s[from] != '\n' {
        lemma_newline_at_bounds(s, from + 1);
    }
}

/// The position just after the last character strictly before `upto` that
/// is not a carriage return, or 0 if there is none.
pub open spec fn non_cr_end(t: Seq<char>, upto: int) -> int
    decreases upto
        when upto <= t.len()
{
    if upto <= 0 {
        0
    } else if t[upto - 1] == '\r' {
        non_cr_end(t, upto - 1)
    } else {
        upto
    }
}

/// A line with every trailing carriage return removed.
pub open spec fn strip_cr(t: Seq<char>) -> Seq<char> {
    t.subrange(0, non_cr_end(t, t.len() as int))
}

/// The first position at or after `from` holding a comma, or the length if
/// there is none.
pub open spec fn comma_at(t: Seq<char>, from: int) -> int
    decreases t.len() - from
        when 0 <= from
{
    if from >= t.len() {
        t.len() as int
    } else if t[from] == ',' {
        from
    } else {
        comma_at(t, from + 1)
    }
}

/// The two-column rows of the seed text from position `from` on, lines
/// numbered from `line`: blank lines are skipped, every other line must
/// hold a comma, and splits at its first one.
pub open spec fn string_rows_spec(s: Seq<char>, from: int, line: int) -> Result<
    Seq<(Seq<char>, Seq<char>)>,
    CsvError,
>
    decreases s.len() - from
        when 0 <= from <= s.len()
        via string_rows_spec_decreases
{
    if from >= s.len() {
        Ok(Seq::empty())
    } else {
        let e = newline_at(s, from);
        let next = if e >= s.len() { s.len() as int } else { e + 1 };
        let row = strip_cr(s.subrange(from, e));
        if row.len() == 0 {
            string_rows_spec(s, next, line + 1)
        } else {
            let c = comma_at(row, 0);
            if c == row.len() {
                Err(CsvError::MissingComma { line: line as usize })
            } else {
                match string_rows_spec(s, next, line + 1) {
                    Ok(rest) => Ok(
                        seq![(row.subrange(0, c), row.subrange(c + 1, row.len() as int))]
                            + rest,
                    ),
                    Err(err) => Err(err),
                }
            }
        }
    }
}

#[via_fn]
proof fn string_rows_spec_decreases(s: Seq<char>, from: int, line: int) {
    if 0 <= from < s.len() {
        lemma_newline_at_bounds(s, from);
    }
}

/// The view of parsed string rows.
pub open spec fn string_rows_view(rows: Seq<(String, String)>) -> Seq<(Seq<char>, Seq<char>)> {
    rows.map_values(|p: (String, String)| (p.0@, p.1@))
}

/// Parse a two-column seed text into key/value rows.
pub fn parse_embedded_string_rows(csv_text: &str) -> (r: Result<Vec<(String, String)>, CsvError>)
    requires
        csv_text@.len() < usize::MAX as nat,
    ensures
        match r {
            Ok(rows) => string_rows_spec(csv_text@, 0, 1) == Ok::<_, CsvError>(
                string_rows_view(rows@)),
            Err(e) => string_rows_spec(csv_text@, 0, 1) == Err::<Seq<(Seq<char>, Seq<char>)>,
                _>(e),
        },
{
    let cs = chars_vec(csv_text);
    let n = cs.len();
    let mut rows: Vec<(String, String)> = Vec::new();
    let mut from: usize = 0;
    let mut line: usize = 1;
    while from < n
        invariant
            from <= n,
            n == cs@.len(),
            n < usize::MAX,
            cs@ == csv_text@,
            1 <= line <= from + 1,
            string_rows_spec(cs@, 0, 1) == match string_rows_spec(cs@, from as int, line as int) {
                Ok(rest) => Ok::<_, CsvError>(string_rows_view(rows@) + rest),
                Err(err) => Err::<Seq<(Seq<char>, Seq<char>)>, _>(err),
            },
        decreases n - from,
    {
        let ghost from0 = from as int;
        let ghost line0 = line as int;
        let ghost before = string_rows_view(rows@);
        let mut e: usize = from;
        while e < n && cs[e] != '\n'
            invariant
                from <= e <= n,
                n == cs@.len(),
                newline_at(cs@, from as int) == newline_at(cs@, e as int),
            decreases n - e,
        {
            e = e + 1;
        }
        proof {
            assert(newline_at(cs@, from as int) == e);
        }
        let mut re: usize = e;
        while re > from && cs[re - 1] == '\r'
            invariant
                from <= re <= e <= n,
                n == cs@.len(),
                non_cr_end(cs@.subrange(from as int, e as int), re - from)
                    == non_cr_end(cs@.subrange(from as int, e as int), e - from),
            decreases re,
        {
            proof {
                assert(cs@.subrange(from as int, e as int)[re - from - 1] == cs@[re - 1]);
            }
            re = re - 1;
        }
        let ghost lineseq = cs@.subrange(from0, e as int);
        proof {
            if re > from {
                assert(lineseq[re - from - 1] == cs@[re - 1]);
            }
            assert(non_cr_end(lineseq, re - from0) == re - from0);
            assert(strip_cr(lineseq) =~= cs@.subrange(from0, re as int));
        }
        let next = if e >= n { n } else { e + 1 };
        if re == from {
            proof {
                assert(strip_cr(lineseq).len() == 0);
            }
            from = next;
            line = line + 1;
            continue;
        }
        let row = sub_vec(&cs, from, re);
        proof {
            assert(row@ == strip_cr(lineseq));
        }
        let mut c: usize = 0;
        let rl = row.len();
        while c < rl && row[c] != ','
            invariant
                c <= rl,
                rl == row@.len(),
                comma_at(row@, 0) == comma_at(row@, c as int),
            decreases rl - c,
        {
            c = c + 1;
        }
        proof {
            assert(comma_at(row@, 0) == c);
        }
        if c == rl {
            return Err(CsvError::MissingComma { line });
        }
        let first = sub_vec(&row, 0, c);
        let second = sub_vec(&row, c + 1, rl);
        let first_s = string_of(&first);
        let second_s = string_of(&second);
        rows.push((first_s, second_s));
        from = next;
        line = line + 1;
        proof {
            assert(string_rows_view(rows@) =~= before.push((row@.subrange(0, c as int),
                row@.subrange(c + 1, row@.len() as int))));
            if string_rows_spec(cs@, from as int, line as int) is Ok {
                let rest = string_rows_spec(cs@, from as int, line as int)->Ok_0;
                assert(string_rows_view(rows@) + rest =~= before + (seq![(row@.subrange(0,
                    c as int), row@.subrange(c + 1, row@.len() as int))] + rest));
            }
        }
    }
    proof {
        assert(string_rows_view(rows@) + Seq::<(Seq<char>, Seq<char>)>::empty()
            =~= string_rows_view(rows@));
    }
    Ok(rows)
}

/// An ASCII decimal digit.
pub open spec fn is_digit(c: char) -> bool {
    '0' <= c && c <= '9'
}

pub open spec fn digit_val(c: char) -> int {
    c as int - '0' as int
}

/// One or more characters, all ASCII decimal digits.
pub open spec fn all_digits(t: Seq<char>) -> bool {
    t.len() > 0 && forall|i: int| 0 <= i < t.len() ==> is_digit(#[trigger] t[i])
}

/// The decimal value of a digit string.
pub open spec fn dec_val(t: Seq<char>) -> int
    decreases t.len(),
{
    if t.len() == 0 {
        0
    } else {
        dec_val(t.drop_last()) * 10 + digit_val(t.last())
    }
}

/// The value of a digit string after an optional sign, if every remaining
/// character is a digit and the value fits a 16-bit signed integer.
pub open spec fn signed_val(neg: bool, ds: Seq<char>) -> Option<int> {
    if !all_digits(ds) {
        None
    } else {
        let v = if neg { -dec_val(ds) } else { dec_val(ds) };
        if -32768 <= v <= 32767 {
            Some(v)
        } else {
            None
        }
    }
}

/// What a seed category column parses to: an optional `+` or `-` sign,
/// then decimal digits, in 16-bit signed range; anything else is rejected.
pub open spec fn parse_i16_spec(t: Seq<char>) -> Option<int> {
    if t.len() > 0 && (t[0] == '-' || t[0] == '+') {
        signed_val(t[0] == '-', t.drop_first())
    } else {
        signed_val(false, t)
    }
}

proof fn lemma_dec_val_nonneg(t: Seq<char>)
    requires
        forall|i: int| 0 <= i < t.len() ==> is_digit(#[trigger] t[i]),
    ensures
        dec_val(t) >= 0,
    decreases t.len(),
{
    if t.len() > 0 {
        lemma_dec_val_nonneg(t.drop_last());
    }
}

/// A digit string is worth at least any of its prefixes.
proof fn lemma_dec_val_prefix(t: Seq<char>, i: int)
    requires
        0 <= i <= t.len(),
        forall|j: int| 0 <= j < t.len() ==> is_digit(#[trigger] t[j]),
    ensures
        dec_val(t.take(i)) <= dec_val(t),
    decreases t.len() - i,
{
    if i < t.len() {
        lemma_dec_val_prefix(t, i + 1);
        assert(t.take(i + 1).drop_last() =~= t.take(i));
        assert(t.take(i + 1).last() == t[i]);
        assert(forall|j: int| 0 <= j < t.take(i).len() ==> is_digit(#[trigger] t.take(i)[j]));
        lemma_dec_val_nonneg(t.take(i));
    } else {
        assert(t.take(i) =~= t);
    }
}

/// Parse a category column: an optional sign and decimal digits in
/// 16-bit signed range.
pub fn parse_i16(t: &Vec<char>) -> (r: Option<i16>)
    ensures
        match r {
            Some(v) => parse_i16_spec(t@) == Some(v as int),
            None => parse_i16_spec(t@) is None,
        },
{
    let n = t.len();
    let mut start: usize = 0;
    let mut neg = false;
    if n > 0 && (t[0] == '-' || t[0] == '+') {
        neg = t[0] == '-';
        start = 1;
    }
    let ghost ds = t@.skip(start as int);
    proof {
        if start == 1 {
            assert(ds =~= t@.drop_first());
        } else {
            assert(ds =~= t@);
        }
        assert(parse_i16_spec(t@) == signed_val(neg, ds));
    }
    if start == n {
        proof {
            assert(!all_digits(ds));
        }
        return None;
    }
    let mut acc: i32 = 0;
    let mut i: usize = start;
    while i < n
        invariant
            start <= i <= n,
            n == t@.len(),
            start < n,
            ds == t@.skip(start as int),
            forall|j: int| 0 <= j < i - start ==> is_digit(#[trigger] ds[j]),
            parse_i16_spec(t@) == signed_val(neg, ds),
            0 <= acc <= 32768,
            acc as int == dec_val(ds.take(i - start)),
        decreases n - i,
    {
        let c = t[i];
        if !('0' <= c && c <= '9') {
            proof {
                assert(ds[i - start] == t@[i as int]);
                assert(!all_digits(ds));
            }
            return None;
        }
        let d: i32 = (c as u32 as i32) - 48;
        proof {
            assert(ds[i - start] == t@[i as int]);
            assert(is_digit(ds[i - start]));
            assert(0 <= d <= 9);
        }
        let wide: i32 = acc * 10 + d;
        proof {
            assert(ds.take(i - start + 1).drop_last() =~= ds.take(i - start));
            assert(ds.take(i - start + 1).last() == ds[i - start]);
            assert(digit_val(ds[i - start]) == d as int);
            assert(wide as int == dec_val(ds.take(i - start + 1)));
        }
        if wide > 32768 {
            proof {
                if all_digits(ds) {
                    lemma_dec_val_prefix(ds, i - start + 1);
                    assert(dec_val(ds) >= wide);
                }
            }
            return None;
        }
        acc = wide;
        i = i + 1;
    }
    proof {
        assert(ds.take(n - start) =~= ds);
        assert(all_digits(ds));
        assert(acc as int == dec_val(ds));
    }
    if neg {
        let v: i32 = -acc;
        Some(v as i16)
    } else {
        if acc > 32767 {
            return None;
        }
        Some(acc as i16)
    }
}

/// The token rows of the seed text: like the string rows, with the second
/// column required to parse as a 16-bit signed category.
pub open spec fn token_rows_spec(s: Seq<char>, from: int, line: int) -> Result<
    Seq<(Seq<char>, int)>,
    CsvError,
>
    decreases s.len() - from
        when 0 <= from <= s.len()
        via token_rows_spec_decreases
{
    if from >= s.len() {
        Ok(Seq::empty())
    } else {
        let e = newline_at(s, from);
        let next = if e >= s.len() { s.len() as int } else { e + 1 };
        let row = strip_cr(s.subrange(from, e));
        if row.len() == 0 {
            token_rows_spec(s, next, line + 1)
        } else {
            let c = comma_at(row, 0);
            if c == row.len() {
                Err(CsvError::MissingComma { line: line as usize })
            } else {
                match parse_i16_spec(row.subrange(c + 1, row.len() as int)) {
                    Some(v) => match token_rows_spec(s, next, line + 1) {
                        Ok(rest) => Ok(seq![(row.subrange(0, c), v)] + rest),
                        Err(err) => Err(err),
                    },
                    None => Err(CsvError::BadCategory { line: line as usize }),
                }
            }
        }
    }
}

#[via_fn]
proof fn token_rows_spec_decreases(s: Seq<char>, from: int, line: int) {
    if 0 <= from < s.len() {
        lemma_newline_at_bounds(s, from);
    }
}

/// The view of parsed token rows.
pub open spec fn token_rows_view(rows: Seq<(String, i16)>) -> Seq<(Seq<char>, int)> {
    rows.map_values(|p: (String, i16)| (p.0@, p.1 as int))
}

/// Parse a token/category seed text into classification rows.
pub fn parse_embedded_token_rows(csv_text: &str) -> (r: Result<Vec<(String, i16)>, CsvError>)
    requires
        csv_text@.len() < usize::MAX as nat,
    ensures
        match r {
            Ok(rows) => token_rows_spec(csv_text@, 0, 1) == Ok::<_, CsvError>(token_rows_view(
                rows@)),
            Err(e) => token_rows_spec(csv_text@, 0, 1) == Err::<Seq<(Seq<char>, int)>, _>(e),
        },
{
    let cs = chars_vec(csv_text);
    let n = cs.len();
    let mut rows: Vec<(String, i16)> = Vec::new();
    let mut from: usize = 0;
    let mut line: usize = 1;
    while from < n
        invariant
            from <= n,
            n == cs@.len(),
            n < usize::MAX,
            cs@ == csv_text@,
            1 <= line <= from + 1,
            token_rows_spec(cs@, 0, 1) == match token_rows_spec(cs@, from as int, line as int) {
                Ok(rest) => Ok::<_, CsvError>(token_rows_view(rows@) + rest),
                Err(err) => Err::<Seq<(Seq<char>, int)>, _>(err),
            },
        decreases n - from,
    {
        let ghost from0 = from as int;
        let ghost before = token_rows_view(rows@);
        let mut e: usize = from;
        while e < n && cs[e] != '\n'
            invariant
                from <= e <= n,
                n == cs@.len(),
                newline_at(cs@, from as int) == newline_at(cs@, e as int),
            decreases n - e,
        {
            e = e + 1;
        }
        proof {
            assert(newline_at(cs@, from as int) == e);
        }
        let mut re: usize = e;
        while re > from && cs[re - 1] == '\r'
            invariant
                from <= re <= e <= n,
                n == cs@.len(),
                non_cr_end(cs@.subrange(from as int, e as int), re - from)
                    == non_cr_end(cs@.subrange(from as int, e as int), e - from),
            decreases re,
        {
            proof {
                assert(cs@.subrange(from as int, e as int)[re - from - 1] == cs@[re - 1]);
            }
            re = re - 1;
        }
        let ghost lineseq = cs@.subrange(from0, e as int);
        proof {
            if re > from {
                assert(lineseq[re - from - 1] == cs@[re - 1]);
            }
            assert(non_cr_end(lineseq, re - from0) == re - from0);
            assert(strip_cr(lineseq) =~= cs@.subrange(from0, re as int));
        }
        let next = if e >= n { n } else { e + 1 };
        if re == from {
            proof {
                assert(strip_cr(lineseq).len() == 0);
            }
            from = next;
            line = line + 1;
            continue;
        }
        let row = sub_vec(&cs, from, re);
        proof {
            assert(row@ == strip_cr(lineseq));
        }
        let mut c: usize = 0;
        let rl = row.len();
        while c < rl && row[c] != ','
            invariant
                c <= rl,
                rl == row@.len(),
                comma_at(row@, 0) == comma_at(row@, c as int),
            decreases rl - c,
        {
            c = c + 1;
        }
        proof {
            assert(comma_at(row@, 0) == c);
        }
        if c == rl {
            return Err(CsvError::MissingComma { line });
        }
        let first = sub_vec(&row, 0, c);
        let second = sub_vec(&row, c + 1, rl);
        let category = match parse_i16(&second) {
            Some(v) => v,
            None => {
                return Err(CsvError::BadCategory { line });
            },
        };
        let first_s = string_of(&first);
        rows.push((first_s, category));
        from = next;
        line = line + 1;
        proof {
            assert(token_rows_view(rows@) =~= before.push((row@.subrange(0, c as int),
                category as int)));
            if token_rows_spec(cs@, from as int, line as int) is Ok {
                let rest = token_rows_spec(cs@, from as int, line as int)->Ok_0;
                assert(token_rows_view(rows@) + rest =~= before + (seq![(row@.subrange(0,
                    c as int), category as int)] + rest));
            }
        }
    }
    proof {
        assert(token_rows_view(rows@) + Seq::<(Seq<char>, int)>::empty() =~= token_rows_view(
            rows@));
    }
    Ok(rows)
}

/// One row of a bulk-insert VALUES list: both columns as SQL literals.
pub open spec fn row_values_entry(k: Seq<char>, v: Seq<char>) -> Seq<char> {
    seq!['('] + sql_literal_spec(k) + seq![',', ' '] + sql_literal_spec(v) + seq![')']
}

/// A bulk-insert VALUES list: the rows' entries joined with commas.
pub open spec fn values_clause_spec(rows: Seq<(Seq<char>, Seq<char>)>) -> Seq<char>
    decreases rows.len(),
{
    if rows.len() == 0 {
        Seq::empty()
    } else if rows.len() == 1 {
        row_values_entry(rows[0].0, rows[0].1)
    } else {
        values_clause_spec(rows.drop_last()) + seq![','] + row_values_entry(rows.last().0,
            rows.last().1)
    }
}

/// Build the VALUES list of a bulk-insert statement for key/value rows,
/// as the loader submits when row-by-row insertion replaces a bulk copy.
pub fn string_rows_values_clause(rows: &Vec<(String, String)>) -> (r: String)
    ensures
        r@ == values_clause_spec(string_rows_view(rows@)),
{
    let ghost view = string_rows_view(rows@);
    let mut out: Vec<char> = Vec::new();
    let mut i: usize = 0;
    while i < rows.len()
        invariant
            i <= rows@.len(),
            view == string_rows_view(rows@),
            out@ == values_clause_spec(view.take(i as int)),
        decreases rows@.len() - i,
    {
        let ghost before = out@;
        if i > 0 {
            out.push(',');
        }
        let ghost mid = out@;
        let key_lit = sql_literal(rows[i].0.as_str());
        let val_lit = sql_literal(rows[i].1.as_str());
        let key_cs = chars_vec(key_lit.as_str());
        let val_cs = chars_vec(val_lit.as_str());
        out.push('(');
        append_chars(&mut out, &key_cs);
        out.push(',');
        out.push(' ');
        append_chars(&mut out, &val_cs);
        out.push(')');
        i = i + 1;
        proof {
            assert(view[i - 1] == (rows@[i - 1].0@, rows@[i - 1].1@));
            assert(out@ =~= mid + row_values_entry(view[i - 1].0, view[i - 1].1));
            let t = view.take(i as int);
            assert(t.drop_last() =~= view.take(i - 1));
            assert(t.last() == view[i - 1]);
            if i == 1 {
                assert(out@ =~= values_clause_spec(t));
            } else {
                assert(out@ =~= values_clause_spec(t.drop_last()) + seq![',']
                    + row_values_entry(t.last().0, t.last().1));
            }
        }
    }
    proof {
        assert(view.take(rows@.len() as int) =~= view);
    }
    string_of(&out)
}

pub open spec fn digit_char(d: int) -> char {
    ((d + 48) as u8) as char
}

/// The decimal digits of a non-negative number, most significant first,
/// without leading zeros (a lone zero for 0).
pub open spec fn dec_digits(n: int) -> Seq<char>
    decreases n
        when n >= 0
        via dec_digits_decreases
{
    if n < 10 {
        seq![digit_char(n)]
    } else {
        dec_digits(n / 10).push(digit_char(n % 10))
    }
}

#[via_fn]
proof fn dec_digits_decreases(n: int) {
    if n >= 10 {
        assert(n / 10 < n) by (nonlinear_arith)
            requires
                n >= 10,
        ;
    }
}

/// The decimal text of a signed number.
pub open spec fn dec_of_int(v: int) -> Seq<char> {
    if v < 0 {
        seq!['-'] + dec_digits(-v)
    } else {
        dec_digits(v)
    }
}

proof fn lemma_dec_digits_value(n: int)
    requires
        n >= 0,
    ensures
        dec_digits(n).len() > 0,
        forall|i: int| 0 <= i < dec_digits(n).len() ==> is_digit(#[trigger] dec_digits(n)[i]),
        dec_val(dec_digits(n)) == n,
    decreases n,
{
    if n < 10 {
        let t = dec_digits(n);
        assert(t == seq![digit_char(n)]);
        assert(t.len() == 1);
        assert(t.last() == digit_char(n));
        assert(is_digit(digit_char(n)));
        assert(digit_val(digit_char(n)) == n);
        assert(t.drop_last() =~= Seq::<char>::empty());
        assert(dec_val(t.drop_last()) == 0);
        assert(dec_val(t) == dec_val(t.drop_last()) * 10 + digit_val(t.last()));
        assert(dec_val(t) == n);
    } else {
        assert(n / 10 < n && n / 10 >= 0 && 0 <= n % 10 < 10) by (nonlinear_arith)
            requires
                n >= 10,
        ;
        lemma_dec_digits_value(n / 10);
        let t = dec_digits(n);
        assert(t.drop_last() == dec_digits(n / 10));
        assert(t.last() == digit_char(n % 10));
        assert(is_digit(digit_char(n % 10)));
        assert(digit_val(digit_char(n % 10)) == n % 10);
        assert(dec_val(t) == dec_val(t.drop_last()) * 10 + digit_val(t.last()));
        assert(dec_val(t) == (n / 10) * 10 + n % 10);
        assert((n / 10) * 10 + n % 10 == n) by (nonlinear_arith);
        assert(dec_val(t) == n);
        assert forall|i: int| 0 <= i < t.len() implies is_digit(#[trigger] t[i]) by {
            if i < t.len() - 1 {
                assert(t[i] == dec_digits(n / 10)[i]);
            }
        }
    }
}

/// Write the decimal digits of `n` after what `out` already holds.
fn push_decimal_digits(n: u32, out: &mut Vec<char>)
    ensures
        final(out)@ == old(out)@ + dec_digits(n as int),
    decreases n,
{
    if n >= 10 {
        proof {
            assert(n / 10 < n) by (nonlinear_arith)
                requires
                    n >= 10,
            ;
        }
        push_decimal_digits(n / 10, out);
        let d = n % 10;
        out.push(((d as u8) + 48) as char);
        proof {
            assert(((d as u8) + 48) as char == digit_char(n as int % 10));
            assert(final(out)@ =~= old(out)@ + dec_digits(n as int));
        }
    } else {
        out.push(((n as u8) + 48) as char);
        proof {
            assert(((n as u8) + 48) as char == digit_char(n as int));
            assert(dec_digits(n as int) =~= seq![digit_char(n as int)]);
            assert(final(out)@ =~= old(out)@ + dec_digits(n as int));
        }
    }
}

/// Format a category as decimal text; the result parses back to the same
/// value.
pub fn i16_to_decimal(v: i16) -> (r: Vec<char>)
    ensures
        r@ == dec_of_int(v as int),
        parse_i16_spec(r@) == Some(v as int),
{
    let mut out: Vec<char> = Vec::new();
    if v < 0 {
        out.push('-');
        let mag: u32 = (-(v as i32)) as u32;
        push_decimal_digits(mag, &mut out);
        proof {
            lemma_dec_digits_value(mag as int);
            assert(out@ =~= seq!['-'] + dec_digits(mag as int));
            assert(out@[0] == '-');
            assert(out@.drop_first() =~= dec_digits(mag as int));
            assert(all_digits(out@.drop_first()));
            assert(signed_val(true, out@.drop_first()) == Some(v as int));
        }
    } else {
        push_decimal_digits(v as u32, &mut out);
        proof {
            lemma_dec_digits_value(v as int);
            assert(out@ =~= dec_digits(v as int));
            assert(is_digit(out@[0]));
            assert(out@[0] != '-' && out@[0] != '+');
            assert(all_digits(out@));
            assert(signed_val(false, out@) == Some(v as int));
        }
    }
    out
}

/// One row of a token bulk-insert VALUES list: the token as a SQL literal
/// and the category as a plain number.
pub open spec fn token_values_entry(k: Seq<char>, category: int) -> Seq<char> {
    seq!['('] + sql_literal_spec(k) + seq![',', ' '] + dec_of_int(category) + seq![')']
}

/// A token bulk-insert VALUES list: the rows' entries joined with commas.
pub open spec fn token_values_clause_spec(rows: Seq<(Seq<char>, int)>) -> Seq<char>
    decreases rows.len(),
{
    if rows.len() == 0 {
        Seq::empty()
    } else if rows.len() == 1 {
        token_values_entry(rows[0].0, rows[0].1)
    } else {
        token_values_clause_spec(rows.drop_last()) + seq![','] + token_values_entry(
            rows.last().0, rows.last().1)
    }
}

/// Build the VALUES list of a token bulk-insert statement.
pub fn token_rows_values_clause(rows: &Vec<(String, i16)>) -> (r: String)
    ensures
        r@ == token_values_clause_spec(token_rows_view(rows@)),
{
    let ghost view = token_rows_view(rows@);
    let mut out: Vec<char> = Vec::new();
    let mut i: usize = 0;
    while i < rows.len()
        invariant
            i <= rows@.len(),
            view == token_rows_view(rows@),
            out@ == token_values_clause_spec(view.take(i as int)),
        decreases rows@.len() - i,
    {
        if i > 0 {
            out.push(',');
        }
        let ghost mid = out@;
        let key_lit = sql_literal(rows[i].0.as_str());
        let key_cs = chars_vec(key_lit.as_str());
        let num_cs = i16_to_decimal(rows[i].1);
        out.push('(');
        append_chars(&mut out, &key_cs);
        out.push(',');
        out.push(' ');
        append_chars(&mut out, &num_cs);
        out.push(')');
        i = i + 1;
        proof {
            assert(view[i - 1] == (rows@[i - 1].0@, rows@[i - 1].1 as int));
            assert(out@ =~= mid + token_values_entry(view[i - 1].0, view[i - 1].1));
            let t = view.take(i as int);
            assert(t.drop_last() =~= view.take(i - 1));
            assert(t.last() == view[i - 1]);
            if i == 1 {
                assert(out@ =~= token_values_clause_spec(t));
            } else {
                assert(out@ =~= token_values_clause_spec(t.drop_last()) + seq![',']
                    + token_values_entry(t.last().0, t.last().1));
            }
        }
    }
    proof {
        assert(view.take(rows@.len() as int) =~= view);
    }
    string_of(&out)
}

} // verus!
