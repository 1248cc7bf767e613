//! Reading estimates and tracks produced by other tools from CSV text: lines, comments,
//! the header's columns, fields, and integer times. Real-valued fields are handed back as
//! text, in the order they are read.

use vstd::prelude::*;

use crate::ids::{decimal_digits, push_padded_decimal};
use crate::text::{blank, chars_of, is_blank, is_white_space, split_char, split_on, string_views, white_space};

verus! {

/// `line` without a `\r` at its end.
pub open spec fn strip_cr(line: Seq<char>) -> Seq<char> {
    if line.len() > 0 && line.last() == '\r' { line.drop_last() } else { line }
}

/// The lines of `text` (as `str::lines`): split at each `\n`, each line ended by `\n` losing
/// a `\r` before it; a final `\n` starts no further line.
pub open spec fn lines_of(text: Seq<char>) -> Seq<Seq<char>> {
    let pieces = split_char(text, '\n');
    let body = pieces.drop_last().map_values(|l: Seq<char>| strip_cr(l));
    if pieces.last().len() == 0 { body } else { body.push(pieces.last()) }
}

/// The position of the first character of `s` that is not white space.
pub open spec fn first_kept(s: Seq<char>) -> int {
    choose|i: int| 0 <= i < s.len() && !white_space(s[i]) && forall|j: int| 0 <= j < i ==> white_space(#[trigger] s[j])
}

/// The position of the last character of `s` that is not white space.
pub open spec fn last_kept(s: Seq<char>) -> int {
    choose|i: int| 0 <= i < s.len() && !white_space(s[i]) && forall|j: int| i < j < s.len() ==> white_space(#[trigger] s[j])
}

/// `s` without white space at either end (as `str::trim`).
#[verifier::opaque]
pub open spec fn trimmed(s: Seq<char>) -> Seq<char> {
    if blank(s) { Seq::empty() } else { s.subrange(first_kept(s), last_kept(s) + 1) }
}

/// `s` without white space at either end.
pub fn trim(s: &str) -> (t: String)
    ensures
        t@ == trimmed(s@),
{
    let chars = chars_of(s);
    let n = chars.len();
    let mut a: usize = 0;
    while a < n && is_white_space(chars[a])
        invariant
            chars@ == s@,
            n == chars@.len(),
            0 <= a <= n,
            forall|j: int| 0 <= j < a ==> white_space(#[trigger] chars@[j]),
        decreases n - a,
    {
        a = a + 1;
    }
    if a == n {
        proof {
            reveal(trimmed);
            assert(blank(s@));
        }
        return String::new();
    }
    let mut b: usize = n - 1;
    while b > a && is_white_space(chars[b])
        invariant
            chars@ == s@,
            n == chars@.len(),
            a <= b < n,
            !white_space(chars@[a as int]),
            forall|j: int| b < j < n ==> white_space(#[trigger] chars@[j]),
        decreases b,
    {
        b = b - 1;
    }
    proof {
        reveal(trimmed);
        assert(!blank(s@));
        let fa = first_kept(s@);
        let lb = last_kept(s@);
        assert(exists|i: int| 0 <= i < s@.len() && !white_space(s@[i]) && forall|j: int| 0 <= j < i ==> white_space(#[trigger] s@[j])) by {
            assert(forall|j: int| 0 <= j < a ==> white_space(#[trigger] s@[j]));
        }
        assert(exists|i: int| 0 <= i < s@.len() && !white_space(s@[i]) && forall|j: int| i < j < s@.len() ==> white_space(#[trigger] s@[j])) by {
            assert(forall|j: int| b < j < s@.len() ==> white_space(#[trigger] s@[j]));
        }
        if fa < a { assert(white_space(s@[fa])); }
        if fa > a { assert(white_space(s@[a as int])); }
        if lb < b { assert(white_space(s@[b as int])); }
        if lb > b { assert(white_space(s@[lb])); }
    }
    String::from_str(s.substring_char(a, b + 1))
}

fn strip_cr_exec(line: &str) -> (s: String)
    ensures
        s@ == strip_cr(line@),
{
    let chars = chars_of(line);
    let n = chars.len();
    if n > 0 && chars[n - 1] == '\r' {
        String::from_str(line.substring_char(0, n - 1))
    } else {
        String::from_str(line)
    }
}

/// The lines of `text`.
pub fn lines(text: &str) -> (ls: Vec<String>)
    ensures
        string_views(ls@) == lines_of(text@),
{
    let pieces = split_on(text, '\n');
    let ghost pv = string_views(pieces@);
    proof { assert(pv.len() >= 1) by { crate::text::lemma_split_char_nonempty(text@, '\n'); } }
    let count = pieces.len();
    let mut ls: Vec<String> = Vec::new();
    let mut i: usize = 0;
    while i + 1 < count
        invariant
            pv == string_views(pieces@),
            pv == split_char(text@, '\n'),
            count == pieces@.len(),
            count >= 1,
            0 <= i < count,
            string_views(ls@) == pv.take(i as int).map_values(|l: Seq<char>| strip_cr(l)),
        decreases count - i,
    {
        let line = strip_cr_exec(pieces[i].as_str());
        let ghost before = string_views(ls@);
        ls.push(line);
        proof {
            assert(string_views(ls@) =~= before.push(strip_cr(pv[i as int])));
            assert(pv.take(i + 1).map_values(|l: Seq<char>| strip_cr(l))
                =~= pv.take(i as int).map_values(|l: Seq<char>| strip_cr(l)).push(strip_cr(pv[i as int])));
        }
        i = i + 1;
    }
    assert(pv.take(count - 1) =~= pv.drop_last());
    if !pieces[count - 1].as_str().is_empty() {
        let last = String::from_str(pieces[count - 1].as_str());
        let ghost before = string_views(ls@);
        ls.push(last);
        assert(string_views(ls@) =~= before.push(pv.last()));
    } else {
        assert(pv.last().len() == 0);
    }
    ls
}

/// A line that holds data: not blank, and not a `#` comment.
pub open spec fn is_content(line: Seq<char>) -> bool {
    !blank(line) && trimmed(line)[0] != '#'
}

/// The data lines among the first `n` lines, each with its position.
pub open spec fn content_lines(ls: Seq<Seq<char>>, n: int) -> Seq<(int, Seq<char>)>
    decreases n,
{
    if n <= 0 {
        Seq::empty()
    } else {
        let rest = content_lines(ls, n - 1);
        if is_content(ls[n - 1]) { rest.push((n - 1, ls[n - 1])) } else { rest }
    }
}

/// The trimmed fields of a line.
pub open spec fn fields_of(line: Seq<char>) -> Seq<Seq<char>> {
    split_char(line, ',').map_values(|f: Seq<char>| trimmed(f))
}

/// The column a header gives `name`: the last one so named.
pub open spec fn column_of(columns: Seq<Seq<char>>, name: Seq<char>, n: int) -> Option<int>
    decreases n,
{
    if n <= 0 {
        None
    } else if columns[n - 1] == name {
        Some(n - 1)
    } else {
        column_of(columns, name, n - 1)
    }
}

/// The non-empty text of the field under column `name`, if the row has one.
pub open spec fn field_text(columns: Seq<Seq<char>>, fields: Seq<Seq<char>>, name: Seq<char>) -> Option<Seq<char>> {
    match column_of(columns, name, columns.len() as int) {
        Some(k) => if k < fields.len() && fields[k].len() > 0 { Some(fields[k]) } else { None },
        None => None,
    }
}

/// One data row: its line number (counting from one) and its trimmed fields.
#[derive(Debug, Clone)]
pub struct CsvRow {
    pub line: usize,
    pub fields: Vec<String>,
}

/// A CSV table: the trimmed column names of its header and its data rows.
#[derive(Debug, Clone)]
pub struct CsvTable {
    pub columns: Vec<String>,
    pub rows: Vec<CsvRow>,
}

/// The table `text` holds: its first data line is the header, the others are rows; `None`
/// when it has no data line.
pub open spec fn table_of(text: Seq<char>) -> Option<(Seq<Seq<char>>, Seq<(int, Seq<Seq<char>>)>)> {
    let ls = lines_of(text);
    let content = content_lines(ls, ls.len() as int);
    if content.len() == 0 {
        None
    } else {
        Some((
            fields_of(content[0].1),
            content.drop_first().map_values(|c: (int, Seq<char>)| (c.0 + 1, fields_of(c.1))),
        ))
    }
}

fn trimmed_fields(line: &str) -> (fields: Vec<String>)
    ensures
        string_views(fields@) == fields_of(line@),
{
    let parts = split_on(line, ',');
    let ghost pv = string_views(parts@);
    let mut fields: Vec<String> = Vec::new();
    let mut i: usize = 0;
    while i < parts.len()
        invariant
            pv == string_views(parts@),
            pv == split_char(line@, ','),
            0 <= i <= parts@.len(),
            string_views(fields@) == pv.take(i as int).map_values(|f: Seq<char>| trimmed(f)),
        decreases parts@.len() - i,
    {
        let f = trim(parts[i].as_str());
        let ghost before = string_views(fields@);
        fields.push(f);
        proof {
            assert(string_views(fields@) =~= before.push(trimmed(pv[i as int])));
            assert(pv.take(i + 1).map_values(|f: Seq<char>| trimmed(f))
                =~= pv.take(i as int).map_values(|f: Seq<char>| trimmed(f)).push(trimmed(pv[i as int])));
        }
        i = i + 1;
    }
    assert(pv.take(parts@.len() as int) =~= pv);
    fields
}

fn is_content_exec(line: &str) -> (b: bool)
    ensures
        b == is_content(line@),
{
    if is_blank(line) {
        return false;
    }
    let t = trim(line);
    let chars = chars_of(t.as_str());
    proof {
        assert(!blank(line@));
        let fk = first_kept(line@);
        assert(exists|i: int| 0 <= i < line@.len() && !white_space(line@[i]) && forall|j: int| 0 <= j < i ==> white_space(#[trigger] line@[j])) by {
            let w = choose|i: int| 0 <= i < line@.len() && !white_space(line@[i]);
            lemma_first_non_white(line@, w);
        }
        let w = choose|i: int| 0 <= i < line@.len() && !white_space(line@[i]);
        lemma_last_non_white(line@, w);
        let lk = last_kept(line@);
        if lk < fk {
            assert(white_space(line@[lk]));
        }
        reveal(trimmed);
        assert(t@.len() > 0);
    }
    chars[0] != '#'
}

proof fn lemma_last_non_white(s: Seq<char>, w: int)
    requires
        0 <= w < s.len(),
        !white_space(s[w]),
    ensures
        exists|i: int| 0 <= i < s.len() && !white_space(s[i]) && forall|j: int| i < j < s.len() ==> white_space(#[trigger] s[j]),
    decreases s.len() - w,
{
    if exists|k: int| w < k < s.len() && !white_space(s[k]) {
        let k = choose|k: int| w < k < s.len() && !white_space(s[k]);
        lemma_last_non_white(s, k);
    } else {
        assert(forall|j: int| w < j < s.len() ==> white_space(#[trigger] s[j]));
    }
}

proof fn lemma_first_non_white(s: Seq<char>, w: int)
    requires
        0 <= w < s.len(),
        !white_space(s[w]),
    ensures
        exists|i: int| 0 <= i < s.len() && !white_space(s[i]) && forall|j: int| 0 <= j < i ==> white_space(#[trigger] s[j]),
    decreases w,
{
    if exists|k: int| 0 <= k < w && !white_space(s[k]) {
        let k = choose|k: int| 0 <= k < w && !white_space(s[k]);
        lemma_first_non_white(s, k);
    } else {
        assert(forall|j: int| 0 <= j < w ==> white_space(#[trigger] s[j]));
    }
}

/// The line number and fields of each row.
pub open spec fn row_views(rows: Seq<CsvRow>) -> Seq<(int, Seq<Seq<char>>)> {
    rows.map_values(|r: CsvRow| (r.line as int, string_views(r.fields@)))
}

/// Splits CSV text into its header columns and data rows, skipping blank lines and `#`
/// comments; fails when there is no data line.
pub fn read_rows(text: &str) -> (r: Result<CsvTable, String>)
    ensures
        r is Err <==> table_of(text@) is None,
        r matches Err(e) ==> e@ == "CSV is empty"@,
        r matches Ok(t) ==> table_of(text@) == Some((string_views(t.columns@), row_views(t.rows@))),
{
    let ls = lines(text);
    let ghost lv = string_views(ls@);
    let mut content: Vec<CsvRow> = Vec::new();
    let mut header: Option<Vec<String>> = None;
    let ghost mut kept: Seq<(int, Seq<char>)> = Seq::empty();
    let mut i: usize = 0;
    while i < ls.len()
        invariant
            lv == string_views(ls@),
            lv == lines_of(text@),
            0 <= i <= ls@.len(),
            kept == content_lines(lv, i as int),
            header is None <==> kept.len() == 0,
            header is None ==> content@.len() == 0,
            header matches Some(h) ==> string_views(h@) == fields_of(kept[0].1),
            kept.len() > 0 ==> row_views(content@) == kept.drop_first().map_values(|c: (int, Seq<char>)| (c.0 + 1, fields_of(c.1))),
            forall|k: int| 0 <= k < kept.len() ==> 0 <= #[trigger] kept[k].0 < i,
        decreases ls@.len() - i,
    {
        let line = ls[i].as_str();
        let is_data = is_content_exec(line);
        proof {
            assert(lv[i as int] == line@);
        }
        if is_data {
            let fields = trimmed_fields(line);
            let ghost before_rows = row_views(content@);
            let ghost before_kept = kept;
            proof { kept = kept.push((i as int, line@)); }
            if header.is_none() {
                header = Some(fields);
                proof {
                    assert(kept.len() == 1);
                    assert(kept.drop_first() =~= Seq::<(int, Seq<char>)>::empty());
                    assert(row_views(content@) =~= kept.drop_first().map_values(|c: (int, Seq<char>)| (c.0 + 1, fields_of(c.1))));
                }
            } else {
                content.push(CsvRow { line: i + 1, fields });
                proof {
                    assert(kept.drop_first() =~= before_kept.drop_first().push((i as int, line@)));
                    assert(row_views(content@) =~= before_rows.push(((i + 1) as int, fields_of(line@))));
                    assert(kept[0] == before_kept[0]);
                }
            }
        }
        i = i + 1;
    }
    match header {
        None => {
            proof { reveal_strlit("CSV is empty"); }
            Err(String::from_str("CSV is empty"))
        },
        Some(columns) => Ok(CsvTable { columns, rows: content }),
    }
}

/// The column that `name` denotes in `columns`: the last one so named.
pub fn column_index(columns: &Vec<String>, name: &str) -> (r: Option<usize>)
    ensures
        r matches Some(k) ==> column_of(string_views(columns@), name@, columns@.len() as int) == Some(k as int),
        r is None ==> column_of(string_views(columns@), name@, columns@.len() as int) is None,
{
    let ghost cv = string_views(columns@);
    let wanted = String::from_str(name);
    let mut n: usize = columns.len();
    while n > 0
        invariant
            cv == string_views(columns@),
            wanted@ == name@,
            0 <= n <= columns@.len(),
            column_of(cv, name@, columns@.len() as int) == column_of(cv, name@, n as int),
        decreases n,
    {
        assert(cv[n - 1] == columns@[n - 1]@);
        if columns[n - 1] == wanted {
            return Some(n - 1);
        }
        n = n - 1;
    }
    None
}

/// The non-empty text of the field under column `name` in `fields`, if any.
pub fn field(columns: &Vec<String>, fields: &Vec<String>, name: &str) -> (r: Option<String>)
    ensures
        r matches Some(t) ==> field_text(string_views(columns@), string_views(fields@), name@) == Some(t@),
        r is None ==> field_text(string_views(columns@), string_views(fields@), name@) is None,
{
    match column_index(columns, name) {
        Some(k) => {
            if k < fields.len() && !fields[k].as_str().is_empty() {
                assert(string_views(fields@)[k as int] == fields@[k as int]@);
                Some(String::from_str(fields[k].as_str()))
            } else {
                proof {
                    if k < fields.len() {
                        assert(string_views(fields@)[k as int] == fields@[k as int]@);
                    }
                }
                None
            }
        },
        None => None,
    }
}

/// An ASCII decimal digit.
pub open spec fn is_digit(c: char) -> bool {
    '0' <= c && c <= '9'
}

/// The value of a string of decimal digits.
pub open spec fn digits_value(s: Seq<char>) -> nat
    decreases s.len(),
{
    if s.len() == 0 {
        0
    } else {
        digits_value(s.drop_last()) * 10 + (s.last() as nat - '0' as nat) as nat
    }
}

/// Every character is a decimal digit.
pub open spec fn all_digits(s: Seq<char>) -> bool {
    forall|i: int| 0 <= i < s.len() ==> is_digit(#[trigger] s[i])
}

/// `s` without a leading sign.
pub open spec fn unsigned_part(s: Seq<char>) -> Seq<char> {
    if s.len() > 0 && (s[0] == '-' || s[0] == '+') { s.drop_first() } else { s }
}

/// The `i64` a text denotes (the grammar `i64::from_str` documents): an optional `+` or `-`,
/// then one or more ASCII digits, with a value in range.
pub open spec fn decimal_i64(s: Seq<char>) -> Option<i64> {
    let negative = s.len() > 0 && s[0] == '-';
    let body = unsigned_part(s);
    if body.len() == 0 || !all_digits(body) {
        None
    } else {
        let v: int = if negative { -(digits_value(body) as int) } else { digits_value(body) as int };
        if i64::MIN <= v && v <= i64::MAX { Some(v as i64) } else { None }
    }
}

proof fn lemma_digits_value_grows(s: Seq<char>, k: int)
    requires
        0 <= k <= s.len(),
        all_digits(s),
    ensures
        digits_value(s.take(k)) <= digits_value(s),
    decreases s.len() - k,
{
    if k < s.len() {
        lemma_digits_value_grows(s, k + 1);
        assert(s.take(k + 1).drop_last() =~= s.take(k));
    } else {
        assert(s.take(k) =~= s);
    }
}

/// Parses a decimal `i64`.
pub fn parse_i64(text: &str) -> (r: Option<i64>)
    ensures
        r == decimal_i64(text@),
{
    let chars = chars_of(text);
    let n = chars.len();
    let negative = n > 0 && chars[0] == '-';
    let start: usize = if n > 0 && (chars[0] == '-' || chars[0] == '+') { 1 } else { 0 };
    let ghost body = if n > 0 && (chars@[0] == '-' || chars@[0] == '+') { chars@.drop_first() } else { chars@ };
    assert(body =~= chars@.subrange(start as int, n as int));
    if start == n {
        return None;
    }
    let bound: i128 = 9223372036854775808;
    let mut value: i128 = 0;
    let mut i: usize = start;
    while i < n
        invariant
            chars@ == text@,
            n == chars@.len(),
            start <= i <= n,
            body == chars@.subrange(start as int, n as int),
            body == unsigned_part(text@),
            body.len() > 0,
            bound == 9223372036854775808i128,
            negative == (text@.len() > 0 && text@[0] == '-'),
            0 <= value <= bound,
            value == digits_value(body.take(i - start)),
            forall|j: int| 0 <= j < i - start ==> is_digit(#[trigger] body[j]),
        decreases n - i,
    {
        let c = chars[i];
        assert(body[i - start] == c);
        if !('0' <= c && c <= '9') {
            assert(!is_digit(body[i - start]));
            assert(!all_digits(body));
            return None;
        }
        proof {
            assert(body.take(i - start + 1).drop_last() =~= body.take(i - start));
            assert(body.take(i - start + 1).last() == c);
        }
        let digit: i128 = (c as u32 - '0' as u32) as i128;
        assert(0 <= digit <= 9);
        assert(value * 10 + digit <= 92233720368547758089) by (nonlinear_arith)
            requires 0 <= value <= 9223372036854775808i128, 0 <= digit <= 9;
        value = value * 10 + digit;
        if value > bound {
            proof {
                let k = i - start + 1;
                if all_digits(body) {
                    lemma_digits_value_grows(body, k);
                }
            }
            return None;
        }
        i = i + 1;
    }
    assert(body.take(n - start) =~= body);
    if negative {
        Some((0 - value) as i64)
    } else if value == bound {
        None
    } else {
        Some(value as i64)
    }
}

/// The text of an optional field.
pub open spec fn text_view(t: Option<String>) -> Option<Seq<char>> {
    match t {
        Some(s) => Some(s@),
        None => None,
    }
}

/// The first of `names` that has no column, if any.
pub open spec fn missing_column(columns: Seq<Seq<char>>, names: Seq<Seq<char>>) -> Option<Seq<char>>
    decreases names.len(),
{
    if names.len() == 0 {
        None
    } else if column_of(columns, names[0], columns.len() as int) is None {
        Some(names[0])
    } else {
        missing_column(columns, names.drop_first())
    }
}

/// The estimate and availability times of a row, or why they cannot be read. A missing or
/// invalid estimate time is reported with the line (`with_line`) or by the field's name.
pub open spec fn row_times(columns: Seq<Seq<char>>, fields: Seq<Seq<char>>, line: int, with_line: bool) -> Result<(i64, i64), Seq<char>> {
    let time_error = if with_line { "line "@ + decimal_digits(line as nat) } else { "missing estimate_time_ns"@ };
    match field_text(columns, fields, "estimate_time_ns"@) {
        None => Err(time_error),
        Some(t) => match decimal_i64(t) {
            None => Err(if with_line { time_error } else { "invalid estimate_time_ns"@ }),
            Some(v) => match field_text(columns, fields, "available_time_ns"@) {
                None => Ok((v, v)),
                Some(a) => match decimal_i64(a) {
                    None => Err("invalid available_time_ns"@),
                    Some(av) => Ok((v, av)),
                },
            },
        },
    }
}

fn read_row_times(columns: &Vec<String>, row: &CsvRow, with_line: bool) -> (r: Result<(i64, i64), String>)
    requires
        row.line <= u64::MAX,
    ensures
        match row_times(string_views(columns@), string_views(row.fields@), row.line as int, with_line) {
            Ok(t) => r == Ok::<(i64, i64), String>(t),
            Err(e) => r matches Err(x) && x@ == e,
        },
{
    proof {
        reveal_strlit("estimate_time_ns");
        reveal_strlit("available_time_ns");
        reveal_strlit("line ");
        reveal_strlit("missing estimate_time_ns");
        reveal_strlit("invalid estimate_time_ns");
        reveal_strlit("invalid available_time_ns");
    }
    let time_error = || -> (e: String)
        ensures
            e@ == if with_line { "line "@ + decimal_digits(row.line as nat) } else { "missing estimate_time_ns"@ },
    {
        if with_line {
            let mut e = String::from_str("line ");
            push_padded_decimal(&mut e, row.line as u64, 0);
            e
        } else {
            String::from_str("missing estimate_time_ns")
        }
    };
    let t = match field(columns, &row.fields, "estimate_time_ns") {
        None => return Err(time_error()),
        Some(t) => t,
    };
    let v = match parse_i64(t.as_str()) {
        None => {
            if with_line {
                return Err(time_error());
            } else {
                return Err(String::from_str("invalid estimate_time_ns"));
            }
        },
        Some(v) => v,
    };
    match field(columns, &row.fields, "available_time_ns") {
        None => Ok((v, v)),
        Some(a) => match parse_i64(a.as_str()) {
            None => Err(String::from_str("invalid available_time_ns")),
            Some(av) => Ok((v, av)),
        },
    }
}

fn first_missing(columns: &Vec<String>, names: &Vec<&str>) -> (r: Option<String>)
    ensures
        text_view(r) == missing_column(string_views(columns@), names@.map_values(|n: &str| n@)),
{
    let ghost nv = names@.map_values(|n: &str| n@);
    let mut i: usize = 0;
    assert(nv.skip(0) =~= nv);
    while i < names.len()
        invariant
            nv == names@.map_values(|n: &str| n@),
            0 <= i <= names@.len(),
            missing_column(string_views(columns@), nv) == missing_column(string_views(columns@), nv.skip(i as int)),
        decreases names@.len() - i,
    {
        proof {
            assert(nv.skip(i as int)[0] == names@[i as int]@);
            assert(nv.skip(i as int).drop_first() =~= nv.skip(i + 1));
        }
        if column_index(columns, names[i]).is_none() {
            return Some(String::from_str(names[i]));
        }
        i = i + 1;
    }
    assert(nv.skip(i as int).len() == 0);
    None
}

/// One row of an ego-estimate CSV: its line, its times, and the text of its real-valued
/// fields, when present.
#[derive(Debug, Clone)]
pub struct EgoCsvRow {
    pub line: usize,
    pub estimate_time_ns: i64,
    pub available_time_ns: i64,
    pub x_m: Option<String>,
    pub y_m: Option<String>,
    pub yaw_rad: Option<String>,
    pub vx_mps: Option<String>,
    pub vy_mps: Option<String>,
    pub gyro_bias_z_radps: Option<String>,
    pub accel_bias_x_mps2: Option<String>,
}

/// The columns an ego-estimate CSV must have.
pub open spec fn ego_required() -> Seq<Seq<char>> {
    seq!["estimate_time_ns"@, "x_m"@, "y_m"@, "yaw_rad"@]
}

/// `row` is what an ego-estimate CSV row with `fields` on `line` reads as.
pub open spec fn ego_row_read(columns: Seq<Seq<char>>, line: int, fields: Seq<Seq<char>>, row: Result<EgoCsvRow, String>) -> bool {
    match row_times(columns, fields, line, true) {
        Err(e) => row matches Err(x) && x@ == e,
        Ok((t, a)) => row matches Ok(r) && {
            &&& r.line == line
            &&& r.estimate_time_ns == t
            &&& r.available_time_ns == a
            &&& text_view(r.x_m) == field_text(columns, fields, "x_m"@)
            &&& text_view(r.y_m) == field_text(columns, fields, "y_m"@)
            &&& text_view(r.yaw_rad) == field_text(columns, fields, "yaw_rad"@)
            &&& text_view(r.vx_mps) == field_text(columns, fields, "vx_mps"@)
            &&& text_view(r.vy_mps) == field_text(columns, fields, "vy_mps"@)
            &&& text_view(r.gyro_bias_z_radps) == field_text(columns, fields, "gyro_bias_z_radps"@)
            &&& text_view(r.accel_bias_x_mps2) == field_text(columns, fields, "accel_bias_x_mps2"@)
        },
    }
}

/// Reads an ego-estimate CSV: the header must name the estimate time, `x_m`, `y_m` and
/// `yaw_rad`, and at least one data row must follow; each data row is read in turn, or its
/// first problem reported. The real-valued
/// fields are returned as text for the caller to parse in row order.
pub fn read_ego_csv(text: &str) -> (r: Result<Vec<Result<EgoCsvRow, String>>, String>)
    ensures
        table_of(text@) is None ==> (r matches Err(e) && e@ == "CSV is empty"@),
        table_of(text@) matches Some((columns, rows)) ==> match missing_column(columns, ego_required()) {
            Some(name) => r matches Err(e) && e@ == "ego CSV is missing "@ + name,
            None => if rows.len() == 0 {
                r matches Err(e) && e@ == "ego CSV contains no rows"@
            } else {
                r matches Ok(read) && read@.len() == rows.len() && forall|k: int| 0 <= k < rows.len()
                    ==> ego_row_read(columns, rows[k].0, rows[k].1, #[trigger] read@[k])
            },
        },
{
    let table = read_rows(text)?;
    let ghost columns = string_views(table.columns@);
    let ghost rows = row_views(table.rows@);
    let required = vec!["estimate_time_ns", "x_m", "y_m", "yaw_rad"];
    proof {
        reveal_strlit("estimate_time_ns");
        reveal_strlit("x_m");
        reveal_strlit("y_m");
        reveal_strlit("yaw_rad");
        assert(required@.map_values(|n: &str| n@) =~= ego_required());
    }
    if let Some(name) = first_missing(&table.columns, &required) {
        let mut e = String::from_str("ego CSV is missing ");
        e.append(name.as_str());
        proof { reveal_strlit("ego CSV is missing "); }
        return Err(e);
    }
    if table.rows.len() == 0 {
        proof { reveal_strlit("ego CSV contains no rows"); }
        return Err(String::from_str("ego CSV contains no rows"));
    }
    let mut read: Vec<Result<EgoCsvRow, String>> = Vec::new();
    let mut k: usize = 0;
    while k < table.rows.len()
        invariant
            columns == string_views(table.columns@),
            rows == row_views(table.rows@),
            0 <= k <= table.rows@.len(),
            read@.len() == k,
            forall|j: int| 0 <= j < k ==> ego_row_read(columns, rows[j].0, rows[j].1, #[trigger] read@[j]),
            forall|j: int| 0 <= j < table.rows@.len() ==> (#[trigger] table.rows@[j]).line <= u64::MAX,
        decreases table.rows@.len() - k,
    {
        let row = &table.rows[k];
        assert(rows[k as int] == (row.line as int, string_views(row.fields@)));
        let result = match read_row_times(&table.columns, row, true) {
            Err(e) => Err(e),
            Ok((t, a)) => Ok(EgoCsvRow {
                line: row.line,
                estimate_time_ns: t,
                available_time_ns: a,
                x_m: field(&table.columns, &row.fields, "x_m"),
                y_m: field(&table.columns, &row.fields, "y_m"),
                yaw_rad: field(&table.columns, &row.fields, "yaw_rad"),
                vx_mps: field(&table.columns, &row.fields, "vx_mps"),
                vy_mps: field(&table.columns, &row.fields, "vy_mps"),
                gyro_bias_z_radps: field(&table.columns, &row.fields, "gyro_bias_z_radps"),
                accel_bias_x_mps2: field(&table.columns, &row.fields, "accel_bias_x_mps2"),
            }),
        };
        read.push(result);
        k = k + 1;
    }
    Ok(read)
}

/// One row of a track CSV: its line, its times, the text of its real-valued fields and its
/// track identifier, when present.
#[derive(Debug, Clone)]
pub struct TrackCsvRow {
    pub line: usize,
    pub estimate_time_ns: i64,
    pub available_time_ns: i64,
    pub x_m: Option<String>,
    pub y_m: Option<String>,
    pub vx_mps: Option<String>,
    pub vy_mps: Option<String>,
    pub track_id: Option<String>,
}

/// The columns a track CSV must have.
pub open spec fn track_required() -> Seq<Seq<char>> {
    seq!["estimate_time_ns"@, "track_id"@, "x_m"@, "y_m"@, "vx_mps"@, "vy_mps"@]
}

/// `row` is what a track CSV row with `fields` on `line` reads as.
pub open spec fn track_row_read(columns: Seq<Seq<char>>, line: int, fields: Seq<Seq<char>>, row: Result<TrackCsvRow, String>) -> bool {
    match row_times(columns, fields, line, false) {
        Err(e) => row matches Err(x) && x@ == e,
        Ok((t, a)) => row matches Ok(r) && {
            &&& r.line == line
            &&& r.estimate_time_ns == t
            &&& r.available_time_ns == a
            &&& text_view(r.x_m) == field_text(columns, fields, "x_m"@)
            &&& text_view(r.y_m) == field_text(columns, fields, "y_m"@)
            &&& text_view(r.vx_mps) == field_text(columns, fields, "vx_mps"@)
            &&& text_view(r.vy_mps) == field_text(columns, fields, "vy_mps"@)
            &&& text_view(r.track_id) == field_text(columns, fields, "track_id"@)
        },
    }
}

/// Reads a track CSV: the header must name the estimate time, `track_id`, `x_m`, `y_m`,
/// `vx_mps` and `vy_mps`, and at least one data row must follow; each data row is read in
/// turn, or its first problem reported. The
/// real-valued fields are returned as text for the caller to parse in row order.
pub fn read_tracks_csv(text: &str) -> (r: Result<Vec<Result<TrackCsvRow, String>>, String>)
    ensures
        table_of(text@) is None ==> (r matches Err(e) && e@ == "CSV is empty"@),
        table_of(text@) matches Some((columns, rows)) ==> match missing_column(columns, track_required()) {
            Some(name) => r matches Err(e) && e@ == "track CSV is missing "@ + name,
            None => if rows.len() == 0 {
                r matches Err(e) && e@ == "track CSV contains no rows"@
            } else {
                r matches Ok(read) && read@.len() == rows.len() && forall|k: int| 0 <= k < rows.len()
                    ==> track_row_read(columns, rows[k].0, rows[k].1, #[trigger] read@[k])
            },
        },
{
    let table = read_rows(text)?;
    let ghost columns = string_views(table.columns@);
    let ghost rows = row_views(table.rows@);
    let required = vec!["estimate_time_ns", "track_id", "x_m", "y_m", "vx_mps", "vy_mps"];
    proof {
        reveal_strlit("estimate_time_ns");
        reveal_strlit("track_id");
        reveal_strlit("x_m");
        reveal_strlit("y_m");
        reveal_strlit("vx_mps");
        reveal_strlit("vy_mps");
        assert(required@.map_values(|n: &str| n@) =~= track_required());
    }
    if let Some(name) = first_missing(&table.columns, &required) {
        let mut e = String::from_str("track CSV is missing ");
        e.append(name.as_str());
        proof { reveal_strlit("track CSV is missing "); }
        return Err(e);
    }
    if table.rows.len() == 0 {
        proof { reveal_strlit("track CSV contains no rows"); }
        return Err(String::from_str("track CSV contains no rows"));
    }
    let mut read: Vec<Result<TrackCsvRow, String>> = Vec::new();
    let mut k: usize = 0;
    while k < table.rows.len()
        invariant
            columns == string_views(table.columns@),
            rows == row_views(table.rows@),
            0 <= k <= table.rows@.len(),
            read@.len() == k,
            forall|j: int| 0 <= j < k ==> track_row_read(columns, rows[j].0, rows[j].1, #[trigger] read@[j]),
        decreases table.rows@.len() - k,
    {
        let row = &table.rows[k];
        assert(rows[k as int] == (row.line as int, string_views(row.fields@)));
        let result = match read_row_times(&table.columns, row, false) {
            Err(e) => Err(e),
            Ok((t, a)) => Ok(TrackCsvRow {
                line: row.line,
                estimate_time_ns: t,
                available_time_ns: a,
                x_m: field(&table.columns, &row.fields, "x_m"),
                y_m: field(&table.columns, &row.fields, "y_m"),
                vx_mps: field(&table.columns, &row.fields, "vx_mps"),
                vy_mps: field(&table.columns, &row.fields, "vy_mps"),
                track_id: field(&table.columns, &row.fields, "track_id"),
            }),
        };
        read.push(result);
        k = k + 1;
    }
    Ok(read)
}

/// Each time is later than the one before.
pub open spec fn strictly_increasing(times: Seq<i64>) -> bool {
    forall|i: int, j: int| 0 <= i < j < times.len() ==> #[trigger] times[i] < #[trigger] times[j]
}

/// No time is earlier than the one before.
pub open spec fn never_decreasing(times: Seq<i64>) -> bool {
    forall|i: int, j: int| 0 <= i < j < times.len() ==> #[trigger] times[i] <= #[trigger] times[j]
}

/// The estimate times read from an ego CSV must be present and strictly increase.
pub fn check_ego_times(times: &Vec<i64>) -> (r: Result<(), String>)
    ensures
        times@.len() == 0 ==> (r matches Err(e) && e@ == "ego CSV contains no rows"@),
        times@.len() > 0 ==> (r is Ok <==> strictly_increasing(times@)),
        times@.len() > 0 && r is Err ==> (r matches Err(e) && e@ == "ego CSV times must increase"@),
{
    if times.len() == 0 {
        proof { reveal_strlit("ego CSV contains no rows"); }
        return Err(String::from_str("ego CSV contains no rows"));
    }
    let mut i: usize = 1;
    while i < times.len()
        invariant
            1 <= i <= times@.len(),
            strictly_increasing(times@.take(i as int)),
            forall|j: int| 0 <= j < i - 1 ==> #[trigger] times@[j] < times@[i - 1],
        decreases times@.len() - i,
    {
        if times[i - 1] >= times[i] {
            proof { reveal_strlit("ego CSV times must increase"); }
            assert(!(times@[i - 1] < times@[i as int]));
            return Err(String::from_str("ego CSV times must increase"));
        }
        proof {
            let t = times@.take(i + 1);
            assert forall|a: int, b: int| 0 <= a < b < t.len() implies #[trigger] t[a] < #[trigger] t[b] by {
                if b < i {
                    assert(times@.take(i as int)[a] == t[a] && times@.take(i as int)[b] == t[b]);
                } else if a < i - 1 {
                    assert(times@[a] < times@[i - 1]);
                }
            }
        }
        i = i + 1;
    }
    assert(times@.take(times@.len() as int) =~= times@);
    Ok(())
}

/// The estimate times read from a track CSV must be present and never go backward.
pub fn check_track_times(times: &Vec<i64>) -> (r: Result<(), String>)
    ensures
        times@.len() == 0 ==> (r matches Err(e) && e@ == "track CSV contains no rows"@),
        times@.len() > 0 ==> (r is Ok <==> never_decreasing(times@)),
        times@.len() > 0 && r is Err ==> (r matches Err(e) && e@ == "track CSV times must not go backward"@),
{
    if times.len() == 0 {
        proof { reveal_strlit("track CSV contains no rows"); }
        return Err(String::from_str("track CSV contains no rows"));
    }
    let mut i: usize = 1;
    while i < times.len()
        invariant
            1 <= i <= times@.len(),
            never_decreasing(times@.take(i as int)),
            forall|j: int| 0 <= j < i ==> #[trigger] times@[j] <= times@[i - 1],
        decreases times@.len() - i,
    {
        if times[i - 1] > times[i] {
            proof { reveal_strlit("track CSV times must not go backward"); }
            assert(!(times@[i - 1] <= times@[i as int]));
            return Err(String::from_str("track CSV times must not go backward"));
        }
        proof {
            let t = times@.take(i + 1);
            assert forall|a: int, b: int| 0 <= a < b < t.len() implies #[trigger] t[a] <= #[trigger] t[b] by {
                if b < i {
                    assert(times@.take(i as int)[a] == t[a] && times@.take(i as int)[b] == t[b]);
                }
            }
        }
        i = i + 1;
    }
    assert(times@.take(times@.len() as int) =~= times@);
    Ok(())
}

/// The first problem among the first `n` rows of a CSV: a row whose times could not be read,
/// or, for a row that was read, the problem `row_problems` gives it.
pub open spec fn first_problem<R>(rows: Seq<Result<R, String>>, row_problems: Seq<Option<Seq<char>>>, n: int) -> Option<Seq<char>>
    decreases n,
{
    if n <= 0 {
        None
    } else {
        match first_problem(rows, row_problems, n - 1) {
            Some(e) => Some(e),
            None => match rows[n - 1] {
                Err(e) => Some(e@),
                Ok(_) => row_problems[n - 1],
            },
        }
    }
}

/// Once a problem is found among the first rows, it stays the first problem.
proof fn lemma_first_problem_stays<R>(rows: Seq<Result<R, String>>, row_problems: Seq<Option<Seq<char>>>, k: int, n: int)
    requires
        0 <= k <= n,
        first_problem(rows, row_problems, k) is Some,
    ensures
        first_problem(rows, row_problems, n) == first_problem(rows, row_problems, k),
    decreases n - k,
{
    if n > k {
        lemma_first_problem_stays(rows, row_problems, k, n - 1);
    }
}

/// The text of each problem.
pub open spec fn problem_texts(problems: Seq<Option<String>>) -> Seq<Option<Seq<char>>> {
    problems.map_values(|p: Option<String>| text_view(p))
}

/// The estimate times of ego rows (zero for a row that was not read).
pub open spec fn ego_times(rows: Seq<Result<EgoCsvRow, String>>) -> Seq<i64> {
    rows.map_values(|r: Result<EgoCsvRow, String>| match r {
        Ok(row) => row.estimate_time_ns,
        Err(_) => 0i64,
    })
}

/// Finishes reading an ego-estimate CSV. Given the rows as `read_ego_csv` read them and, for
/// each row, the first problem the caller found with its real-valued fields (read after the
/// times, in the row's order: unparsable or not finite), the result is the first failing
/// row's problem; else, when there are no rows, that the CSV has none; else, when the
/// estimate times do not increase, that; else the rows.
#[verifier::loop_isolation(false)]
pub fn finish_ego_rows(rows: Vec<Result<EgoCsvRow, String>>, problems: &Vec<Option<String>>) -> (r: Result<Vec<EgoCsvRow>, String>)
    requires
        rows@.len() == problems@.len(),
    ensures
        match first_problem(rows@, problem_texts(problems@), rows@.len() as int) {
            Some(e) => r matches Err(x) && x@ == e,
            None => if rows@.len() == 0 {
                r matches Err(x) && x@ == "ego CSV contains no rows"@
            } else if !strictly_increasing(ego_times(rows@)) {
                r matches Err(x) && x@ == "ego CSV times must increase"@
            } else {
                r matches Ok(v) && v@.len() == rows@.len() && forall|k: int|
                    0 <= k < rows@.len() ==> rows@[k] == Ok::<EgoCsvRow, String>(#[trigger] v@[k])
            },
        },
{
    let ghost all = rows@;
    let ghost texts = problem_texts(problems@);
    let mut rows = rows;
    let n = rows.len();
    let mut out: Vec<EgoCsvRow> = Vec::new();
    let mut times: Vec<i64> = Vec::new();
    let mut k: usize = 0;
    assert(all.skip(0) =~= all);
    while k < n
        invariant
            n == all.len(),
            all.len() == problems@.len(),
            texts == problem_texts(problems@),
            0 <= k <= n,
            rows@ == all.skip(k as int),
            first_problem(all, texts, k as int) is None,
            out@.len() == k,
            times@.len() == k,
            forall|j: int| 0 <= j < k ==> all[j] == Ok::<EgoCsvRow, String>(#[trigger] out@[j]),
            forall|j: int| 0 <= j < k ==> #[trigger] times@[j] == ego_times(all)[j],
        decreases n - k,
    {
        let row = rows.remove(0);
        assert(all.skip(k as int)[0] == all[k as int]);
        assert(rows@ =~= all.skip(k + 1));
        assert(row == all[k as int]);
        match row {
            Err(e) => {
                assert(first_problem(all, texts, k + 1) == Some(e@));
                proof { lemma_first_problem_stays(all, texts, k + 1, n as int); }
                return Err(e);
            },
            Ok(r) => {
                assert(texts[k as int] == text_view(problems@[k as int]));
                match &problems[k] {
                    Some(p) => {
                        assert(texts[k as int] == Some(p@));
                        assert(first_problem(all, texts, k + 1) == Some(p@));
                        proof { lemma_first_problem_stays(all, texts, k + 1, n as int); }
                        return Err(String::from_str(p.as_str()));
                    },
                    None => {},
                }
                times.push(r.estimate_time_ns);
                out.push(r);
            },
        }
        k = k + 1;
    }
    if n == 0 {
        proof { reveal_strlit("ego CSV contains no rows"); }
        return Err(String::from_str("ego CSV contains no rows"));
    }
    assert(times@ =~= ego_times(all));
    match check_ego_times(&times) {
        Err(e) => Err(e),
        Ok(()) => Ok(out),
    }
}

/// The problem of each track row that was read: the caller's problem with its real-valued
/// fields, else a missing track identifier.
pub open spec fn track_problems(rows: Seq<Result<TrackCsvRow, String>>, problems: Seq<Option<String>>) -> Seq<Option<Seq<char>>> {
    Seq::new(rows.len(), |k: int| match text_view(problems[k]) {
        Some(e) => Some(e),
        None => match rows[k] {
            Ok(row) => if row.track_id is None { Some("missing track_id"@) } else { None },
            Err(_) => None,
        },
    })
}

/// The estimate times of track rows (zero for a row that was not read).
pub open spec fn track_times(rows: Seq<Result<TrackCsvRow, String>>) -> Seq<i64> {
    rows.map_values(|r: Result<TrackCsvRow, String>| match r {
        Ok(row) => row.estimate_time_ns,
        Err(_) => 0i64,
    })
}

/// Finishes reading a track CSV. Given the rows as `read_tracks_csv` read them and, for each
/// row, the first problem the caller found with its real-valued fields (read after the times,
/// in the row's order: unparsable or not finite), the result is the first failing row's
/// problem (its times, its real-valued fields, then a missing track identifier); else, when
/// there are no rows, that the CSV has none; else, when an estimate time goes backward, that;
/// else the rows, each with its track identifier.
#[verifier::loop_isolation(false)]
pub fn finish_track_rows(rows: Vec<Result<TrackCsvRow, String>>, problems: &Vec<Option<String>>) -> (r: Result<Vec<TrackCsvRow>, String>)
    requires
        rows@.len() == problems@.len(),
    ensures
        match first_problem(rows@, track_problems(rows@, problems@), rows@.len() as int) {
            Some(e) => r matches Err(x) && x@ == e,
            None => if rows@.len() == 0 {
                r matches Err(x) && x@ == "track CSV contains no rows"@
            } else if !never_decreasing(track_times(rows@)) {
                r matches Err(x) && x@ == "track CSV times must not go backward"@
            } else {
                r matches Ok(v) && v@.len() == rows@.len() && forall|k: int|
                    0 <= k < rows@.len() ==> rows@[k] == Ok::<TrackCsvRow, String>(#[trigger] v@[k])
                        && v@[k].track_id is Some
            },
        },
{
    let ghost all = rows@;
    let ghost texts = track_problems(rows@, problems@);
    let mut rows = rows;
    let n = rows.len();
    let mut out: Vec<TrackCsvRow> = Vec::new();
    let mut times: Vec<i64> = Vec::new();
    let mut k: usize = 0;
    assert(all.skip(0) =~= all);
    proof { reveal_strlit("missing track_id"); }
    while k < n
        invariant
            n == all.len(),
            all.len() == problems@.len(),
            texts == track_problems(all, problems@),
            0 <= k <= n,
            rows@ == all.skip(k as int),
            first_problem(all, texts, k as int) is None,
            out@.len() == k,
            times@.len() == k,
            forall|j: int| 0 <= j < k ==> all[j] == Ok::<TrackCsvRow, String>(#[trigger] out@[j]) && out@[j].track_id is Some,
            forall|j: int| 0 <= j < k ==> #[trigger] times@[j] == track_times(all)[j],
        decreases n - k,
    {
        let row = rows.remove(0);
        assert(all.skip(k as int)[0] == all[k as int]);
        assert(rows@ =~= all.skip(k + 1));
        assert(row == all[k as int]);
        match row {
            Err(e) => {
                assert(first_problem(all, texts, k + 1) == Some(e@));
                proof { lemma_first_problem_stays(all, texts, k + 1, n as int); }
                return Err(e);
            },
            Ok(r) => {
                match &problems[k] {
                    Some(p) => {
                        assert(texts[k as int] == Some(p@));
                        assert(first_problem(all, texts, k + 1) == Some(p@));
                        proof { lemma_first_problem_stays(all, texts, k + 1, n as int); }
                        return Err(String::from_str(p.as_str()));
                    },
                    None => {},
                }
                if r.track_id.is_none() {
                    assert(texts[k as int] == Some("missing track_id"@));
                    assert(first_problem(all, texts, k + 1) == Some("missing track_id"@));
                    proof { lemma_first_problem_stays(all, texts, k + 1, n as int); }
                    return Err(String::from_str("missing track_id"));
                }
                times.push(r.estimate_time_ns);
                out.push(r);
            },
        }
        k = k + 1;
    }
    if n == 0 {
        proof { reveal_strlit("track CSV contains no rows"); }
        return Err(String::from_str("track CSV contains no rows"));
    }
    assert(times@ =~= track_times(all));
    match check_track_times(&times) {
        Err(e) => Err(e),
        Ok(()) => Ok(out),
    }
}

} // verus!
