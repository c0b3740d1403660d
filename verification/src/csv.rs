//! The CSV reader: header row, comma-separated fields, one record per
//! line. A column's type is inferred from up to 10,000 sample rows: it is
//! numeric when every sampled field is empty or a numeric literal, textual
//! otherwise; empty fields load as nulls. Fields carry no quoting: a comma
//! always separates and a line break always ends a record.

use vstd::prelude::*;
use vstd::string::StrSliceExecFns;
use crate::error::EngineError;
use crate::table::{Column, ColumnModel, Table, table_wf};
use crate::value::{Value, ValueModel, is_num_literal, parse_num, spec_is_num_literal, spec_parse_num};

verus! {

/// The first position of `c`, or -1.
pub open spec fn find_char(s: Seq<char>, c: char) -> int
    decreases s.len(),
{
    if s.len() == 0 {
        -1
    } else if s[0] == c {
        0
    } else {
        let r = find_char(s.drop_first(), c);
        if r < 0 {
            -1
        } else {
            r + 1
        }
    }
}

pub proof fn lemma_find_char(s: Seq<char>, c: char)
    ensures
        find_char(s, c) >= 0 ==> find_char(s, c) < s.len() && s[find_char(s, c)] == c,
        find_char(s, c) < 0 ==> forall|q: int| 0 <= q < s.len() ==> s[q] != c,
        find_char(s, c) >= -1,
    decreases s.len(),
{
    if s.len() > 0 && s[0] != c {
        lemma_find_char(s.drop_first(), c);
        assert(forall|q: int| 0 <= q < s.len() - 1 ==> s.drop_first()[q] == s[q + 1]);
        if find_char(s.drop_first(), c) < 0 {
            assert forall|q: int| 0 <= q < s.len() implies s[q] != c by {
                if q > 0 {
                    assert(s.drop_first()[q - 1] == s[q]);
                }
            }
        }
    }
}

/// The segments between occurrences of `c` (one more segment than
/// separators; an empty text is one empty segment).
pub open spec fn split_on(s: Seq<char>, c: char) -> Seq<Seq<char>>
    decreases s.len(),
    via split_on_decreases
{
    let i = find_char(s, c);
    if i < 0 {
        seq![s]
    } else {
        seq![s.take(i)] + split_on(s.skip(i + 1), c)
    }
}

#[via_fn]
proof fn split_on_decreases(s: Seq<char>, c: char) {
    lemma_find_char(s, c);
}

/// The first separator position, given where the earlier ones are not.
pub proof fn lemma_find_char_at(s: Seq<char>, c: char, i: int)
    requires
        0 <= i < s.len(),
        s[i] == c,
        forall|q: int| 0 <= q < i ==> s[q] != c,
    ensures
        find_char(s, c) == i,
    decreases i,
{
    if i > 0 {
        assert(forall|q: int| 0 <= q < s.len() - 1 ==> s.drop_first()[q] == s[q + 1]);
        lemma_find_char_at(s.drop_first(), c, i - 1);
    }
}

pub proof fn lemma_find_char_none(s: Seq<char>, c: char)
    requires
        forall|q: int| 0 <= q < s.len() ==> s[q] != c,
    ensures
        find_char(s, c) == -1,
    decreases s.len(),
{
    if s.len() > 0 {
        assert(forall|q: int| 0 <= q < s.len() - 1 ==> s.drop_first()[q] == s[q + 1]);
        lemma_find_char_none(s.drop_first(), c);
    }
}

/// Splits on every occurrence of the separator.
fn split_str(s: &str, sep: char) -> (r: Vec<String>)
    ensures
        r@.map_values(|x: String| x@) == split_on(s@, sep),
        r@.len() >= 1,
{
    let n = s.unicode_len();
    let mut out: Vec<String> = Vec::new();
    proof {
        assert(s@.skip(0) =~= s@);
        assert(out@.map_values(|x: String| x@) + split_on(s@.skip(0), sep) =~= split_on(s@, sep));
    }
    let mut start: usize = 0;
    let mut i: usize = 0;
    while i < n
        invariant
            0 <= start <= i <= n,
            n == s@.len(),
            forall|q: int| start <= q < i ==> s@[q] != sep,
            split_on(s@, sep) == out@.map_values(|x: String| x@) + split_on(s@.skip(start as int), sep),
        decreases n - i,
    {
        if s.get_char(i) == sep {
            let piece = s.substring_char(start, i).to_owned();
            proof {
                let suf = s@.skip(start as int);
                assert(forall|q: int| 0 <= q < suf.len() ==> #[trigger] suf[q] == s@[q + start]);
                lemma_find_char_at(suf, sep, i - start as int);
                assert(suf.take(i - start as int) =~= s@.subrange(start as int, i as int));
                assert(suf.skip(i - start as int + 1) =~= s@.skip(i as int + 1));
                assert(split_on(suf, sep) == seq![s@.subrange(start as int, i as int)]
                    + split_on(s@.skip(i as int + 1), sep));
            }
            let ghost prev = out@.map_values(|x: String| x@);
            out.push(piece);
            proof {
                assert(out@.map_values(|x: String| x@)
                    =~= prev.push(s@.subrange(start as int, i as int)));
                assert(split_on(s@, sep) =~= out@.map_values(|x: String| x@)
                    + split_on(s@.skip(i as int + 1), sep));
            }
            start = i + 1;
        }
        i += 1;
    }
    let piece = s.substring_char(start, n).to_owned();
    proof {
        let suf = s@.skip(start as int);
        assert(forall|q: int| 0 <= q < suf.len() ==> #[trigger] suf[q] == s@[q + start]);
        lemma_find_char_none(suf, sep);
        assert(split_on(suf, sep) == seq![suf]);
        assert(suf =~= s@.subrange(start as int, n as int));
    }
    out.push(piece);
    proof {
        assert(out@.map_values(|x: String| x@) =~= split_on(s@, sep));
    }
    out
}

/// A line with any trailing carriage return removed.
pub open spec fn strip_cr(line: Seq<char>) -> Seq<char> {
    if line.len() > 0 && line.last() == '\r' {
        line.drop_last()
    } else {
        line
    }
}

/// The records of the text: split on line feeds, a final empty segment
/// (from a trailing newline) dropped, carriage returns stripped.
pub open spec fn csv_lines(text: Seq<char>) -> Seq<Seq<char>> {
    let raw = split_on(text, '\n');
    let kept = if raw.len() > 0 && raw.last().len() == 0 {
        raw.drop_last()
    } else {
        raw
    };
    kept.map_values(|l: Seq<char>| strip_cr(l))
}

/// The comma-separated fields of one record.
pub open spec fn csv_fields(line: Seq<char>) -> Seq<Seq<char>> {
    split_on(line, ',')
}

/// How many leading rows schema inference samples.
pub open spec fn sample_window(n: int) -> int {
    if n < 10000 {
        n
    } else {
        10000
    }
}

/// A column is numeric when every sampled field is empty or a numeric
/// literal.
pub open spec fn infer_numeric(rows: Seq<Seq<Seq<char>>>, j: int) -> bool {
    forall|r: int| 0 <= r < sample_window(rows.len() as int)
        ==> (#[trigger] rows[r][j]).len() == 0 || spec_is_num_literal(rows[r][j])
}

/// The cell a field loads as: empty fields are null, numeric columns parse
/// their fields, textual columns keep them as text.
pub open spec fn cell_of(f: Seq<char>, numeric: bool) -> ValueModel {
    if f.len() == 0 {
        ValueModel::Null
    } else if numeric {
        ValueModel::Int(spec_parse_num(f))
    } else {
        ValueModel::Str(f)
    }
}

/// The data rows (each already split into fields).
pub open spec fn csv_rows(text: Seq<char>) -> Seq<Seq<Seq<char>>> {
    csv_lines(text).drop_first().map_values(|l: Seq<char>| csv_fields(l))
}

/// A loadable text: at least a header line, every record as wide as the
/// header, and (beyond the sample window) every field of a numeric column
/// still empty or a numeric literal.
pub open spec fn csv_ok(text: Seq<char>) -> bool {
    let lines = csv_lines(text);
    let rows = csv_rows(text);
    &&& lines.len() >= 1
    &&& forall|r: int| 0 <= r < rows.len()
        ==> (#[trigger] rows[r]).len() == csv_fields(lines[0]).len()
    &&& forall|j: int, r: int|
        0 <= j < csv_fields(lines[0]).len() && 0 <= r < rows.len() && infer_numeric(rows, j)
            ==> (#[trigger] rows[r][j]).len() == 0 || spec_is_num_literal(rows[r][j])
}

/// The loaded table: one column per header field, one row per record.
pub open spec fn spec_parse_csv(text: Seq<char>) -> Seq<ColumnModel> {
    let header = csv_fields(csv_lines(text)[0]);
    let rows = csv_rows(text);
    Seq::new(header.len(), |j: int| ColumnModel {
        name: header[j],
        cells: Seq::new(rows.len(), |r: int| cell_of(rows[r][j], infer_numeric(rows, j))),
    })
}

/// Reads a CSV text into a table. `ParseError` reports exactly the texts
/// `csv_ok` refuses: no header line, a record of the wrong width, or a
/// late field of an inferred-numeric column that no longer parses.
pub fn parse_csv(text: &str) -> (r: Result<Table, EngineError>)
    ensures
        match r {
            Ok(out) => {
                &&& csv_ok(text@)
                &&& out@ == spec_parse_csv(text@)
                &&& table_wf(out@)
            },
            Err(EngineError::ParseError) => !csv_ok(text@),
            Err(_) => false,
        },
{
    let raw = split_str(text, '\n');
    let ghost rawv = raw@.map_values(|x: String| x@);
    let keep = if raw[raw.len() - 1].as_str().unicode_len() == 0 {
        raw.len() - 1
    } else {
        raw.len()
    };
    proof {
        assert(rawv.len() >= 1);
        assert(raw@[raw@.len() - 1]@ == rawv.last());
        let kept = if rawv.len() > 0 && rawv.last().len() == 0 {
            rawv.drop_last()
        } else {
            rawv
        };
        assert(kept.len() == keep);
        assert(forall|q: int| 0 <= q < keep ==> #[trigger] kept[q] == rawv[q]);
        assert(csv_lines(text@) == kept.map_values(|l: Seq<char>| strip_cr(l)));
        assert(forall|q: int| 0 <= q < keep
            ==> #[trigger] csv_lines(text@)[q] == strip_cr(rawv[q]));
    }
    let mut lines: Vec<String> = Vec::new();
    let mut i: usize = 0;
    while i < keep
        invariant
            i <= keep,
            keep <= raw@.len(),
            rawv == raw@.map_values(|x: String| x@),
            rawv.len() == raw@.len(),
            csv_lines(text@).len() == keep,
            forall|q: int| 0 <= q < keep ==> #[trigger] csv_lines(text@)[q] == strip_cr(rawv[q]),
            lines@.len() == i,
            forall|q: int| 0 <= q < i ==> (#[trigger] lines@[q])@ == csv_lines(text@)[q],
        decreases keep - i,
    {
        proof {
            assert(raw@[i as int]@ == rawv[i as int]);
        }
        let l = &raw[i];
        let n = l.as_str().unicode_len();
        let stripped: String = if n > 0 && l.as_str().get_char(n - 1) == '\r' {
            l.as_str().substring_char(0, n - 1).to_owned()
        } else {
            l.clone()
        };
        proof {
            if n > 0 && rawv[i as int].last() == '\r' {
                assert(stripped@ =~= strip_cr(rawv[i as int]));
            } else {
                assert(stripped@ =~= strip_cr(rawv[i as int]));
            }
        }
        lines.push(stripped);
        i += 1;
    }
    if lines.len() == 0 {
        proof {
            assert(!csv_ok(text@));
        }
        return Err(EngineError::ParseError);
    }

    let header = split_str(lines[0].as_str(), ',');
    let width = header.len();
    let ghost headerv = csv_fields(csv_lines(text@)[0]);
    proof {
        assert(header@.map_values(|x: String| x@) == headerv);
        assert(headerv.len() == width);
    }

    // Split every record; a width mismatch refuses the text.
    let mut rows: Vec<Vec<String>> = Vec::new();
    let mut r: usize = 0;
    let nrows = lines.len() - 1;
    proof {
        assert(csv_rows(text@).len() == nrows);
        assert(forall|q: int| 0 <= q < nrows
            ==> #[trigger] csv_rows(text@)[q] == csv_fields(csv_lines(text@).drop_first()[q]));
        assert(forall|q: int| 0 <= q < nrows
            ==> #[trigger] csv_lines(text@).drop_first()[q] == csv_lines(text@)[q + 1]);
    }
    while r < nrows
        invariant
            r <= nrows,
            nrows == lines@.len() - 1,
            lines@.len() >= 1,
            forall|q: int| 0 <= q < lines@.len() ==> (#[trigger] lines@[q])@ == csv_lines(text@)[q],
            csv_lines(text@).len() == lines@.len(),
            csv_rows(text@).len() == nrows,
            forall|q: int| 0 <= q < nrows
                ==> #[trigger] csv_rows(text@)[q] == csv_fields(csv_lines(text@)[q + 1]),
            width == csv_fields(csv_lines(text@)[0]).len(),
            rows@.len() == r,
            forall|q: int| 0 <= q < r ==> {
                &&& (#[trigger] rows@[q])@.len() == width
                &&& rows@[q]@.map_values(|x: String| x@) == csv_rows(text@)[q]
            },
        decreases nrows - r,
    {
        let fields = split_str(lines[r + 1].as_str(), ',');
        proof {
            assert(lines@[r as int + 1]@ == csv_lines(text@)[r as int + 1]);
            assert(fields@.map_values(|x: String| x@) == csv_rows(text@)[r as int]);
        }
        if fields.len() != width {
            proof {
                assert(csv_rows(text@)[r as int].len() != width);
                assert(!csv_ok(text@));
            }
            return Err(EngineError::ParseError);
        }
        rows.push(fields);
        r += 1;
    }
    let ghost rowsv = csv_rows(text@);
    proof {
        assert(forall|q: int| 0 <= q < nrows
            ==> (#[trigger] rows@[q])@.map_values(|x: String| x@) == rowsv[q]);
        assert forall|q: int| 0 <= q < nrows implies (#[trigger] rowsv[q]).len() == width by {
            assert(rows@[q]@.map_values(|x: String| x@) == rowsv[q]);
        }
        assert(forall|q: int, j: int| 0 <= q < nrows && 0 <= j < width
            ==> (#[trigger] rows@[q]@[j])@ == rowsv[q][j]);
    }

    // Infer each column's type from the sample window.
    let window = if nrows < 10000 {
        nrows
    } else {
        10000
    };
    let mut numeric: Vec<bool> = Vec::new();
    let mut j: usize = 0;
    while j < width
        invariant
            j <= width,
            window == sample_window(rowsv.len() as int),
            rows@.len() == rowsv.len(),
            nrows == rowsv.len(),
            forall|q: int| 0 <= q < nrows ==> (#[trigger] rows@[q])@.len() == width,
            forall|q: int, w: int| 0 <= q < nrows && 0 <= w < width
                ==> (#[trigger] rows@[q]@[w])@ == rowsv[q][w],
            numeric@.len() == j,
            forall|q: int| 0 <= q < j ==> #[trigger] numeric@[q] == infer_numeric(rowsv, q),
        decreases width - j,
    {
        let mut isnum = true;
        let mut r2: usize = 0;
        while r2 < window
            invariant
                r2 <= window,
                j < width,
                window == sample_window(rowsv.len() as int),
                window <= nrows,
                rows@.len() == rowsv.len(),
                nrows == rowsv.len(),
                forall|q: int| 0 <= q < nrows ==> (#[trigger] rows@[q])@.len() == width,
                forall|q: int, w: int| 0 <= q < nrows && 0 <= w < width
                    ==> (#[trigger] rows@[q]@[w])@ == rowsv[q][w],
                isnum == (forall|q: int| 0 <= q < r2
                    ==> (#[trigger] rowsv[q][j as int]).len() == 0
                        || spec_is_num_literal(rowsv[q][j as int])),
            decreases window - r2,
        {
            let f = &rows[r2][j];
            let ok = f.as_str().unicode_len() == 0 || is_num_literal(f.as_str());
            proof {
                assert(f@ == rowsv[r2 as int][j as int]);
            }
            if !ok {
                isnum = false;
            }
            r2 += 1;
        }
        proof {
            assert(isnum == infer_numeric(rowsv, j as int));
        }
        numeric.push(isnum);
        j += 1;
    }

    // Build the columns; a late unparsable field in a numeric column
    // refuses the text.
    let mut columns: Vec<Column> = Vec::new();
    let mut j: usize = 0;
    while j < width
        invariant
            j <= width,
            width == headerv.len(),
            header@.len() == width,
            forall|q: int| 0 <= q < width ==> (#[trigger] header@[q])@ == headerv[q],
            rows@.len() == rowsv.len(),
            nrows == rowsv.len(),
            rowsv == csv_rows(text@),
            headerv == csv_fields(csv_lines(text@)[0]),
            csv_lines(text@).len() >= 1,
            forall|q: int| 0 <= q < nrows ==> (#[trigger] rowsv[q]).len() == width,
            forall|q: int| 0 <= q < nrows ==> (#[trigger] rows@[q])@.len() == width,
            forall|q: int, w: int| 0 <= q < nrows && 0 <= w < width
                ==> (#[trigger] rows@[q]@[w])@ == rowsv[q][w],
            numeric@.len() == width,
            forall|q: int| 0 <= q < width ==> #[trigger] numeric@[q] == infer_numeric(rowsv, q),
            columns@.len() == j,
            forall|q: int| 0 <= q < j ==> (#[trigger] columns@[q])@ == (ColumnModel {
                name: headerv[q],
                cells: Seq::new(rowsv.len(), |w: int| cell_of(rowsv[w][q], infer_numeric(rowsv, q))),
            }),
            forall|q: int, w: int| 0 <= q < j && 0 <= w < nrows && infer_numeric(rowsv, q)
                ==> (#[trigger] rowsv[w][q]).len() == 0 || spec_is_num_literal(rowsv[w][q]),
        decreases width - j,
    {
        let isnum = numeric[j];
        let mut cells: Vec<Value> = Vec::new();
        let mut r2: usize = 0;
        while r2 < nrows
            invariant
                r2 <= nrows,
                j < width,
                isnum == infer_numeric(rowsv, j as int),
                rows@.len() == rowsv.len(),
                nrows == rowsv.len(),
                rowsv == csv_rows(text@),
                headerv == csv_fields(csv_lines(text@)[0]),
                width == headerv.len(),
                csv_lines(text@).len() >= 1,
                forall|q: int| 0 <= q < nrows ==> (#[trigger] rows@[q])@.len() == width,
                forall|q: int, w: int| 0 <= q < nrows && 0 <= w < width
                    ==> (#[trigger] rows@[q]@[w])@ == rowsv[q][w],
                cells@.len() == r2,
                forall|q: int| 0 <= q < r2
                    ==> (#[trigger] cells@[q])@ == cell_of(rowsv[q][j as int], isnum),
                forall|q: int| 0 <= q < r2 && isnum
                    ==> (#[trigger] rowsv[q][j as int]).len() == 0
                        || spec_is_num_literal(rowsv[q][j as int]),
            decreases nrows - r2,
        {
            let f = &rows[r2][j];
            proof {
                assert(f@ == rowsv[r2 as int][j as int]);
            }
            if f.as_str().unicode_len() == 0 {
                cells.push(Value::Null);
            } else if isnum {
                if !is_num_literal(f.as_str()) {
                    proof {
                        assert(infer_numeric(rowsv, j as int));
                        assert(rowsv[r2 as int][j as int].len() != 0);
                        assert(!spec_is_num_literal(rowsv[r2 as int][j as int]));
                        assert(!csv_ok(text@));
                    }
                    return Err(EngineError::ParseError);
                }
                cells.push(Value::Int(parse_num(f.as_str())));
            } else {
                cells.push(Value::Str(f.clone()));
            }
            r2 += 1;
        }
        columns.push(Column { name: header[j].clone(), cells });
        proof {
            assert(columns@[j as int]@.cells =~= Seq::new(
                rowsv.len(),
                |w: int| cell_of(rowsv[w][j as int], infer_numeric(rowsv, j as int)),
            ));
            assert(columns@[j as int]@ =~= (ColumnModel {
                name: headerv[j as int],
                cells: Seq::new(
                    rowsv.len(),
                    |w: int| cell_of(rowsv[w][j as int], infer_numeric(rowsv, j as int)),
                ),
            }));
        }
        j += 1;
    }

    let out = Table { columns };
    proof {
        assert(forall|w: int| 0 <= w < out@.len() ==> #[trigger] out@[w] == columns@[w]@);
        assert(out@ =~= spec_parse_csv(text@));
        assert(csv_ok(text@));
        assert(table_wf(out@)) by {
            assert(forall|w: int| 0 <= w < out@.len()
                ==> (#[trigger] out@[w].cells).len() == rowsv.len());
        }
    }
    Ok(out)
}

} // verus!
