//! Export of a view's records to CSV or JSON text.

use vstd::prelude::*;
use crate::csvfmt::{row_text, push_row_text};
use crate::json::{json_get, spec_parse_json, JsonSpec, JsonValue};
use crate::models::DataError;
use crate::records::value_text;
use crate::text::trim_spec;
use crate::trusted::chars_to_string;

verus! {

/// The cells of one exported record: the display text under each store
/// field, empty when absent.
pub open spec fn export_cells(rec: JsonSpec, fields: Seq<Seq<char>>) -> Seq<Seq<char>> {
    Seq::new(
        fields.len(),
        |i: int|
            match json_get(rec, fields[i]) {
                Some(v) => value_text(v),
                None => Seq::empty(),
            },
    )
}

/// The CSV rows of the chosen ids, from `k` on: one row per id, cells in
/// store field order.
pub open spec fn export_csv_rows(
    lines: Seq<Seq<char>>,
    ids: Seq<usize>,
    fields: Seq<Seq<char>>,
    k: nat,
) -> Result<Seq<char>, DataError>
    decreases ids.len() - k,
{
    if k >= ids.len() {
        Ok(Seq::empty())
    } else if ids[k as int] as int >= lines.len() {
        Err(DataError::OutOfRange)
    } else {
        match spec_parse_json(lines[ids[k as int] as int]) {
            None => Err(DataError::Parse),
            Some(rec) => match export_csv_rows(lines, ids, fields, k + 1) {
                Ok(rest) => Ok(row_text(export_cells(rec, fields)) + rest),
                Err(e) => Err(e),
            },
        }
    }
}

/// A whole CSV export: the field names as the header row, then the rows.
pub open spec fn export_csv_spec(
    lines: Seq<Seq<char>>,
    ids: Seq<usize>,
    fields: Seq<Seq<char>>,
) -> Result<Seq<char>, DataError> {
    match export_csv_rows(lines, ids, fields, 0) {
        Ok(rows) => Ok(row_text(fields) + rows),
        Err(e) => Err(e),
    }
}

/// A whole JSON export: the chosen records' trimmed lines as one array.
pub open spec fn export_json_body(lines: Seq<Seq<char>>, ids: Seq<usize>, k: nat) -> Result<
    Seq<char>,
    DataError,
>
    decreases ids.len() - k,
{
    if k >= ids.len() {
        Ok(Seq::empty())
    } else if ids[k as int] as int >= lines.len() {
        Err(DataError::OutOfRange)
    } else {
        let piece = trim_spec(lines[ids[k as int] as int]);
        match export_json_body(lines, ids, k + 1) {
            Ok(rest) => Ok(
                (if k == 0 {
                    piece
                } else {
                    seq![',', '\n'] + piece
                }) + rest,
            ),
            Err(e) => Err(e),
        }
    }
}

/// A whole JSON export.
pub open spec fn export_json_spec(lines: Seq<Seq<char>>, ids: Seq<usize>) -> Result<
    Seq<char>,
    DataError,
> {
    match export_json_body(lines, ids, 0) {
        Ok(body) => Ok(seq!['['] + body + seq![']']),
        Err(e) => Err(e),
    }
}

/// Which export the format name selects.
pub open spec fn export_spec(
    lines: Seq<Seq<char>>,
    ids: Seq<usize>,
    fields: Seq<Seq<char>>,
    format: Seq<char>,
) -> Result<Seq<char>, DataError> {
    if format == "csv"@ {
        export_csv_spec(lines, ids, fields)
    } else {
        export_json_spec(lines, ids)
    }
}

/// Export the chosen records as one document; runtime form of
/// [`export_spec`]. CSV carries a header of the store's fields and one row
/// per record; any other format yields a JSON array of the records.
#[verifier::loop_isolation(false)]
#[verifier::rlimit(60)]
pub fn export_dataset(
    lines: &Vec<String>,
    ids: &Vec<usize>,
    fields: &Vec<String>,
    format: &str,
) -> (r: Result<String, DataError>)
    ensures
        match r {
            Ok(s) => export_spec(lines.deep_view(), ids@, fields.deep_view(), format@) == Ok::<Seq<char>, DataError>(s@),
            Err(e) => export_spec(lines.deep_view(), ids@, fields.deep_view(), format@) == Err::<
                Seq<char>,
                DataError,
            >(e),
        },
{
    let ghost ldv = lines.deep_view();
    let ghost fdv = fields.deep_view();
    let n = ids.len();
    if crate::text::str_eq(format, "csv") {
        let mut out: Vec<char> = Vec::new();
        push_row_text(&mut out, fields);
        let ghost header = row_text(fdv);
        let mut k: usize = 0;
        while k < n
            invariant
                k <= n,
                n == ids@.len(),
                out@.len() >= header.len(),
                ({
                    let full = export_csv_rows(ldv, ids@, fdv, 0);
                    match export_csv_rows(ldv, ids@, fdv, k as nat) {
                        Ok(rest) => full matches Ok(v) && v == out@.skip(header.len() as int)
                            + rest && out@.subrange(0, header.len() as int) == header,
                        Err(e) => full == Err::<Seq<char>, DataError>(e),
                    }
                }),
            decreases n - k,
        {
            let id = ids[k];
            if id >= lines.len() {
                return Err(DataError::OutOfRange);
            }
            let rec = match crate::json::parse_json(lines[id].as_str()) {
                Some(v) => v,
                None => {
                    proof {
                        assert(ldv[id as int] == lines@[id as int]@);
                    }
                    return Err(DataError::Parse);
                },
            };
            proof {
                assert(ldv[id as int] == lines@[id as int]@);
            }
            // build the row cells
            let fn_count = fields.len();
            let mut cells: Vec<String> = Vec::new();
            let mut f: usize = 0;
            while f < fn_count
                invariant
                    f <= fn_count,
                    fn_count == fields@.len(),
                    spec_parse_json(ldv[ids@[k as int] as int]) == Some(rec@),
                    cells@.len() == f,
                    forall|w: int|
                        0 <= w < f ==> (#[trigger] cells@[w])@ == export_cells(rec@, fdv)[w],
                decreases fn_count - f,
            {
                let cell: String = match rec.get(fields[f].as_str()) {
                    Some(v) => crate::records::value_to_string(v),
                    None => String::new(),
                };
                proof {
                    assert(fdv[f as int] == fields@[f as int]@);
                }
                cells.push(cell);
                f = f + 1;
            }
            proof {
                assert(cells.deep_view() =~~= export_cells(rec@, fdv));
            }
            let ghost out_before = out@;
            push_row_text(&mut out, &cells);
            proof {
                let sub = export_csv_rows(ldv, ids@, fdv, k as nat);
                let subn = export_csv_rows(ldv, ids@, fdv, k as nat + 1);
                match subn {
                    Ok(rest) => {
                        assert(sub matches Ok(v) && v == row_text(export_cells(rec@, fdv))
                            + rest);
                        assert(out@.skip(header.len() as int) =~= out_before.skip(
                            header.len() as int,
                        ) + row_text(cells.deep_view()));
                        assert(out@.subrange(0, header.len() as int) =~= header);
                    },
                    Err(_) => {},
                }
            }
            k = k + 1;
        }
        proof {
            assert(export_csv_rows(ldv, ids@, fdv, n as nat) == Ok::<Seq<char>, DataError>(
                Seq::empty(),
            ));
            assert(out@.skip(header.len() as int) + Seq::<char>::empty() =~= out@.skip(
                header.len() as int,
            ));
            assert(header + out@.skip(header.len() as int) =~= out@);
        }
        Ok(chars_to_string(&out))
    } else {
        let mut out: Vec<char> = Vec::new();
        out.push('[');
        let mut k: usize = 0;
        while k < n
            invariant
                k <= n,
                n == ids@.len(),
                ({
                    let full = export_json_body(ldv, ids@, 0);
                    match export_json_body(ldv, ids@, k as nat) {
                        Ok(rest) => full matches Ok(v) && seq!['['] + v == out@ + rest,
                        Err(e) => full == Err::<Seq<char>, DataError>(e),
                    }
                }),
            decreases n - k,
        {
            let id = ids[k];
            if id >= lines.len() {
                return Err(DataError::OutOfRange);
            }
            if k > 0 {
                out.push(',');
                out.push('\n');
            }
            let trimmed = crate::text::trim_str(lines[id].as_str());
            let tchars = crate::text::str_chars(trimmed.as_str());
            let ghost out_mark = out@;
            let tn = tchars.len();
            let mut t: usize = 0;
            while t < tn
                invariant
                    t <= tn,
                    tn == tchars@.len(),
                    out@ == out_mark + tchars@.subrange(0, t as int),
                decreases tn - t,
            {
                out.push(tchars[t]);
                proof {
                    assert(out@ =~= out_mark + tchars@.subrange(0, t as int + 1));
                }
                t = t + 1;
            }
            proof {
                assert(tchars@.subrange(0, tn as int) =~= tchars@);
                assert(ldv[id as int] == lines@[id as int]@);
                let subn = export_json_body(ldv, ids@, k as nat + 1);
                match subn {
                    Ok(rest) => {
                        assert(out@ + rest =~= (seq!['['] + export_json_body(
                            ldv,
                            ids@,
                            0,
                        )->Ok_0));
                    },
                    Err(_) => {},
                }
            }
            k = k + 1;
        }
        proof {
            assert(export_json_body(ldv, ids@, n as nat) == Ok::<Seq<char>, DataError>(
                Seq::empty(),
            ));
            match export_json_body(ldv, ids@, 0) {
                Ok(v) => {
                    assert(out@ + Seq::<char>::empty() =~= out@);
                    assert(out@.push(']') =~= seq!['['] + v + seq![']']);
                },
                Err(_) => {},
            }
        }
        out.push(']');
        Ok(chars_to_string(&out))
    }
}

} // verus!
