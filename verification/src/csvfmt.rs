//! CSV reading and writing: comma-separated cells, double-quote quoting with
//! doubled quotes inside, LF or CRLF row ends, rows of any width, blank lines
//! skipped.

use vstd::prelude::*;
use crate::trusted::chars_to_string;

verus! {

/// A cell boundary character.
pub open spec fn csv_end_char(c: char) -> bool {
    c == ',' || c == '\n' || c == '\r'
}

/// End of the run of unquoted cell characters starting at `i`.
pub open spec fn scan_cell(s: Seq<char>, i: nat) -> nat
    decreases s.len() - i,
{
    if i >= s.len() {
        i
    } else if !csv_end_char(s[i as int]) {
        scan_cell(s, i + 1)
    } else {
        i
    }
}

/// Body of a quoted cell starting at `i` (after the opening quote), up to and
/// past the closing quote. A doubled quote stands for one.
pub open spec fn parse_qcell(s: Seq<char>, i: nat) -> Option<(Seq<char>, nat)>
    decreases s.len() - i,
{
    if i >= s.len() {
        None
    } else if s[i as int] == '"' {
        if i + 1 < s.len() && s[i as int + 1] == '"' {
            match parse_qcell(s, i + 2) {
                Some(p) => Some((seq!['"'] + p.0, p.1)),
                None => None,
            }
        } else {
            Some((Seq::empty(), (i + 1) as nat))
        }
    } else {
        match parse_qcell(s, i + 1) {
            Some(p) => Some((seq![s[i as int]] + p.0, p.1)),
            None => None,
        }
    }
}

pub proof fn lemma_parse_qcell_bounds(s: Seq<char>, i: nat)
    ensures
        parse_qcell(s, i) matches Some(p) ==> i < p.1 <= s.len(),
    decreases s.len() - i,
{
    if i < s.len() {
        if s[i as int] == '"' {
            if i + 1 < s.len() && s[i as int + 1] == '"' {
                lemma_parse_qcell_bounds(s, i + 2);
            }
        } else {
            lemma_parse_qcell_bounds(s, i + 1);
        }
    }
}

/// One cell starting at `i`: its content and the position of the delimiter
/// after it (a comma, a row end, or the end of input).
pub open spec fn parse_cell(s: Seq<char>, i: nat) -> Option<(Seq<char>, nat)>
    decreases s.len() - i,
{
    if i < s.len() && s[i as int] == '"' {
        match parse_qcell(s, i + 1) {
            Some(p) => {
                if p.1 == s.len() || csv_end_char(s[p.1 as int]) {
                    Some(p)
                } else {
                    None
                }
            },
            None => None,
        }
    } else {
        let j = scan_cell(s, i);
        Some((s.subrange(i as int, j as int), j))
    }
}

/// One row starting at `i`: its cells and the position after its row end.
pub open spec fn parse_row(s: Seq<char>, i: nat) -> Option<(Seq<Seq<char>>, nat)>
    decreases s.len() - i, 1int,
{
    match parse_cell(s, i) {
        None => None,
        Some(p) => {
            let j = p.1;
            if j > s.len() || j < i {
                None
            } else if j == s.len() {
                Some((seq![p.0], j))
            } else if s[j as int] == ',' {
                match parse_row(s, j + 1) {
                    Some(q) => Some((seq![p.0] + q.0, q.1)),
                    None => None,
                }
            } else if s[j as int] == '\r' {
                if j + 1 < s.len() && s[j as int + 1] == '\n' {
                    Some((seq![p.0], (j + 2) as nat))
                } else {
                    Some((seq![p.0], (j + 1) as nat))
                }
            } else {
                Some((seq![p.0], (j + 1) as nat))
            }
        },
    }
}

/// All rows from `i`, skipping rows that are one empty cell (blank lines).
pub open spec fn parse_rows(s: Seq<char>, i: nat) -> Option<(Seq<Seq<Seq<char>>>, nat)>
    decreases s.len() - i, 2int,
{
    if i >= s.len() {
        Some((Seq::empty(), i))
    } else {
        match parse_row(s, i) {
            None => None,
            Some(p) => {
                if p.1 <= i || p.1 > s.len() {
                    None
                } else {
                    match parse_rows(s, p.1) {
                        Some(q) => {
                            if p.0 == seq![Seq::<char>::empty()] {
                                Some((q.0, q.1))
                            } else {
                                Some((seq![p.0] + q.0, q.1))
                            }
                        },
                        None => None,
                    }
                }
            },
        }
    }
}

/// The rows of a whole CSV document.
pub open spec fn spec_parse_csv(s: Seq<char>) -> Option<Seq<Seq<Seq<char>>>> {
    match parse_rows(s, 0) {
        Some(p) => Some(p.0),
        None => None,
    }
}

/// Runtime form of [`scan_cell`].
fn scan_cell_x(s: &Vec<char>, i: usize) -> (j: usize)
    requires
        i <= s@.len(),
    ensures
        j == scan_cell(s@, i as nat),
        i <= j <= s@.len(),
{
    let n = s.len();
    let mut j: usize = i;
    while j < n && !(s[j] == ',' || s[j] == '\n' || s[j] == '\r')
        invariant
            i <= j <= n,
            n == s@.len(),
            scan_cell(s@, i as nat) == scan_cell(s@, j as nat),
        decreases n - j,
    {
        j = j + 1;
    }
    j
}

/// Runtime form of [`parse_qcell`].
fn parse_qcell_x(s: &Vec<char>, start: usize) -> (r: Option<(Vec<char>, usize)>)
    requires
        start <= s@.len(),
    ensures
        match r {
            Some(p) => parse_qcell(s@, start as nat) == Some((p.0@, p.1 as nat)) && start < p.1
                <= s@.len(),
            None => parse_qcell(s@, start as nat) is None,
        },
{
    let n = s.len();
    let mut acc: Vec<char> = Vec::new();
    let mut cur: usize = start;
    loop
        invariant
            start <= cur <= n,
            n == s@.len(),
            ({
                let r0 = parse_qcell(s@, start as nat);
                match parse_qcell(s@, cur as nat) {
                    Some(p) => r0 == Some((acc@ + p.0, p.1)),
                    None => r0 is None,
                }
            }),
        decreases n - cur,
    {
        proof {
            lemma_parse_qcell_bounds(s@, cur as nat);
        }
        if cur >= n {
            return None;
        }
        let c = s[cur];
        if c == '"' {
            if cur + 1 < n && s[cur + 1] == '"' {
                proof {
                    match parse_qcell(s@, cur as nat + 2) {
                        Some(q) => {
                            assert(parse_qcell(s@, cur as nat) == Some((seq!['"'] + q.0, q.1)));
                            assert(acc@.push('"') + q.0 =~= acc@ + (seq!['"'] + q.0));
                        },
                        None => {},
                    }
                }
                acc.push('"');
                cur = cur + 2;
            } else {
                proof {
                    assert(parse_qcell(s@, cur as nat) == Some(
                        (Seq::<char>::empty(), (cur + 1) as nat),
                    ));
                    assert(acc@ + Seq::<char>::empty() =~= acc@);
                }
                return Some((acc, cur + 1));
            }
        } else {
            proof {
                match parse_qcell(s@, cur as nat + 1) {
                    Some(q) => {
                        assert(parse_qcell(s@, cur as nat) == Some((seq![c] + q.0, q.1)));
                        assert(acc@.push(c) + q.0 =~= acc@ + (seq![c] + q.0));
                    },
                    None => {},
                }
            }
            acc.push(c);
            cur = cur + 1;
        }
    }
}

/// Runtime form of [`parse_cell`].
fn parse_cell_x(s: &Vec<char>, i: usize) -> (r: Option<(Vec<char>, usize)>)
    requires
        i <= s@.len(),
    ensures
        match r {
            Some(p) => parse_cell(s@, i as nat) == Some((p.0@, p.1 as nat)) && i <= p.1 <= s@.len(),
            None => parse_cell(s@, i as nat) is None,
        },
{
    let n = s.len();
    if i < n && s[i] == '"' {
        match parse_qcell_x(s, i + 1) {
            Some((content, j)) => {
                if j == n || s[j] == ',' || s[j] == '\n' || s[j] == '\r' {
                    Some((content, j))
                } else {
                    None
                }
            },
            None => None,
        }
    } else {
        let j = scan_cell_x(s, i);
        let content = crate::json::copy_range(s, i, j);
        Some((content, j))
    }
}

/// Runtime form of [`parse_row`].
fn parse_row_x(s: &Vec<char>, i0: usize) -> (r: Option<(Vec<Vec<char>>, usize)>)
    requires
        i0 <= s@.len(),
    ensures
        match r {
            Some(p) => parse_row(s@, i0 as nat) == Some((p.0.deep_view(), p.1 as nat)) && i0 <= p.1
                <= s@.len(),
            None => parse_row(s@, i0 as nat) is None,
        },
{
    let n = s.len();
    let mut cells: Vec<Vec<char>> = Vec::new();
    let mut i: usize = i0;
    proof {
        assert(cells.deep_view() =~= Seq::<Seq<char>>::empty());
    }
    loop
        invariant
            i0 <= i <= n,
            n == s@.len(),
            ({
                let r0 = parse_row(s@, i0 as nat);
                match parse_row(s@, i as nat) {
                    Some(q) => r0 == Some((cells.deep_view() + q.0, q.1)),
                    None => r0 is None,
                }
            }),
        decreases n - i,
    {
        match parse_cell_x(s, i) {
            None => {
                return None;
            },
            Some((content, j)) => {
                let ghost cs = content@;
                if j == n {
                    proof {
                        assert(parse_row(s@, i as nat) == Some((seq![cs], j as nat)));
                        let done = cells.deep_view().push(cs);
                        assert(cells.deep_view() + seq![cs] =~= done);
                    }
                    let ghost before = cells.deep_view();
                    cells.push(content);
                    proof {
                        assert(cells.deep_view() =~~= before.push(cs));
                    }
                    return Some((cells, j));
                } else if s[j] == ',' {
                    proof {
                        let rown = parse_row(s@, i as nat);
                        match parse_row(s@, j as nat + 1) {
                            Some(q) => {
                                assert(rown == Some((seq![cs] + q.0, q.1)));
                                assert(cells.deep_view().push(cs) + q.0 =~= cells.deep_view() + (
                                seq![cs] + q.0));
                            },
                            None => {},
                        }
                    }
                    let ghost before = cells.deep_view();
                    cells.push(content);
                    proof {
                        assert(cells.deep_view() =~~= before.push(cs));
                    }
                    i = j + 1;
                } else {
                    let stop: usize = if s[j] == '\r' && j + 1 < n && s[j + 1] == '\n' {
                        j + 2
                    } else {
                        j + 1
                    };
                    proof {
                        assert(parse_row(s@, i as nat) == Some((seq![cs], stop as nat)));
                        let done = cells.deep_view().push(cs);
                        assert(cells.deep_view() + seq![cs] =~= done);
                    }
                    let ghost before = cells.deep_view();
                    cells.push(content);
                    proof {
                        assert(cells.deep_view() =~~= before.push(cs));
                    }
                    return Some((cells, stop));
                }
            },
        }
    }
}

/// Runtime form of [`spec_parse_csv`]: `None` on an unterminated quote or
/// stray text after a closing quote.
pub fn parse_csv(text: &str) -> (r: Option<Vec<Vec<String>>>)
    ensures
        match r {
            Some(rows) => spec_parse_csv(text@) == Some(rows.deep_view()),
            None => spec_parse_csv(text@) is None,
        },
{
    let s = crate::text::str_chars(text);
    let n = s.len();
    let mut rows: Vec<Vec<String>> = Vec::new();
    let mut i: usize = 0;
    proof {
        assert(rows.deep_view() =~= Seq::<Seq<Seq<char>>>::empty());
    }
    loop
        invariant
            i <= n,
            n == s@.len(),
            s@ == text@,
            ({
                let r0 = parse_rows(text@, 0);
                match parse_rows(text@, i as nat) {
                    Some(q) => r0 == Some((rows.deep_view() + q.0, q.1)),
                    None => r0 is None,
                }
            }),
        decreases n - i,
    {
        if i >= n {
            proof {
                assert(parse_rows(text@, i as nat) == Some(
                    (Seq::<Seq<Seq<char>>>::empty(), i as nat),
                ));
                assert(rows.deep_view() + Seq::<Seq<Seq<char>>>::empty() =~= rows.deep_view());
            }
            return Some(rows);
        }
        match parse_row_x(&s, i) {
            None => {
                return None;
            },
            Some((cells, j)) => {
                if j <= i {
                    return None;
                }
                let is_blank_row = cells.len() == 1 && cells[0].len() == 0;
                proof {
                    if is_blank_row {
                        assert(cells.deep_view() =~~= seq![Seq::<char>::empty()]);
                    } else {
                        assert(cells.deep_view() != seq![Seq::<char>::empty()]) by {
                            if cells.deep_view() == seq![Seq::<char>::empty()] {
                                assert(cells.deep_view().len() == 1);
                                assert(cells.deep_view()[0].len() == 0);
                                assert(cells.deep_view()[0].len() == cells@[0]@.len());
                            }
                        }
                    }
                    let r_here = parse_rows(text@, i as nat);
                    match parse_rows(text@, j as nat) {
                        Some(q) => {
                            if !is_blank_row {
                                assert(r_here == Some((seq![cells.deep_view()] + q.0, q.1)));
                            }
                        },
                        None => {},
                    }
                }
                if !is_blank_row {
                    let mut strung: Vec<String> = Vec::new();
                    let cn = cells.len();
                    let mut k: usize = 0;
                    proof {
                        assert(strung.deep_view() =~~= cells.deep_view().subrange(0, 0));
                    }
                    while k < cn
                        invariant
                            k <= cn,
                            cn == cells@.len(),
                            strung.deep_view() == cells.deep_view().subrange(0, k as int),
                        decreases cn - k,
                    {
                        let piece = chars_to_string(&cells[k]);
                        let ghost prev = strung.deep_view();
                        proof {
                            assert(prev.len() == k);
                            assert(strung.deep_view().len() == strung@.len());
                        }
                        strung.push(piece);
                        proof {
                            assert(strung@.len() == k + 1);
                            assert(strung.deep_view().len() == strung@.len());
                            assert forall|t: int| 0 <= t < k + 1 implies strung.deep_view()[t]
                                =~= cells.deep_view().subrange(0, k as int + 1)[t] by {
                                assert(cells.deep_view().subrange(0, k as int + 1)[t]
                                    == cells.deep_view()[t]);
                                assert(cells.deep_view()[t] == cells@[t].deep_view());
                                if t < k {
                                    assert(strung.deep_view()[t] == prev[t]);
                                    assert(prev[t] == cells.deep_view().subrange(0, k as int)[t]);
                                } else {
                                    assert(strung.deep_view()[t] == piece@);
                                    assert(piece@ =~= cells@[t].deep_view());
                                }
                            }
                            assert(strung.deep_view() =~~= cells.deep_view().subrange(
                                0,
                                k as int + 1,
                            ));
                        }
                        k = k + 1;
                    }
                    proof {
                        assert(strung.deep_view() =~~= cells.deep_view());
                    }
                    let ghost before = rows.deep_view();
                    rows.push(strung);
                    proof {
                        assert(rows.deep_view() =~~= before.push(cells.deep_view()));
                        match parse_rows(text@, j as nat) {
                            Some(q) => {
                                assert(before + (seq![cells.deep_view()] + q.0) =~= rows.deep_view()
                                    + q.0);
                            },
                            None => {},
                        }
                    }
                }
                i = j;
            },
        }
    }
}

/// A cell needing quotes: it holds a comma, a quote or a row end.
pub open spec fn cell_needs_quote(c: Seq<char>) -> bool {
    exists|i: int| 0 <= i < c.len() && csv_quote_trigger(c, i)
}

/// The character at `i` forces quoting.
pub open spec fn csv_quote_trigger(c: Seq<char>, i: int) -> bool {
    c[i] == ',' || c[i] == '"' || c[i] == '\n' || c[i] == '\r'
}

/// Cell content with every quote doubled.
pub open spec fn double_quotes(c: Seq<char>) -> Seq<char>
    decreases c.len(),
{
    if c.len() == 0 {
        c
    } else if c[0] == '"' {
        seq!['"', '"'] + double_quotes(c.drop_first())
    } else {
        seq![c[0]] + double_quotes(c.drop_first())
    }
}

/// Written form of one cell.
pub open spec fn cell_text(c: Seq<char>) -> Seq<char> {
    if cell_needs_quote(c) {
        seq!['"'] + double_quotes(c) + seq!['"']
    } else {
        c
    }
}

/// Written forms of a row's cells, joined by commas.
pub open spec fn cells_text(cells: Seq<Seq<char>>) -> Seq<char>
    decreases cells.len(),
{
    if cells.len() == 0 {
        Seq::empty()
    } else if cells.len() == 1 {
        cell_text(cells[0])
    } else {
        cell_text(cells[0]) + seq![','] + cells_text(cells.drop_first())
    }
}

/// Written form of one row: its cells ended by one LF.
pub open spec fn row_text(cells: Seq<Seq<char>>) -> Seq<char> {
    cells_text(cells) + seq!['\n']
}

/// Written form of a document.
pub open spec fn rows_text(rows: Seq<Seq<Seq<char>>>) -> Seq<char>
    decreases rows.len(),
{
    if rows.len() == 0 {
        Seq::empty()
    } else {
        row_text(rows[0]) + rows_text(rows.drop_first())
    }
}

/// Push the written form of one cell.
fn push_cell_text(out: &mut Vec<char>, cell: &str)
    ensures
        final(out)@ == old(out)@ + cell_text(cell@),
{
    let cs = crate::text::str_chars(cell);
    let n = cs.len();
    let mut needs: bool = false;
    let mut i: usize = 0;
    while i < n
        invariant
            i <= n,
            n == cs@.len(),
            cs@ == cell@,
            needs == (exists|k: int| 0 <= k < i && csv_quote_trigger(cell@, k)),
        decreases n - i,
    {
        let c = cs[i];
        if c == ',' || c == '"' || c == '\n' || c == '\r' {
            proof {
                assert(csv_quote_trigger(cell@, i as int));
            }
            needs = true;
        }
        i = i + 1;
    }
    proof {
        assert(needs == cell_needs_quote(cell@));
    }
    if !needs {
        let mut i: usize = 0;
        while i < n
            invariant
                i <= n,
                n == cs@.len(),
                cs@ == cell@,
                out@ == old(out)@ + cell@.subrange(0, i as int),
            decreases n - i,
        {
            out.push(cs[i]);
            proof {
                assert(old(out)@ + cell@.subrange(0, i as int + 1) =~= out@);
            }
            i = i + 1;
        }
        proof {
            assert(cell@.subrange(0, n as int) =~= cell@);
        }
    } else {
        out.push('"');
        let ghost mid0 = out@;
        let mut i: usize = 0;
        while i < n
            invariant
                i <= n,
                n == cs@.len(),
                cs@ == cell@,
                out@ == mid0 + double_quotes(cell@.subrange(0, i as int)),
            decreases n - i,
        {
            let c = cs[i];
            proof {
                lemma_double_quotes_push(cell@.subrange(0, i as int), c);
                assert(cell@.subrange(0, i as int).push(c) =~= cell@.subrange(0, i as int + 1));
            }
            if c == '"' {
                out.push('"');
                out.push('"');
            } else {
                out.push(c);
            }
            proof {
                assert(out@ =~= mid0 + double_quotes(cell@.subrange(0, i as int + 1)));
            }
            i = i + 1;
        }
        out.push('"');
        proof {
            assert(cell@.subrange(0, n as int) =~= cell@);
            assert(out@ =~= old(out)@ + cell_text(cell@));
        }
    }
}

proof fn lemma_double_quotes_push(s: Seq<char>, c: char)
    ensures
        double_quotes(s.push(c)) == double_quotes(s) + (if c == '"' {
            seq!['"', '"']
        } else {
            seq![c]
        }),
    decreases s.len(),
{
    if s.len() == 0 {
        assert(s.push(c)[0] == c);
        assert(s.push(c).drop_first() =~= Seq::<char>::empty());
        assert(double_quotes(Seq::<char>::empty()) == Seq::<char>::empty());
        assert(double_quotes(s) == s);
        assert(double_quotes(s.push(c)) =~= double_quotes(s) + (if c == '"' {
            seq!['"', '"']
        } else {
            seq![c]
        }));
    } else {
        assert(s.push(c)[0] == s[0]);
        assert(s.push(c).drop_first() =~= s.drop_first().push(c));
        lemma_double_quotes_push(s.drop_first(), c);
        assert(double_quotes(s.push(c)) == (if s[0] == '"' {
            seq!['"', '"']
        } else {
            seq![s[0]]
        }) + double_quotes(s.drop_first().push(c)));
        assert(double_quotes(s.push(c)) =~= double_quotes(s) + (if c == '"' {
            seq!['"', '"']
        } else {
            seq![c]
        }));
    }
}

/// Push the written form of one row.
pub fn push_row_text(out: &mut Vec<char>, cells: &Vec<String>)
    ensures
        final(out)@ == old(out)@ + row_text(cells.deep_view()),
{
    let ghost dv = cells.deep_view();
    let n = cells.len();
    let mut i: usize = 0;
    proof {
        assert(dv.skip(0) =~= dv);
        assert(dv.len() == n);
    }
    while i < n
        invariant
            i <= n,
            n == cells@.len(),
            n == dv.len(),
            dv == cells.deep_view(),
            old(out)@ + cells_text(dv) == out@ + cells_text(dv.skip(i as int)),
        decreases n - i,
    {
        proof {
            assert(dv.skip(i as int)[0] == dv[i as int]);
            assert(dv[i as int] == cells@[i as int]@);
            assert(dv.skip(i as int).drop_first() =~= dv.skip(i as int + 1));
        }
        let ghost rem = dv.skip(i as int);
        push_cell_text(out, cells[i].as_str());
        if i + 1 < n {
            out.push(',');
            proof {
                assert(cells_text(rem) =~= cell_text(dv[i as int]) + seq![','] + cells_text(
                    dv.skip(i as int + 1),
                ));
                assert(old(out)@ + cells_text(dv) =~= out@ + cells_text(dv.skip(i as int + 1)));
            }
        } else {
            proof {
                assert(rem.len() == 1);
                assert(cells_text(rem) == cell_text(dv[i as int]));
                assert(dv.skip(i as int + 1) =~= Seq::<Seq<char>>::empty());
                assert(old(out)@ + cells_text(dv) =~= out@ + cells_text(dv.skip(i as int + 1)));
            }
        }
        i = i + 1;
    }
    proof {
        assert(dv.skip(n as int) =~= Seq::<Seq<char>>::empty());
        assert(old(out)@ + cells_text(dv) =~= out@);
    }
    out.push('\n');
    proof {
        assert(out@ =~= old(out)@ + row_text(dv));
    }
}

} // verus!
