//! A small CSV table: comma-separated cells under a mandatory header
//! line, rendered back as a column-aligned table. Parsing validates that
//! no header cell is empty and that every row has exactly as many cells
//! as the header.

use vstd::prelude::*;
use vstd::string::*;

use crate::strutil::{push_char, append_repeat, spec_repeat, lemma_repeat_add};

verus! {

/// Why an input failed to parse.
#[derive(Debug, PartialEq, Eq, Structural, Clone, Copy)]
pub enum CsvError {
    /// The input has no lines at all.
    MissingHeader,
    /// Some header cell is empty.
    EmptyHeaderField,
    /// Some row's cell count differs from the header's.
    ColumnCountMismatch,
}

/// Splitting on a separator. The result always has one more part than
/// the input has separators; an empty input is one empty part.
pub open spec fn spec_split(s: Seq<char>, sep: char) -> Seq<Seq<char>>
    decreases s.len(),
{
    if s.len() == 0 {
        seq![Seq::<char>::empty()]
    } else if s[0] == sep {
        seq![Seq::<char>::empty()] + spec_split(s.drop_first(), sep)
    } else {
        let rest = spec_split(s.drop_first(), sep);
        seq![seq![s[0]] + rest[0]] + rest.drop_first()
    }
}

/// Splitting never yields an empty part list.
pub proof fn lemma_split_len(s: Seq<char>, sep: char)
    ensures
        spec_split(s, sep).len() >= 1,
    decreases s.len(),
{
    if s.len() > 0 {
        lemma_split_len(s.drop_first(), sep);
    }
}

/// How one more character extends a split: a separator opens a new
/// empty part, anything else grows the last part.
proof fn lemma_split_snoc(s: Seq<char>, sep: char, c: char)
    ensures
        spec_split(s.push(c), sep) == (if c == sep {
            spec_split(s, sep).push(Seq::<char>::empty())
        } else {
            let parts = spec_split(s, sep);
            parts.update(parts.len() - 1, parts.last().push(c))
        }),
    decreases s.len(),
{
    lemma_split_len(s, sep);
    let parts = spec_split(s, sep);
    if s.len() == 0 {
        assert(s.push(c)[0] == c);
        assert(s.push(c).drop_first() =~= Seq::<char>::empty());
        assert(spec_split(s.push(c).drop_first(), sep) == seq![Seq::<char>::empty()]);
        if c == sep {
            assert(spec_split(s.push(c), sep) =~= parts.push(Seq::<char>::empty()));
        } else {
            assert(seq![c] + spec_split(Seq::<char>::empty(), sep)[0] =~= seq![c]);
            assert(spec_split(s.push(c), sep) =~= parts.update(0, parts.last().push(c)));
        }
    } else {
        let tail = s.drop_first();
        lemma_split_len(tail, sep);
        lemma_split_snoc(tail, sep, c);
        assert(s.push(c)[0] == s[0]);
        assert(s.push(c).drop_first() =~= tail.push(c));
        let tparts = spec_split(tail, sep);
        if s[0] == sep {
            assert(parts == seq![Seq::<char>::empty()] + tparts);
            assert(parts.last() == tparts.last());
            if c == sep {
                assert(spec_split(s.push(c), sep) =~= parts.push(Seq::<char>::empty()));
            } else {
                assert(spec_split(s.push(c), sep) == seq![Seq::<char>::empty()] + tparts.update(
                    tparts.len() - 1,
                    tparts.last().push(c),
                ));
                assert(spec_split(s.push(c), sep) =~= parts.update(
                    parts.len() - 1,
                    parts.last().push(c),
                ));
            }
        } else {
            assert(parts == seq![seq![s[0]] + tparts[0]] + tparts.drop_first());
            if c == sep {
                let t2 = tparts.push(Seq::<char>::empty());
                assert(spec_split(s.push(c), sep) == seq![seq![s[0]] + t2[0]]
                    + t2.drop_first());
                assert(t2[0] == tparts[0]);
                assert(t2.drop_first() =~= tparts.drop_first().push(Seq::<char>::empty()));
                assert(spec_split(s.push(c), sep) =~= parts.push(Seq::<char>::empty()));
            } else {
                let t2 = tparts.update(tparts.len() - 1, tparts.last().push(c));
                assert(spec_split(s.push(c), sep) == seq![seq![s[0]] + t2[0]]
                    + t2.drop_first());
                if tparts.len() == 1 {
                    assert(t2[0] == tparts[0].push(c));
                    assert(parts.len() == 1);
                    assert(parts.last() == seq![s[0]] + tparts[0]);
                    assert(seq![s[0]] + tparts[0].push(c) =~= (seq![s[0]] + tparts[0]).push(c));
                    assert(t2.drop_first() =~= tparts.drop_first());
                    assert(spec_split(s.push(c), sep) =~= parts.update(
                        parts.len() - 1,
                        parts.last().push(c),
                    ));
                } else {
                    assert(t2[0] == tparts[0]);
                    assert(parts.last() == tparts.last());
                    assert(t2.drop_first() =~= tparts.drop_first().update(
                        tparts.len() - 2,
                        tparts.last().push(c),
                    ));
                    assert(spec_split(s.push(c), sep) =~= parts.update(
                        parts.len() - 1,
                        parts.last().push(c),
                    ));
                }
            }
        }
    }
}

/// Splits `input` on `sep`, one `String` per part.
fn split_char(input: &str, sep: char) -> (r: Vec<String>)
    ensures
        r.deep_view() == spec_split(input@, sep),
{
    let n = input.unicode_len();
    let mut r: Vec<String> = Vec::new();
    let mut acc = String::new();
    let mut i: usize = 0;
    proof {
        assert(input@.take(0) =~= Seq::<char>::empty());
        assert(r.deep_view().push(acc@) =~= spec_split(input@.take(0), sep));
    }
    while i < n
        invariant
            0 <= i <= n,
            n == input@.len(),
            r.deep_view().push(acc@) == spec_split(input@.take(i as int), sep),
        decreases n - i,
    {
        let c = input.get_char(i);
        proof {
            assert(input@.take(i + 1) =~= input@.take(i as int).push(input@[i as int]));
            lemma_split_snoc(input@.take(i as int), sep, input@[i as int]);
            lemma_split_len(input@.take(i as int), sep);
        }
        if c == sep {
            let ghost prevdeep = r.deep_view();
            r.push(acc);
            acc = String::new();
            proof {
                assert forall|k: int|
                    0 <= k < r.deep_view().push(acc@).len() implies r.deep_view().push(acc@)[k]
                    == spec_split(input@.take(i + 1), sep)[k] by {
                    let lhs = r.deep_view().push(acc@);
                    let rhs = spec_split(input@.take(i as int), sep).push(Seq::<char>::empty());
                    if k < prevdeep.len() {
                        assert(lhs[k] == r.deep_view()[k]);
                        assert(r.deep_view()[k] == prevdeep[k]);
                    } else {
                    }
                }
                assert(r.deep_view().push(acc@) =~= spec_split(input@.take(i + 1), sep));
            }
        } else {
            push_char(&mut acc, c);
            proof {
                let parts = spec_split(input@.take(i as int), sep);
                assert(r.deep_view().push(acc@) =~= parts.update(
                    parts.len() - 1,
                    parts.last().push(input@[i as int]),
                ));
            }
        }
        i = i + 1;
    }
    proof {
        assert(input@.take(n as int) =~= input@);
    }
    r.push(acc);
    proof {
        assert(r.deep_view() =~= spec_split(input@, sep));
    }
    r
}

/// A trailing carriage return, as a `\r\n` line ending leaves behind.
pub open spec fn spec_strip_cr(l: Seq<char>) -> Seq<char> {
    if l.len() > 0 && l.last() == '\r' {
        l.drop_last()
    } else {
        l
    }
}

/// The input's lines: split on newlines, a trailing empty part dropped,
/// and each line's trailing carriage return removed.
pub open spec fn spec_lines(s: Seq<char>) -> Seq<Seq<char>> {
    let parts = spec_split(s, '\n');
    let kept = if parts.last() == Seq::<char>::empty() {
        parts.drop_last()
    } else {
        parts
    };
    kept.map_values(|l: Seq<char>| spec_strip_cr(l))
}

fn strip_cr(s: &String) -> (r: String)
    ensures
        r@ == spec_strip_cr(s@),
{
    let n = s.as_str().unicode_len();
    if n > 0 && s.as_str().get_char(n - 1) == '\r' {
        let head = s.as_str().substring_char(0, n - 1);
        proof {
            assert(s@.subrange(0, n - 1) =~= s@.drop_last());
        }
        String::from_str(head)
    } else {
        s.clone()
    }
}

/// Splits the input into lines.
fn split_lines(input: &str) -> (r: Vec<String>)
    ensures
        r.deep_view() == spec_lines(input@),
{
    let mut parts = split_char(input, '\n');
    proof {
        lemma_split_len(input@, '\n');
    }
    let last_empty = parts[parts.len() - 1].as_str().is_empty();
    if last_empty {
        proof {
            assert(parts.deep_view().last() =~= Seq::<char>::empty());
        }
        let _ = parts.pop();
    }
    let ghost kept = (if spec_split(input@, '\n').last() == Seq::<char>::empty() {
        spec_split(input@, '\n').drop_last()
    } else {
        spec_split(input@, '\n')
    });
    proof {
        if last_empty {
            assert(parts.deep_view() =~= kept);
        } else {
            assert(parts.deep_view().last() == parts@[parts@.len() - 1]@);
            assert(parts.deep_view() =~= kept);
        }
    }
    let n = parts.len();
    let mut r: Vec<String> = Vec::new();
    let mut i: usize = 0;
    while i < n
        invariant
            0 <= i <= n,
            n == parts@.len(),
            n == parts.deep_view().len(),
            parts.deep_view() == kept,
            r@.len() == i,
            forall|k: int| 0 <= k < i ==> (#[trigger] r.deep_view()[k]) == spec_strip_cr(kept[k]),
        decreases n - i,
    {
        let stripped = strip_cr(&parts[i]);
        let ghost prevraw = r@;
        let ghost prevdeep = r.deep_view();
        r.push(stripped);
        proof {
            assert(r.deep_view()[i as int] == r@[i as int]@);
            assert(parts.deep_view()[i as int] == parts@[i as int]@);
            assert forall|k: int|
                0 <= k < i + 1 implies (#[trigger] r.deep_view()[k]) == spec_strip_cr(kept[k]) by {
                assert(r.deep_view()[k] == r@[k]@);
                if k < i {
                    assert(r@[k] == prevraw[k]);
                    assert(prevdeep[k] == prevraw[k]@);
                }
            }
        }
        i = i + 1;
    }
    proof {
        assert(r.deep_view() =~= kept.map_values(|l: Seq<char>| spec_strip_cr(l)));
    }
    r
}

/// The cells of each line.
pub open spec fn spec_cells(lines: Seq<Seq<char>>) -> Seq<Seq<Seq<char>>> {
    lines.map_values(|l: Seq<char>| spec_split(l, ','))
}

/// No header cell is empty.
pub open spec fn spec_header_ok(h: Seq<Seq<char>>) -> bool {
    forall|i: int| 0 <= i < h.len() ==> (#[trigger] h[i]).len() != 0
}

/// Every row has exactly the header's cell count.
pub open spec fn spec_rows_ok(h: Seq<Seq<char>>, rows: Seq<Seq<Seq<char>>>) -> bool {
    forall|i: int| 0 <= i < rows.len() ==> (#[trigger] rows[i]).len() == h.len()
}

/// A parsed CSV table.
#[derive(Debug)]
pub struct Csv {
    header: Vec<String>,
    rows: Vec<Vec<String>>,
}

impl Csv {
    /// The header's cells.
    pub closed spec fn spec_header(&self) -> Seq<Seq<char>> {
        self.header.deep_view()
    }

    /// Each row's cells.
    pub closed spec fn spec_rows(&self) -> Seq<Seq<Seq<char>>> {
        self.rows.deep_view()
    }

    /// The shape every parsed table has.
    pub open spec fn wf(&self) -> bool {
        &&& spec_header_ok(self.spec_header())
        &&& spec_rows_ok(self.spec_header(), self.spec_rows())
    }

    /// Splits one line into its cells.
    pub fn parse_line(input: &str) -> (r: Vec<String>)
        ensures
            r.deep_view() == spec_split(input@, ','),
    {
        split_char(input, ',')
    }

    /// The header's cells, for reading a parsed table.
    pub fn header(&self) -> (r: &Vec<String>)
        ensures
            r.deep_view() == self.spec_header(),
    {
        &self.header
    }

    /// The rows' cells, for reading a parsed table.
    pub fn rows(&self) -> (r: &Vec<Vec<String>>)
        ensures
            r.deep_view() == self.spec_rows(),
    {
        &self.rows
    }

    /// Parses a CSV input: the first line is the header, every further
    /// line a row. Fails when there is no line at all, when a header
    /// cell is empty, or when a row's cell count differs from the
    /// header's — and succeeds otherwise, yielding exactly the split
    /// lines.
    pub fn parse(input: &str) -> (r: Result<Csv, CsvError>)
        ensures
            ({
                let ls = spec_lines(input@);
                match r {
                    Ok(c) => {
                        &&& ls.len() > 0
                        &&& c.spec_header() == spec_split(ls[0], ',')
                        &&& c.spec_rows() == spec_cells(ls.drop_first())
                        &&& c.wf()
                    },
                    Err(CsvError::MissingHeader) => ls.len() == 0,
                    Err(CsvError::EmptyHeaderField) => ls.len() > 0 && !spec_header_ok(
                        spec_split(ls[0], ','),
                    ),
                    Err(CsvError::ColumnCountMismatch) => ls.len() > 0 && spec_header_ok(
                        spec_split(ls[0], ','),
                    ) && !spec_rows_ok(spec_split(ls[0], ','), spec_cells(ls.drop_first())),
                }
            }),
    {
        let ghost ls = spec_lines(input@);
        let lines = split_lines(input);
        if lines.len() == 0 {
            return Err(CsvError::MissingHeader);
        }
        let header = Self::parse_line(lines[0].as_str());
        proof {
            assert(lines.deep_view()[0] == lines@[0]@);
        }
        let hn = header.len();
        let mut i: usize = 0;
        while i < hn
            invariant
                0 <= i <= hn,
                hn == header@.len(),
                hn == header.deep_view().len(),
                header.deep_view() == spec_split(ls[0], ','),
                ls == spec_lines(input@),
                ls.len() > 0,
                forall|k: int| 0 <= k < i ==> (#[trigger] header.deep_view()[k]).len() != 0,
            decreases hn - i,
        {
            proof {
                assert(header.deep_view()[i as int] == header@[i as int]@);
            }
            if header[i].as_str().is_empty() {
                return Err(CsvError::EmptyHeaderField);
            }
            i = i + 1;
        }
        let ln = lines.len();
        let mut rows: Vec<Vec<String>> = Vec::new();
        let mut j: usize = 1;
        proof {
            assert(rows.deep_view() =~= spec_cells(ls.drop_first().take(0)));
        }
        while j < ln
            invariant
                1 <= j <= ln,
                ln == lines@.len(),
                ln == lines.deep_view().len(),
                lines.deep_view() == ls,
                ls == spec_lines(input@),
                ls.len() > 0,
                hn == header.deep_view().len(),
                header.deep_view() == spec_split(ls[0], ','),
                spec_header_ok(header.deep_view()),
                rows.deep_view() == spec_cells(ls.drop_first().take(j - 1)),
                forall|k: int| 0 <= k < rows.deep_view().len() ==> (
                #[trigger] rows.deep_view()[k]).len() == hn,
            decreases ln - j,
        {
            proof {
                assert(lines.deep_view()[j as int] == lines@[j as int]@);
            }
            let row = Self::parse_line(lines[j].as_str());
            if row.len() != hn {
                proof {
                    assert(ls.drop_first()[j - 1] == ls[j as int]);
                    assert(spec_cells(ls.drop_first())[j - 1] == spec_split(ls[j as int], ','));
                }
                return Err(CsvError::ColumnCountMismatch);
            }
            let ghost prevraw = rows@;
            let ghost prevdeep = rows.deep_view();
            let ghost rowdeep = row.deep_view();
            rows.push(row);
            proof {
                assert(j - 1 <= ls.drop_first().len());
                assert(prevdeep.len() == j - 1);
                assert(prevraw.len() == j - 1);
                assert(rowdeep.len() == hn);
                assert forall|k: int|
                    0 <= k < rows.deep_view().len() implies (#[trigger] rows.deep_view()[k])
                    == spec_cells(ls.drop_first().take(j as int))[k] && rows.deep_view()[k].len()
                    == hn by {
                    assert(rows.deep_view()[k] == rows@[k].deep_view());
                    if k < prevraw.len() {
                        assert(rows@[k] == prevraw[k]);
                        assert(prevdeep[k] == prevraw[k].deep_view());
                        assert(prevdeep[k] == spec_cells(ls.drop_first().take(j - 1))[k]);
                        assert(spec_cells(ls.drop_first().take(j - 1))[k] == spec_split(
                            ls.drop_first().take(j - 1)[k],
                            ',',
                        ));
                        assert(ls.drop_first().take(j - 1)[k] == ls.drop_first().take(
                            j as int,
                        )[k]);
                    } else {
                        assert(k == j - 1);
                        assert(rows@[k] == prevraw.push(rows@[k]).last());
                        assert(rows@[k].deep_view() == rowdeep);
                        assert(ls.drop_first().take(j as int)[k] == ls[j as int]);
                    }
                }
                assert(rows.deep_view() =~= spec_cells(ls.drop_first().take(j as int)));
            }
            j = j + 1;
        }
        proof {
            assert(ls.drop_first().take(ln - 1) =~= ls.drop_first());
        }
        let c = Csv { header, rows };
        Ok(c)
    }
}

/// A cell's display width: its length in bytes.
pub open spec fn spec_width(c: Seq<char>) -> int {
    (vstd::utf8::encode_utf8(c).len() as usize) as int
}

/// The widest cell of column `i` over the rows.
pub open spec fn spec_rows_width(rows: Seq<Seq<Seq<char>>>, i: int) -> int
    decreases rows.len(),
{
    if rows.len() == 0 {
        0
    } else {
        let w = spec_width(rows[0][i]);
        let rest = spec_rows_width(rows.drop_first(), i);
        if w >= rest {
            w
        } else {
            rest
        }
    }
}

/// Column `i`'s width: the widest of its header cell and its row cells.
pub open spec fn spec_col_width(h: Seq<Seq<char>>, rows: Seq<Seq<Seq<char>>>, i: int) -> int {
    let hw = spec_width(h[i]);
    let rw = spec_rows_width(rows, i);
    if hw >= rw {
        hw
    } else {
        rw
    }
}

/// No row cell is wider than its column.
proof fn lemma_rows_width_ge(rows: Seq<Seq<Seq<char>>>, i: int, j: int)
    requires
        0 <= j < rows.len(),
    ensures
        spec_width(rows[j][i]) <= spec_rows_width(rows, i),
    decreases j,
{
    if j > 0 {
        lemma_rows_width_ge(rows.drop_first(), i, j - 1);
    }
}

/// A cell padded with spaces to its column's width.
pub open spec fn spec_pad(c: Seq<char>, w: int) -> Seq<char> {
    c + spec_repeat(' ', w - spec_width(c))
}

/// Every cell of a row padded to its column's width.
pub open spec fn spec_padded(row: Seq<Seq<char>>, ws: Seq<usize>) -> Seq<Seq<char>> {
    Seq::new(row.len(), |i: int| spec_pad(row[i], ws[i] as int))
}

/// Parts joined with a separator between each two.
pub open spec fn spec_join(parts: Seq<Seq<char>>, sep: char) -> Seq<char>
    decreases parts.len(),
{
    if parts.len() == 0 {
        Seq::empty()
    } else if parts.len() == 1 {
        parts[0]
    } else {
        parts[0] + seq![sep] + spec_join(parts.drop_first(), sep)
    }
}

proof fn lemma_join_snoc(parts: Seq<Seq<char>>, sep: char, p: Seq<char>)
    ensures
        spec_join(parts.push(p), sep) == (if parts.len() == 0 {
            p
        } else {
            spec_join(parts, sep) + seq![sep] + p
        }),
    decreases parts.len(),
{
    let s1 = parts.push(p);
    if parts.len() == 0 {
        assert(s1.len() == 1);
        assert(s1[0] == p);
    } else {
        assert(s1[0] == parts[0]);
        assert(s1.drop_first() =~= parts.drop_first().push(p));
        lemma_join_snoc(parts.drop_first(), sep, p);
        if parts.len() == 1 {
            assert(parts.drop_first().len() == 0);
            assert(spec_join(s1, sep) == parts[0] + seq![sep] + p);
            assert(spec_join(parts, sep) == parts[0]);
        } else {
            assert(spec_join(s1, sep) == parts[0] + seq![sep] + (spec_join(
                parts.drop_first(),
                sep,
            ) + seq![sep] + p));
            assert(parts[0] + seq![sep] + (spec_join(parts.drop_first(), sep) + seq![sep] + p)
                =~= (parts[0] + seq![sep] + spec_join(parts.drop_first(), sep)) + seq![sep] + p);
        }
    }
}

/// A row rendered: each cell padded, cells joined with a bar.
pub open spec fn spec_row_str(row: Seq<Seq<char>>, ws: Seq<usize>) -> Seq<char> {
    spec_join(spec_padded(row, ws), '|')
}

/// The sum of the column widths.
pub open spec fn spec_sum(ws: Seq<usize>) -> int
    decreases ws.len(),
{
    if ws.len() == 0 {
        0
    } else {
        ws[0] + spec_sum(ws.drop_first())
    }
}

proof fn lemma_sum_nonneg(ws: Seq<usize>)
    ensures
        spec_sum(ws) >= 0,
    decreases ws.len(),
{
    if ws.len() > 0 {
        lemma_sum_nonneg(ws.drop_first());
    }
}

proof fn lemma_sum_snoc(ws: Seq<usize>, x: usize)
    ensures
        spec_sum(ws.push(x)) == spec_sum(ws) + x,
    decreases ws.len(),
{
    if ws.len() == 0 {
        assert(ws.push(x).drop_first() =~= Seq::<usize>::empty());
        assert(spec_sum(ws.push(x).drop_first()) == 0);
    } else {
        assert(ws.push(x)[0] == ws[0]);
        assert(ws.push(x).drop_first() =~= ws.drop_first().push(x));
        lemma_sum_snoc(ws.drop_first(), x);
    }
}

/// The rule under the header: one dash per cell byte plus one per bar.
pub open spec fn spec_sep_line(ws: Seq<usize>) -> Seq<char> {
    spec_repeat('-', spec_sum(ws) + ws.len() - 1)
}

/// The whole rendered table: the header row, the rule, then the rows,
/// one per line.
pub open spec fn spec_table(h: Seq<Seq<char>>, rows: Seq<Seq<Seq<char>>>) -> Seq<char> {
    let ws = Seq::new(h.len(), |i: int| spec_col_width(h, rows, i) as usize);
    spec_row_str(h, ws) + seq!['\n'] + spec_sep_line(ws) + seq!['\n'] + spec_join(
        rows.map_values(|row: Seq<Seq<char>>| spec_row_str(row, ws)),
        '\n',
    )
}

fn row_to_string(row: &Vec<String>, cols_widths: &Vec<usize>) -> (r: String)
    requires
        row@.len() == cols_widths@.len(),
        forall|i: int| 0 <= i < row@.len() ==> spec_width(#[trigger] row.deep_view()[i])
            <= cols_widths@[i],
    ensures
        r@ == spec_row_str(row.deep_view(), cols_widths@),
{
    let n = row.len();
    let ghost padded = spec_padded(row.deep_view(), cols_widths@);
    let mut out = String::new();
    let mut i: usize = 0;
    proof {
        assert(spec_join(padded.take(0), '|') =~= Seq::<char>::empty());
    }
    while i < n
        invariant
            0 <= i <= n,
            n == row@.len(),
            n == row.deep_view().len(),
            n == cols_widths@.len(),
            padded == spec_padded(row.deep_view(), cols_widths@),
            forall|k: int| 0 <= k < n ==> spec_width(#[trigger] row.deep_view()[k])
                <= cols_widths@[k],
            out@ == spec_join(padded.take(i as int), '|'),
        decreases n - i,
    {
        let ghost prev = out@;
        if i > 0 {
            push_char(&mut out, '|');
        }
        let cell_len = row[i].as_str().len();
        out.append(row[i].as_str());
        proof {
            assert(row.deep_view()[i as int] == row@[i as int]@);
            assert(cell_len as int == spec_width(row.deep_view()[i as int]));
        }
        append_repeat(&mut out, ' ', cols_widths[i] - cell_len);
        proof {
            let cell = row.deep_view()[i as int];
            let w = cols_widths@[i as int] as int;
            assert(padded[i as int] == spec_pad(cell, w));
            assert(padded.take(i + 1) =~= padded.take(i as int).push(padded[i as int]));
            lemma_join_snoc(padded.take(i as int), '|', padded[i as int]);
            if i == 0 {
                assert(out@ =~= spec_pad(cell, w));
                assert(out@ =~= spec_join(padded.take(1), '|'));
            } else {
                assert(out@ =~= prev + seq!['|'] + spec_pad(cell, w));
                assert(out@ =~= spec_join(padded.take(i + 1), '|'));
            }
        }
        i = i + 1;
    }
    proof {
        assert(padded.take(n as int) =~= padded);
    }
    out
}

impl Csv {
    /// Each column's width: the widest cell in it, header included.
    pub fn get_cols_widths(&self) -> (r: Vec<usize>)
        requires
            self.wf(),
        ensures
            r@.len() == self.spec_header().len(),
            forall|i: int| 0 <= i < r@.len() ==> (#[trigger] r@[i]) as int == spec_col_width(
                self.spec_header(),
                self.spec_rows(),
                i,
            ),
    {
        let hn = self.header.len();
        let rn = self.rows.len();
        let mut r: Vec<usize> = Vec::new();
        let mut i: usize = 0;
        while i < hn
            invariant
                0 <= i <= hn,
                hn == self.header@.len(),
                hn == self.spec_header().len(),
                rn == self.rows@.len(),
                rn == self.spec_rows().len(),
                self.wf(),
                r@.len() == i,
                forall|k: int| 0 <= k < i ==> (#[trigger] r@[k]) as int == spec_col_width(
                    self.spec_header(),
                    self.spec_rows(),
                    k,
                ),
            decreases hn - i,
        {
            let mut w: usize = self.header[i].as_str().len();
            proof {
                assert(self.spec_header()[i as int] == self.header@[i as int]@);
                assert(w as int == spec_width(self.spec_header()[i as int]));
                assert(self.spec_rows().skip(0) =~= self.spec_rows());
            }
            let mut j: usize = 0;
            while j < rn
                invariant
                    0 <= j <= rn,
                    0 <= i < hn,
                    hn == self.header@.len(),
                    hn == self.spec_header().len(),
                    rn == self.rows@.len(),
                    rn == self.spec_rows().len(),
                    self.wf(),
                    w as int <= spec_col_width(self.spec_header(), self.spec_rows(), i as int),
                    ({
                        let full = spec_col_width(self.spec_header(), self.spec_rows(), i as int);
                        let rest = spec_rows_width(self.spec_rows().skip(j as int), i as int);
                        full == (if w as int >= rest {
                            w as int
                        } else {
                            rest
                        })
                    }),
                decreases rn - j,
            {
                proof {
                    assert(self.spec_rows()[j as int] == self.rows@[j as int].deep_view());
                    assert(self.spec_rows()[j as int].len() == hn);
                    assert(self.rows@[j as int].deep_view().len() == self.rows@[j as int]@.len());
                    assert(self.spec_rows().skip(j as int)[0] == self.spec_rows()[j as int]);
                    assert(self.spec_rows().skip(j as int).drop_first() =~= self.spec_rows().skip(
                        j + 1,
                    ));
                }
                let wj = self.rows[j][i].as_str().len();
                proof {
                    assert(self.spec_rows()[j as int][i as int] == self.rows@[j as int]@[
                        i as int
                    ]@);
                    assert(wj as int == spec_width(self.spec_rows()[j as int][i as int]));
                }
                if wj > w {
                    w = wj;
                }
                j = j + 1;
            }
            proof {
                assert(self.spec_rows().skip(rn as int).len() == 0);
                assert(spec_rows_width(self.spec_rows().skip(rn as int), i as int) == 0);
                assert(w as int == spec_col_width(self.spec_header(), self.spec_rows(), i as int));
            }
            r.push(w);
            i = i + 1;
        }
        r
    }

    /// Renders the table: the header row, a rule of dashes as wide as
    /// the table, then each row on its own line, every cell padded to
    /// its column's width and cells separated by bars.
    pub fn stringify(&self) -> (r: String)
        requires
            self.wf(),
        ensures
            r@ == spec_table(self.spec_header(), self.spec_rows()),
    {
        let widths = self.get_cols_widths();
        let ghost ws = Seq::new(self.spec_header().len(), |i: int| spec_col_width(
            self.spec_header(),
            self.spec_rows(),
            i,
        ) as usize);
        proof {
            assert(widths@ =~= ws);
            assert forall|i: int| 0 <= i < self.header@.len() implies spec_width(
                #[trigger] self.header.deep_view()[i]) <= widths@[i] by {
                assert(self.spec_header()[i] == self.header.deep_view()[i]);
            }
        }
        let mut out = row_to_string(&self.header, &widths);
        push_char(&mut out, '\n');
        let ghost header_part = spec_row_str(self.spec_header(), ws) + seq!['\n'];
        proof {
            assert(out@ =~= header_part);
        }
        let wn = widths.len();
        let mut i: usize = 0;
        proof {
            assert(spec_sum(widths@.take(0)) == 0);
        }
        while i < wn
            invariant
                0 <= i <= wn,
                wn == widths@.len(),
                out@ == header_part + spec_repeat(
                    '-',
                    spec_sum(widths@.take(i as int)) + (if i == 0 {
                        0int
                    } else {
                        i - 1
                    }),
                ),
            decreases wn - i,
        {
            let ghost count_before = spec_sum(widths@.take(i as int)) + (if i == 0 {
                0int
            } else {
                i as int - 1
            });
            if i > 0 {
                push_char(&mut out, '-');
                proof {
                    lemma_sum_nonneg(widths@.take(i as int));
                    assert(spec_repeat('-', 0) == Seq::<char>::empty());
                    assert(spec_repeat('-', 1) =~= seq!['-']);
                    assert(spec_repeat('-', count_before).push('-') =~= spec_repeat(
                        '-',
                        count_before,
                    ) + spec_repeat('-', 1));
                    lemma_repeat_add('-', count_before, 1);
                    assert(out@ =~= header_part + spec_repeat('-', count_before + 1));
                }
            }
            let ghost count_mid = count_before + (if i == 0 {
                0int
            } else {
                1int
            });
            append_repeat(&mut out, '-', widths[i]);
            proof {
                lemma_sum_nonneg(widths@.take(i as int));
                lemma_repeat_add('-', count_mid, widths@[i as int] as int);
                assert((header_part + spec_repeat('-', count_mid)) + spec_repeat(
                    '-',
                    widths@[i as int] as int,
                ) =~= header_part + (spec_repeat('-', count_mid) + spec_repeat(
                    '-',
                    widths@[i as int] as int,
                )));
                assert(widths@.take(i + 1) =~= widths@.take(i as int).push(widths@[i as int]));
                lemma_sum_snoc(widths@.take(i as int), widths@[i as int]);
            }
            i = i + 1;
        }
        proof {
            assert(widths@.take(wn as int) =~= widths@);
            if wn == 0 {
                assert(spec_sum(widths@) + widths@.len() - 1 <= 0);
                assert(spec_repeat('-', 0) =~= Seq::<char>::empty());
                assert(spec_repeat('-', spec_sum(widths@) + widths@.len() - 1)
                    =~= Seq::<char>::empty());
            }
            assert(out@ =~= header_part + spec_sep_line(ws));
        }
        push_char(&mut out, '\n');
        let ghost top = header_part + spec_sep_line(ws) + seq!['\n'];
        proof {
            assert(out@ =~= top);
        }
        let ghost rowstrs = self.spec_rows().map_values(
            |row: Seq<Seq<char>>| spec_row_str(row, ws),
        );
        let rn = self.rows.len();
        let mut j: usize = 0;
        proof {
            assert(spec_join(rowstrs.take(0), '\n') =~= Seq::<char>::empty());
            assert(out@ =~= top + spec_join(rowstrs.take(0), '\n'));
        }
        while j < rn
            invariant
                0 <= j <= rn,
                rn == self.rows@.len(),
                rn == self.spec_rows().len(),
                self.wf(),
                wn == widths@.len(),
                wn == self.spec_header().len(),
                widths@ == ws,
                forall|k: int| 0 <= k < widths@.len() ==> (#[trigger] widths@[k]) as int
                    == spec_col_width(self.spec_header(), self.spec_rows(), k),
                rowstrs == self.spec_rows().map_values(
                    |row: Seq<Seq<char>>| spec_row_str(row, ws),
                ),
                top == header_part + spec_sep_line(ws) + seq!['\n'],
                out@ == top + spec_join(rowstrs.take(j as int), '\n'),
            decreases rn - j,
        {
            let ghost prev = out@;
            if j > 0 {
                push_char(&mut out, '\n');
            }
            proof {
                assert(self.spec_rows()[j as int] == self.rows@[j as int].deep_view());
                assert(self.spec_rows()[j as int].len() == self.spec_header().len());
                assert(self.rows@[j as int].deep_view().len() == self.rows@[j as int]@.len());
                assert forall|k: int|
                    0 <= k < self.rows@[j as int]@.len() implies spec_width(
                    #[trigger] self.rows@[j as int].deep_view()[k]) <= widths@[k] by {
                    lemma_rows_width_ge(self.spec_rows(), k, j as int);
                }
            }
            let rs = row_to_string(&self.rows[j], &widths);
            out.append(rs.as_str());
            proof {
                assert(rowstrs[j as int] == spec_row_str(self.spec_rows()[j as int], ws));
                assert(rowstrs.take(j + 1) =~= rowstrs.take(j as int).push(rowstrs[j as int]));
                lemma_join_snoc(rowstrs.take(j as int), '\n', rowstrs[j as int]);
                if j == 0 {
                    assert(out@ =~= top + spec_join(rowstrs.take(1), '\n'));
                } else {
                    assert(out@ =~= (prev + seq!['\n']) + rowstrs[j as int]);
                    assert(out@ =~= top + (spec_join(rowstrs.take(j as int), '\n') + seq!['\n']
                        + rowstrs[j as int]));
                    assert(out@ =~= top + spec_join(rowstrs.take(j + 1), '\n'));
                }
            }
            j = j + 1;
        }
        proof {
            assert(rowstrs.take(rn as int) =~= rowstrs);
            assert(out@ =~= spec_table(self.spec_header(), self.spec_rows()));
        }
        out
    }
}

/// Parses and renders in one step: the CSV text transformation.
pub fn csv(input: &str) -> (r: Result<String, CsvError>)
    ensures
        ({
            let ls = spec_lines(input@);
            match r {
                Ok(s) => {
                    &&& ls.len() > 0
                    &&& spec_header_ok(spec_split(ls[0], ','))
                    &&& spec_rows_ok(spec_split(ls[0], ','), spec_cells(ls.drop_first()))
                    &&& s@ == spec_table(spec_split(ls[0], ','), spec_cells(ls.drop_first()))
                },
                Err(CsvError::MissingHeader) => ls.len() == 0,
                Err(CsvError::EmptyHeaderField) => ls.len() > 0 && !spec_header_ok(
                    spec_split(ls[0], ','),
                ),
                Err(CsvError::ColumnCountMismatch) => ls.len() > 0 && spec_header_ok(
                    spec_split(ls[0], ','),
                ) && !spec_rows_ok(spec_split(ls[0], ','), spec_cells(ls.drop_first())),
            }
        }),
{
    match Csv::parse(input) {
        Ok(c) => Ok(c.stringify()),
        Err(e) => Err(e),
    }
}

} // verus!
