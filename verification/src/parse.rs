//! Parsing two whitespace-separated columns, `y_true y_score`, one sample per line.
//!
//! The text is cut into lines at each `'\n'`; a line's fields are its maximal
//! runs of non-whitespace characters (Unicode `White_Space`). A line without
//! fields is skipped. A line with one field, or more than two, is an error;
//! so is a label other than `0`, `0.0`, `1` or `1.0`. Lines are numbered from
//! 1 and the first error stops the scan.
//!
//! Reading the score field as a double is left to the caller: `scan_rows`
//! hands out each row's score text, and `assemble_samples` takes the parsed
//! bit patterns back, rejects NaN and infinite scores, reports the first
//! error in line order, and builds the samples.
use vstd::prelude::*;
use crate::samples::Samples;
use crate::score::is_finite;

verus! {

/// Unicode `White_Space`, the characters `char::is_whitespace` accepts.
pub open spec fn is_space(c: char) -> bool {
    let u = c as u32;
    ||| u == 0x20
    ||| (0x09 <= u && u <= 0x0D)
    ||| u == 0x85
    ||| u == 0xA0
    ||| u == 0x1680
    ||| (0x2000 <= u && u <= 0x200A)
    ||| u == 0x2028
    ||| u == 0x2029
    ||| u == 0x202F
    ||| u == 0x205F
    ||| u == 0x3000
}

/// Whether `c` is whitespace.
pub fn is_space_char(c: char) -> (r: bool)
    ensures
        r == is_space(c),
{
    let u = c as u32;
    u == 0x20 || (0x09 <= u && u <= 0x0D) || u == 0x85 || u == 0xA0 || u == 0x1680 || (0x2000
        <= u && u <= 0x200A) || u == 0x2028 || u == 0x2029 || u == 0x202F || u == 0x205F || u
        == 0x3000
}

/// Length of the run of non-whitespace characters that starts `t`.
pub open spec fn word_len(t: Seq<char>) -> nat
    decreases t.len(),
{
    if t.len() == 0 || is_space(t[0]) {
        0
    } else {
        1 + word_len(t.drop_first())
    }
}

/// Length of `t` up to its first newline.
pub open spec fn line_len(t: Seq<char>) -> nat
    decreases t.len(),
{
    if t.len() == 0 || t[0] == '\n' {
        0
    } else {
        1 + line_len(t.drop_first())
    }
}

pub proof fn lemma_word_len_bound(t: Seq<char>)
    ensures
        word_len(t) <= t.len(),
        t.len() > 0 && !is_space(t[0]) ==> word_len(t) >= 1,
    decreases t.len(),
{
    if t.len() > 0 && !is_space(t[0]) {
        lemma_word_len_bound(t.drop_first());
    }
}

pub proof fn lemma_line_len_bound(t: Seq<char>)
    ensures
        line_len(t) <= t.len(),
    decreases t.len(),
{
    if t.len() > 0 && t[0] != '\n' {
        lemma_line_len_bound(t.drop_first());
    }
}

/// The fields of a line: its maximal runs of non-whitespace characters.
pub open spec fn fields(t: Seq<char>) -> Seq<Seq<char>>
    decreases t.len(),
{
    if t.len() == 0 {
        Seq::empty()
    } else if is_space(t[0]) {
        fields(t.drop_first())
    } else {
        let w = word_len(t);
        proof {
            lemma_word_len_bound(t);
        }
        seq![t.take(w as int)] + fields(t.skip(w as int))
    }
}

/// The label a field spells: `0` or `0.0` is 0, `1` or `1.0` is 1.
pub open spec fn label_of(t: Seq<char>) -> Option<u8> {
    if t == seq!['0'] || t == seq!['0', '.', '0'] {
        Some(0u8)
    } else if t == seq!['1'] || t == seq!['1', '.', '0'] {
        Some(1u8)
    } else {
        None
    }
}

/// Why the text does not give samples.
#[derive(Debug)]
pub enum ParseError {
    /// A line holds a single field.
    MissingColumns { line: usize },
    /// A line holds more than two fields.
    ExtraColumns { line: usize },
    /// The label field is not binary.
    BadLabel { line: usize, field: Vec<char> },
    /// The score field is not a number.
    NotANumber { line: usize, field: Vec<char> },
    /// The score is infinite or NaN.
    NotFinite { line: usize, field: Vec<char> },
    /// No line holds a sample.
    Empty,
}

/// A parse error with its fields as sequences.
pub enum ErrorView {
    MissingColumns(nat),
    ExtraColumns(nat),
    BadLabel(nat, Seq<char>),
    NotANumber(nat, Seq<char>),
    NotFinite(nat, Seq<char>),
    Empty,
}

impl View for ParseError {
    type V = ErrorView;

    open spec fn view(&self) -> ErrorView {
        match self {
            ParseError::MissingColumns { line } => ErrorView::MissingColumns(*line as nat),
            ParseError::ExtraColumns { line } => ErrorView::ExtraColumns(*line as nat),
            ParseError::BadLabel { line, field } => ErrorView::BadLabel(*line as nat, field@),
            ParseError::NotANumber { line, field } => ErrorView::NotANumber(*line as nat, field@),
            ParseError::NotFinite { line, field } => ErrorView::NotFinite(*line as nat, field@),
            ParseError::Empty => ErrorView::Empty,
        }
    }
}

/// A line that holds a sample: its number, its label, and its score field.
#[derive(Debug)]
pub struct Row {
    pub line: usize,
    pub label: u8,
    pub score: Vec<char>,
}

/// A row with its score field as a sequence.
pub struct RowView {
    pub line: nat,
    pub label: u8,
    pub score: Seq<char>,
}

impl View for Row {
    type V = RowView;

    open spec fn view(&self) -> RowView {
        RowView { line: self.line as nat, label: self.label, score: self.score@ }
    }
}

/// What one line gives.
pub enum LineOutcome {
    Blank,
    Fail(ErrorView),
    Sample(RowView),
}

/// What line number `no` gives.
pub open spec fn line_outcome(line: Seq<char>, no: nat) -> LineOutcome {
    let f = fields(line);
    if f.len() == 0 {
        LineOutcome::Blank
    } else if f.len() == 1 {
        LineOutcome::Fail(ErrorView::MissingColumns(no))
    } else if f.len() > 2 {
        LineOutcome::Fail(ErrorView::ExtraColumns(no))
    } else {
        match label_of(f[0]) {
            None => LineOutcome::Fail(ErrorView::BadLabel(no, f[0])),
            Some(l) => LineOutcome::Sample(RowView { line: no, label: l, score: f[1] }),
        }
    }
}

/// The rows scanned from a text, and the error that stopped the scan, if any.
#[derive(Debug)]
pub struct RowScan {
    pub rows: Vec<Row>,
    pub stop: Option<ParseError>,
}

/// A scan with its parts as sequences.
pub struct ScanView {
    pub rows: Seq<RowView>,
    pub stop: Option<ErrorView>,
}

/// The view of an optional error.
pub open spec fn stop_view(stop: Option<ParseError>) -> Option<ErrorView> {
    match stop {
        Some(e) => Some(e@),
        None => None,
    }
}

impl View for RowScan {
    type V = ScanView;

    open spec fn view(&self) -> ScanView {
        ScanView { rows: self.rows@.map_values(|r: Row| r@), stop: stop_view(self.stop) }
    }
}

/// Scan `t`, whose first line has number `no`: the rows of the lines before
/// the first failing one, and that failure.
pub open spec fn scan_text(t: Seq<char>, no: nat) -> ScanView
    decreases t.len(),
{
    let e = line_len(t);
    proof {
        lemma_line_len_bound(t);
    }
    let here = line_outcome(t.take(e as int), no);
    let rest = if e < t.len() {
        scan_text(t.skip(e + 1 as int), no + 1)
    } else {
        ScanView { rows: Seq::empty(), stop: None }
    };
    match here {
        LineOutcome::Fail(err) => ScanView { rows: Seq::empty(), stop: Some(err) },
        LineOutcome::Blank => rest,
        LineOutcome::Sample(r) => ScanView { rows: seq![r] + rest.rows, stop: rest.stop },
    }
}

/// The characters of `text`.
fn chars_of(text: &str) -> (v: Vec<char>)
    ensures
        v@ == text@,
{
    let mut v: Vec<char> = Vec::new();
    for c in it: text.chars()
        invariant
            v@ == it.seq().take(it.index() as int),
    {
        v.push(c);
    }
    v
}


/// A run of non-whitespace characters as long as `k` ends where whitespace or the text ends.
proof fn lemma_word_len_is(t: Seq<char>, k: int)
    requires
        0 <= k <= t.len(),
        forall|i: int| 0 <= i < k ==> !is_space(#[trigger] t[i]),
        k == t.len() || is_space(t[k]),
    ensures
        word_len(t) == k,
    decreases k,
{
    if k > 0 {
        let d = t.drop_first();
        assert forall|i: int| 0 <= i < k - 1 implies !is_space(#[trigger] d[i]) by {
            assert(d[i] == t[i + 1]);
        }
        if k < t.len() {
            assert(d[k - 1] == t[k]);
        }
        lemma_word_len_is(d, k - 1);
    }
}

/// A line as long as `k` ends at a newline or at the end of the text.
proof fn lemma_line_len_is(t: Seq<char>, k: int)
    requires
        0 <= k <= t.len(),
        forall|i: int| 0 <= i < k ==> #[trigger] t[i] != '\n',
        k == t.len() || t[k] == '\n',
    ensures
        line_len(t) == k,
    decreases k,
{
    if k > 0 {
        let d = t.drop_first();
        assert forall|i: int| 0 <= i < k - 1 implies #[trigger] d[i] != '\n' by {
            assert(d[i] == t[i + 1]);
        }
        if k < t.len() {
            assert(d[k - 1] == t[k]);
        }
        lemma_line_len_is(d, k - 1);
    }
}

/// How many fields `cs[start..end]` holds, counting no further than 3, and
/// the first two.
fn scan_fields(cs: &Vec<char>, start: usize, end: usize) -> (r: (usize, Vec<char>, Vec<char>))
    requires
        start <= end <= cs@.len(),
    ensures
        r.0 <= 3,
        r.0 < 3 ==> r.0 == fields(cs@.subrange(start as int, end as int)).len(),
        r.0 == 3 ==> fields(cs@.subrange(start as int, end as int)).len() >= 3,
        r.0 >= 1 ==> r.1@ == fields(cs@.subrange(start as int, end as int))[0],
        r.0 >= 2 ==> r.2@ == fields(cs@.subrange(start as int, end as int))[1],
{
    let ghost whole = fields(cs@.subrange(start as int, end as int));
    let ghost mut found: Seq<Seq<char>> = Seq::empty();
    let mut first: Vec<char> = Vec::new();
    let mut second: Vec<char> = Vec::new();
    let mut count: usize = 0;
    let mut p = start;
    while p < end && count < 3
        invariant
            start <= p <= end,
            end <= cs@.len(),
            whole == fields(cs@.subrange(start as int, end as int)),
            whole == found + fields(cs@.subrange(p as int, end as int)),
            found.len() == count,
            count <= 3,
            count >= 1 ==> first@ == found[0],
            count >= 2 ==> second@ == found[1],
        decreases end - p,
    {
        let ghost rest = cs@.subrange(p as int, end as int);
        if is_space_char(cs[p]) {
            assert(rest.drop_first() =~= cs@.subrange(p + 1, end as int));
            p = p + 1;
        } else {
            let mut word: Vec<char> = Vec::new();
            let mut q = p;
            while q < end && !is_space_char(cs[q])
                invariant
                    p <= q <= end,
                    end <= cs@.len(),
                    word@ =~= cs@.subrange(p as int, q as int),
                    forall|i: int| p <= i < q ==> !is_space(#[trigger] cs@[i]),
                decreases end - q,
            {
                word.push(cs[q]);
                q = q + 1;
            }
            proof {
                assert forall|i: int| 0 <= i < q - p implies !is_space(#[trigger] rest[i]) by {
                    assert(rest[i] == cs@[p + i]);
                }
                if q < end {
                    assert(rest[q - p] == cs@[q as int]);
                }
                lemma_word_len_is(rest, q - p);
                assert(rest.take(q - p) =~= cs@.subrange(p as int, q as int));
                assert(rest.skip(q - p) =~= cs@.subrange(q as int, end as int));
                assert(fields(rest) == seq![word@] + fields(cs@.subrange(q as int, end as int)));
                assert(found + fields(rest) =~= found.push(word@) + fields(
                    cs@.subrange(q as int, end as int),
                ));
            }
            if count == 0 {
                first = word;
            } else if count == 1 {
                second = word;
            }
            proof {
                found = found.push(cs@.subrange(p as int, q as int));
            }
            count = count + 1;
            p = q;
        }
    }
    proof {
        if count < 3 {
            assert(cs@.subrange(p as int, end as int).len() == 0);
            assert(whole =~= found);
        }
    }
    (count, first, second)
}

/// The label a field spells.
fn label_value(t: &Vec<char>) -> (r: Option<u8>)
    ensures
        r == label_of(t@),
{
    let n = t.len();
    let zero = (n == 1 && t[0] == '0') || (n == 3 && t[0] == '0' && t[1] == '.' && t[2] == '0');
    let one = (n == 1 && t[0] == '1') || (n == 3 && t[0] == '1' && t[1] == '.' && t[2] == '0');
    proof {
        if n == 1 {
            assert(t@ == seq!['0'] <==> t@[0] == '0') by {
                if t@[0] == '0' {
                    assert(t@ =~= seq!['0']);
                }
            }
            assert(t@ == seq!['1'] <==> t@[0] == '1') by {
                if t@[0] == '1' {
                    assert(t@ =~= seq!['1']);
                }
            }
        }
        if n == 3 {
            assert(t@ == seq!['0', '.', '0'] <==> (t@[0] == '0' && t@[1] == '.' && t@[2] == '0')) by {
                if t@[0] == '0' && t@[1] == '.' && t@[2] == '0' {
                    assert(t@ =~= seq!['0', '.', '0']);
                }
            }
            assert(t@ == seq!['1', '.', '0'] <==> (t@[0] == '1' && t@[1] == '.' && t@[2] == '0')) by {
                if t@[0] == '1' && t@[1] == '.' && t@[2] == '0' {
                    assert(t@ =~= seq!['1', '.', '0']);
                }
            }
        }
    }
    if zero {
        Some(0)
    } else if one {
        Some(1)
    } else {
        None
    }
}

/// Scan `text` into rows: for every line that holds fields, in order, its
/// label and score field, up to the first line that fails, whose error ends
/// the scan.
pub fn scan_rows(text: &str) -> (r: RowScan)
    ensures
        r@ == scan_text(text@, 1),
        forall|i: int| 0 <= i < r.rows@.len() ==> #[trigger] r.rows@[i].label <= 1,
{
    let cs = chars_of(text);
    let len = cs.len();
    let mut rows: Vec<Row> = Vec::new();
    let mut p: usize = 0;
    let mut done_lines: usize = 0;
    assert(cs@.subrange(0, len as int) =~= cs@);
    assert(rows@.map_values(|r: Row| r@) + scan_text(cs@, 1).rows =~= scan_text(cs@, 1).rows);
    loop
        invariant
            p <= len,
            len == cs@.len(),
            cs@ == text@,
            done_lines <= p,
            forall|i: int| 0 <= i < rows@.len() ==> #[trigger] rows@[i].label <= 1,
            scan_text(cs@, 1) == (ScanView {
                rows: rows@.map_values(|r: Row| r@) + scan_text(
                    cs@.subrange(p as int, len as int),
                    (done_lines + 1) as nat,
                ).rows,
                stop: scan_text(cs@.subrange(p as int, len as int), (done_lines + 1) as nat).stop,
            }),
        decreases len - p,
    {
        let ghost t = cs@.subrange(p as int, len as int);
        let ghost rows_before = rows@.map_values(|r: Row| r@);
        let mut e = p;
        while e < len && cs[e] != '\n'
            invariant
                p <= e <= len,
                len == cs@.len(),
                forall|i: int| p <= i < e ==> #[trigger] cs@[i] != '\n',
            decreases len - e,
        {
            e = e + 1;
        }
        proof {
            assert forall|i: int| 0 <= i < e - p implies #[trigger] t[i] != '\n' by {
                assert(t[i] == cs@[p + i]);
            }
            if e < len {
                assert(t[e - p] == cs@[e as int]);
            }
            lemma_line_len_is(t, e - p);
            assert(t.take(e - p) =~= cs@.subrange(p as int, e as int));
            if e < len {
                assert(t.skip(e - p + 1) =~= cs@.subrange(e + 1, len as int));
            }
        }
        let ghost no = (done_lines + 1) as nat;
        let ghost here = line_outcome(cs@.subrange(p as int, e as int), no);
        let ghost rest = if e < len {
            scan_text(cs@.subrange(e + 1, len as int), no + 1)
        } else {
            ScanView { rows: Seq::empty(), stop: None }
        };
        let (count, first, second) = scan_fields(&cs, p, e);
        proof {
            if p == e {
                assert(cs@.subrange(p as int, e as int).len() == 0);
            }
        }
        let failure = if count == 0 {
            None
        } else if count == 1 {
            Some(ParseError::MissingColumns { line: done_lines + 1 })
        } else if count == 3 {
            Some(ParseError::ExtraColumns { line: done_lines + 1 })
        } else {
            match label_value(&first) {
                None => Some(ParseError::BadLabel { line: done_lines + 1, field: first }),
                Some(label) => {
                    rows.push(Row { line: done_lines + 1, label, score: second });
                    proof {
                        assert(rows@.map_values(|r: Row| r@) =~= rows_before.push(
                            RowView { line: no, label, score: second@ },
                        ));
                    }
                    None
                },
            }
        };
        match failure {
            Some(err) => {
                let r = RowScan { rows, stop: Some(err) };
                proof {
                    assert(here matches LineOutcome::Fail(v) && v == err@);
                    assert(r@ =~= scan_text(cs@, 1));
                }
                return r;
            },
            None => {},
        }
        proof {
            if count == 0 {
                assert(rows@.map_values(|r: Row| r@) =~= rows_before);
            } else {
                assert(rows_before + scan_text(t, no).rows =~= rows@.map_values(
                    |r: Row| r@,
                ) + rest.rows);
            }
        }
        if e == len {
            let r = RowScan { rows, stop: None };
            proof {
                assert(r@.rows =~= rows@.map_values(|r: Row| r@) + Seq::<RowView>::empty());
            }
            return r;
        }
        p = e + 1;
        done_lines = done_lines + 1;
    }
}


/// A copy of `v`.
fn copy_chars(v: &Vec<char>) -> (r: Vec<char>)
    ensures
        r@ == v@,
{
    let mut r: Vec<char> = Vec::new();
    let mut k: usize = 0;
    while k < v.len()
        invariant
            k <= v@.len(),
            r@ =~= v@.take(k as int),
        decreases v@.len() - k,
    {
        r.push(v[k]);
        k = k + 1;
    }
    assert(r@ =~= v@);
    r
}

/// The error a row's parsed score gives: none for a finite score.
pub open spec fn score_error(row: RowView, score: Option<u64>) -> Option<ErrorView> {
    match score {
        None => Some(ErrorView::NotANumber(row.line, row.score)),
        Some(b) => if is_finite(b) {
            None
        } else {
            Some(ErrorView::NotFinite(row.line, row.score))
        },
    }
}

/// The first score error among the rows, in order.
pub open spec fn first_score_error(rows: Seq<RowView>, scores: Seq<Option<u64>>) -> Option<ErrorView>
    decreases rows.len(),
{
    if rows.len() == 0 {
        None
    } else {
        match score_error(rows[0], scores[0]) {
            Some(e) => Some(e),
            None => first_score_error(rows.drop_first(), scores.drop_first()),
        }
    }
}

/// What a scan and the parsed scores of its rows give: the first error in
/// line order, or, when there is none and some row was read, the labels and
/// the score patterns.
pub open spec fn assembled(scan: ScanView, scores: Seq<Option<u64>>) -> Result<
    (Seq<u8>, Seq<u64>),
    ErrorView,
> {
    match first_score_error(scan.rows, scores) {
        Some(e) => Err(e),
        None => match scan.stop {
            Some(e) => Err(e),
            None => if scan.rows.len() == 0 {
                Err(ErrorView::Empty)
            } else {
                Ok(
                    (
                        scan.rows.map_values(|r: RowView| r.label),
                        scores.map_values(|o: Option<u64>| o.unwrap()),
                    ),
                )
            },
        },
    }
}

/// No row gives a score error exactly when every row's score parsed to a
/// finite number.
proof fn lemma_no_score_error(rows: Seq<RowView>, scores: Seq<Option<u64>>)
    requires
        rows.len() == scores.len(),
    ensures
        first_score_error(rows, scores) is None <==> forall|i: int|
            0 <= i < scores.len() ==> #[trigger] scores[i] is Some && is_finite(scores[i].unwrap()),
    decreases rows.len(),
{
    if rows.len() > 0 {
        let rest = scores.drop_first();
        lemma_no_score_error(rows.drop_first(), rest);
        if first_score_error(rows, scores) is None {
            assert forall|i: int| 0 <= i < scores.len() implies #[trigger] scores[i] is Some
                && is_finite(scores[i].unwrap()) by {
                if i > 0 {
                    assert(scores[i] == rest[i - 1]);
                }
            }
        } else if score_error(rows[0], scores[0]) is None {
            let i = choose|i: int|
                0 <= i < rest.len() && !(#[trigger] rest[i] is Some && is_finite(rest[i].unwrap()));
            assert(scores[i + 1] == rest[i]);
        }
    }
}

/// Law: assembling succeeds exactly when every row's score parsed to a
/// finite number, the scan stopped at no error, and it read at least one
/// row. The samples it then gives back have only finite scores, one per row,
/// and a label per row.
pub proof fn lemma_assembled_ok(scan: ScanView, scores: Seq<Option<u64>>)
    requires
        scores.len() == scan.rows.len(),
    ensures
        assembled(scan, scores) is Ok <==> ((forall|i: int|
            0 <= i < scores.len() ==> #[trigger] scores[i] is Some && is_finite(scores[i].unwrap()))
            && scan.stop is None && scan.rows.len() > 0),
        assembled(scan, scores) matches Ok(p) ==> p.0.len() == scan.rows.len() && p.1.len()
            == scan.rows.len() && forall|k: int| 0 <= k < p.1.len() ==> is_finite(#[trigger] p.1[k]),
{
    lemma_no_score_error(scan.rows, scores);
    if assembled(scan, scores) is Ok {
        let b = scores.map_values(|o: Option<u64>| o.unwrap());
        assert forall|k: int| 0 <= k < b.len() implies is_finite(#[trigger] b[k]) by {
            assert(scores[k] is Some && is_finite(scores[k].unwrap()));
        }
    }
}

/// Build the samples from a scan and the parsed score of each of its rows
/// (`None` for a field that is not a number).
#[verifier::loop_isolation(false)]
pub fn assemble_samples(scan: RowScan, scores: Vec<Option<u64>>) -> (r: Result<Samples, ParseError>)
    requires
        scores@.len() == scan.rows@.len(),
        forall|i: int| 0 <= i < scan.rows@.len() ==> #[trigger] scan.rows@[i].label <= 1,
    ensures
        match r {
            Ok(s) => assembled(scan@, scores@) == Ok::<(Seq<u8>, Seq<u64>), ErrorView>(
                (s.y_true@, s.y_score@),
            ) && s.wf() && s.size() == scores@.len() && s.size() > 0 && forall|k: int|
                0 <= k < s.size() ==> is_finite(#[trigger] s.y_score@[k]),
            Err(e) => assembled(scan@, scores@) == Err::<(Seq<u8>, Seq<u64>), ErrorView>(e@),
        },
{
    let ghost rows = scan@.rows;
    let ghost sc = scores@;
    let RowScan { rows: row_vec, stop } = scan;
    let n = row_vec.len();
    let mut y_true: Vec<u8> = Vec::new();
    let mut y_score: Vec<u64> = Vec::new();
    let mut i: usize = 0;
    assert(rows.skip(0) =~= rows);
    assert(sc.skip(0) =~= sc);
    while i < n
        invariant
            i <= n,
            n == row_vec@.len(),
            rows == row_vec@.map_values(|r: Row| r@),
            sc == scores@,
            sc.len() == n,
            forall|k: int| 0 <= k < n ==> #[trigger] row_vec@[k].label <= 1,
            first_score_error(rows, sc) == first_score_error(rows.skip(i as int), sc.skip(i as int)),
            y_true@ =~= rows.take(i as int).map_values(|r: RowView| r.label),
            y_score@ =~= sc.take(i as int).map_values(|o: Option<u64>| o.unwrap()),
            forall|k: int| 0 <= k < i ==> is_finite(#[trigger] y_score@[k]),
            forall|k: int| 0 <= k < i ==> #[trigger] y_true@[k] <= 1,
        decreases n - i,
    {
        let row = &row_vec[i];
        proof {
            assert(rows.skip(i as int).drop_first() =~= rows.skip(i + 1));
            assert(sc.skip(i as int).drop_first() =~= sc.skip(i + 1));
            assert(rows.skip(i as int)[0] == rows[i as int]);
            assert(sc.skip(i as int)[0] == sc[i as int]);
            assert(rows[i as int] == row_vec@[i as int]@);
        }
        match scores[i] {
            None => {
                let field = copy_chars(&row.score);
                let e = ParseError::NotANumber { line: row.line, field };
                assert(first_score_error(rows.skip(i as int), sc.skip(i as int)) == Some(e@));
                return Err(e);
            },
            Some(bits) => {
                if !crate::score::is_finite_score(bits) {
                    let field = copy_chars(&row.score);
                    let e = ParseError::NotFinite { line: row.line, field };
                    assert(first_score_error(rows.skip(i as int), sc.skip(i as int)) == Some(e@));
                    return Err(e);
                }
                y_true.push(row.label);
                y_score.push(bits);
            },
        }
        proof {
            assert(rows.take(i + 1) =~= rows.take(i as int).push(rows[i as int]));
            assert(sc.take(i + 1) =~= sc.take(i as int).push(sc[i as int]));
        }
        i = i + 1;
    }
    proof {
        assert(rows.skip(n as int).len() == 0);
        assert(rows.take(n as int) =~= rows);
        assert(sc.take(n as int) =~= sc);
    }
    match stop {
        Some(e) => Err(e),
        None => {
            if n == 0 {
                Err(ParseError::Empty)
            } else {
                Ok(Samples { y_true, y_score })
            }
        },
    }
}

} // verus!
