//! The report as a table.

use vstd::prelude::*;

use std::cmp::Ordering;

use crate::join::{Figure, FigureView, JoinedFile, JoinedFunction};
use crate::order::{Rank, Ranked};
use crate::text;

verus! {

/// Where a double-precision number stands among all of them, given its bits.
/// The sign bit puts a number below those without it, and turns the order of
/// the rest around.
pub open spec fn magnitude(bits: u64) -> int {
    if bits < 0x8000_0000_0000_0000 {
        bits as int
    } else {
        0x7fff_ffff_ffff_ffff - bits
    }
}

/// Whether one double-precision number is larger than another, given the bits
/// of both.
pub fn is_larger(a: u64, b: u64) -> (r: bool)
    ensures
        r == (magnitude(a) > magnitude(b)),
{
    let half: u64 = 0x8000_0000_0000_0000;
    if a < half {
        b >= half || a > b
    } else {
        b >= half && a < b
    }
}

/// What a report is ordered by.
#[derive(Debug, PartialEq, Eq)]
pub struct OrderKey {
    /// The bits of the score, if there is one.
    pub crap: Option<u64>,
    /// The name of the function.
    pub name: String,
    /// The path of its file.
    pub file: String,
    /// The line that it starts on.
    pub start_line: usize,
}

/// What an `OrderKey` holds.
#[verifier::ext_equal]
pub struct KeyView {
    /// See `OrderKey::crap`.
    pub crap: Option<u64>,
    /// See `OrderKey::name`.
    pub name: Seq<char>,
    /// See `OrderKey::file`.
    pub file: Seq<char>,
    /// See `OrderKey::start_line`.
    pub start_line: usize,
}

impl View for OrderKey {
    type V = KeyView;

    open spec fn view(&self) -> KeyView {
        KeyView {
            crap: self.crap,
            name: self.name@,
            file: self.file@,
            start_line: self.start_line,
        }
    }
}

/// Whether a score comes before another: the larger one does, and any score
/// comes before none.
pub open spec fn score_first(a: Option<u64>, b: Option<u64>) -> bool {
    match (a, b) {
        (Some(x), Some(y)) => magnitude(x) > magnitude(y),
        (Some(_), None) => true,
        (None, _) => false,
    }
}

/// Whether an identity comes before another: by name, then by file, then by
/// line.
pub open spec fn identity_first(a: KeyView, b: KeyView) -> bool {
    ||| text::before(a.name, b.name)
    ||| a.name == b.name && text::before(a.file, b.file)
    ||| a.name == b.name && a.file == b.file && a.start_line < b.start_line
}

impl Rank for KeyView {
    /// By score, then by identity.
    open spec fn precedes(self, other: KeyView) -> bool {
        ||| score_first(self.crap, other.crap)
        ||| !score_first(other.crap, self.crap) && identity_first(self, other)
    }

    proof fn irreflexive(a: KeyView) {
        text::lemma_before_irreflexive(a.name);
        text::lemma_before_irreflexive(a.file);
    }

    proof fn transitive(a: KeyView, b: KeyView, c: KeyView) {
        if identity_first(a, b) && identity_first(b, c) {
            lemma_identity_transitive(a, b, c);
        }
    }

    proof fn connected(a: KeyView, b: KeyView, c: KeyView) {
        if identity_first(a, c) {
            lemma_identity_connected(a, b, c);
        }
    }
}

proof fn lemma_identity_transitive(a: KeyView, b: KeyView, c: KeyView)
    requires
        identity_first(a, b),
        identity_first(b, c),
    ensures
        identity_first(a, c),
{
    if text::before(a.name, b.name) && text::before(b.name, c.name) {
        text::lemma_before_transitive(a.name, b.name, c.name);
    }
    if text::before(a.file, b.file) && text::before(b.file, c.file) {
        text::lemma_before_transitive(a.file, b.file, c.file);
    }
}

proof fn lemma_identity_connected(a: KeyView, b: KeyView, c: KeyView)
    requires
        identity_first(a, c),
    ensures
        identity_first(a, b) || identity_first(b, c),
{
    text::lemma_before_total(a.name, b.name);
    text::lemma_before_total(b.name, c.name);
    text::lemma_before_total(a.file, b.file);
    text::lemma_before_total(b.file, c.file);
    text::lemma_before_irreflexive(a.name);
    text::lemma_before_irreflexive(a.file);
    if text::before(b.name, a.name) && text::before(c.name, b.name) {
        text::lemma_before_transitive(c.name, b.name, a.name);
        if text::before(a.name, c.name) {
            text::lemma_before_transitive(a.name, c.name, a.name);
        }
    }
    if text::before(b.name, a.name) && text::before(a.name, c.name) {
        text::lemma_before_transitive(b.name, a.name, c.name);
    }
    if text::before(b.file, a.file) && text::before(c.file, b.file) {
        text::lemma_before_transitive(c.file, b.file, a.file);
        if text::before(a.file, c.file) {
            text::lemma_before_transitive(a.file, c.file, a.file);
        }
    }
    if text::before(b.file, a.file) && text::before(a.file, c.file) {
        text::lemma_before_transitive(b.file, a.file, c.file);
    }
}

impl Ranked<KeyView> for OrderKey {
    fn ranks_before(&self, other: &OrderKey) -> (r: bool) {
        match (self.crap, other.crap) {
            (Some(x), Some(y)) => {
                if is_larger(x, y) {
                    return true;
                }
                if is_larger(y, x) {
                    return false;
                }
            },
            (Some(_), None) => {
                return true;
            },
            (None, Some(_)) => {
                return false;
            },
            (None, None) => {},
        }
        if !text::same(&self.name, &other.name) {
            proof {
                text::lemma_before_irreflexive(self.name@);
            }
            return text::comes_before(&self.name, &other.name);
        }
        proof {
            text::lemma_before_irreflexive(self.name@);
            text::lemma_before_irreflexive(self.file@);
        }
        if !text::same(&self.file, &other.file) {
            return text::comes_before(&self.file, &other.file);
        }
        self.start_line < other.start_line
    }
}

/// The order of the report: the larger score first and what has none last, then
/// by name, by file and by line.
pub fn order_by_crap(a: &OrderKey, b: &OrderKey) -> (out: Ordering)
    ensures
        out is Less <==> a@.precedes(b@),
        out is Greater <==> b@.precedes(a@),
{
    if a.ranks_before(b) {
        proof {
            if b@.precedes(a@) {
                KeyView::transitive(a@, b@, a@);
                KeyView::irreflexive(a@);
            }
        }
        Ordering::Less
    } else if b.ranks_before(a) {
        Ordering::Greater
    } else {
        Ordering::Equal
    }
}

/// One row of the report.
#[derive(Debug, PartialEq, Eq)]
pub struct ReportRow {
    /// The name of the function.
    pub name: String,
    /// The module that it is in.
    pub module: String,
    /// The path of its file, by which rows are ordered and which is not shown.
    pub file: String,
    /// The line that it starts on, by which rows are ordered and which is not
    /// shown.
    pub start_line: usize,
    /// Its cyclomatic complexity.
    pub complexity: u32,
    /// The fraction of its lines that was run, shown as a percentage.
    pub coverage: Option<Figure>,
    /// Its score.
    pub crap: Option<Figure>,
}

/// What a `ReportRow` holds.
#[verifier::ext_equal]
pub struct RowView {
    /// See `ReportRow::name`.
    pub name: Seq<char>,
    /// See `ReportRow::module`.
    pub module: Seq<char>,
    /// See `ReportRow::file`.
    pub file: Seq<char>,
    /// See `ReportRow::start_line`.
    pub start_line: usize,
    /// See `ReportRow::complexity`.
    pub complexity: u32,
    /// See `ReportRow::coverage`.
    pub coverage: Option<FigureView>,
    /// See `ReportRow::crap`.
    pub crap: Option<FigureView>,
}

/// What an optional `Figure` says.
pub open spec fn figure_view(figure: Option<Figure>) -> Option<FigureView> {
    match figure {
        Some(figure) => Some(figure@),
        None => None,
    }
}

/// The bits of an optional figure.
pub open spec fn figure_bits(figure: Option<FigureView>) -> Option<u64> {
    match figure {
        Some(figure) => Some(figure.bits),
        None => None,
    }
}

impl View for ReportRow {
    type V = RowView;

    open spec fn view(&self) -> RowView {
        RowView {
            name: self.name@,
            module: self.module@,
            file: self.file@,
            start_line: self.start_line,
            complexity: self.complexity,
            coverage: figure_view(self.coverage),
            crap: figure_view(self.crap),
        }
    }
}

/// What several `ReportRow`s hold.
pub open spec fn rows_view(rows: Seq<ReportRow>) -> Seq<RowView> {
    rows.map_values(|row: ReportRow| row@)
}

/// The row of a joined function.
pub open spec fn row_of(function: JoinedFunction) -> RowView {
    RowView {
        name: function.name@,
        module: function.module@,
        file: function.file@,
        start_line: function.start_line,
        complexity: function.complexity,
        coverage: figure_view(function.coverage),
        crap: figure_view(function.crap),
    }
}

/// Copies an optional figure.
pub fn copy_figure(figure: &Option<Figure>) -> (out: Option<Figure>)
    ensures
        out == figure,
{
    match figure {
        Some(figure) => Some(figure.clone()),
        None => None,
    }
}

/// Projects joined functions onto rows, field by field.
pub fn rows_from_joined(functions: &Vec<JoinedFunction>) -> (out: Vec<ReportRow>)
    ensures
        rows_view(out@) == functions@.map_values(|function: JoinedFunction| row_of(function)),
{
    let mut out: Vec<ReportRow> = Vec::new();
    let mut i: usize = 0;
    while i < functions.len()
        invariant
            i <= functions.len(),
            out@.len() == i,
            forall|k: int| 0 <= k < i ==> (#[trigger] out@[k])@ == row_of(functions@[k]),
        decreases functions.len() - i,
    {
        let function = &functions[i];
        out.push(
            ReportRow {
                name: function.name.clone(),
                module: function.module.clone(),
                file: function.file.clone(),
                start_line: function.start_line,
                complexity: function.complexity,
                coverage: copy_figure(&function.coverage),
                crap: copy_figure(&function.crap),
            },
        );
        i += 1;
    }
    assert(rows_view(out@) == functions@.map_values(|function: JoinedFunction| row_of(function)));
    out
}

/// The rows of the functions of files, as they list them.
pub open spec fn rows_of(files: Seq<JoinedFile>) -> Seq<RowView>
    decreases files.len(),
{
    if files.len() == 0 {
        Seq::empty()
    } else {
        rows_of(files.drop_last()) + files.last().functions@.map_values(
            |function: JoinedFunction| row_of(function),
        )
    }
}

/// Projects the functions of files onto rows, file by file.
pub fn rows_from_files(files: &Vec<JoinedFile>) -> (out: Vec<ReportRow>)
    ensures
        rows_view(out@) == rows_of(files@),
{
    let mut out: Vec<ReportRow> = Vec::new();
    let mut i: usize = 0;
    assert(files@.take(0) == Seq::<JoinedFile>::empty());
    assert(rows_view(out@) == Seq::<RowView>::empty());
    while i < files.len()
        invariant
            i <= files.len(),
            rows_view(out@) == rows_of(files@.take(i as int)),
        decreases files.len() - i,
    {
        assert(files@.take(i + 1).drop_last() == files@.take(i as int));
        let mut more = rows_from_joined(&files[i].functions);
        let ghost before = out@;
        let ghost added = more@;
        out.append(&mut more);
        assert(rows_view(out@) == rows_view(before) + rows_view(added));
        i += 1;
    }
    assert(files@.take(i as int) == files@);
    out
}

/// What a row is ordered by.
pub open spec fn row_key(row: RowView) -> KeyView {
    KeyView {
        crap: figure_bits(row.crap),
        name: row.name,
        file: row.file,
        start_line: row.start_line,
    }
}

/// What rows are ordered by.
pub open spec fn row_keys(rows: Seq<RowView>) -> Seq<KeyView> {
    rows.map_values(|row: RowView| row_key(row))
}

/// The rows in the order of the report.
pub open spec fn ordered(rows: Seq<RowView>) -> Seq<RowView> {
    crate::order::ordering(row_keys(rows)).map_values(|p: int| rows[p])
}

/// One line of the table.
pub open spec fn table_line(
    name: Seq<char>,
    module: Seq<char>,
    complexity: Seq<char>,
    coverage: Seq<char>,
    crap: Seq<char>,
) -> Seq<char> {
    text::left_aligned(name, 30) + " "@ + text::left_aligned(module, 35) + " "@
        + text::right_aligned(complexity, 4) + " "@ + text::right_aligned(coverage, 7) + " "@
        + text::right_aligned(crap, 8)
}

/// The cell of a fraction: the percentage, or that there is none.
pub open spec fn coverage_cell(coverage: Option<FigureView>) -> Seq<char> {
    match coverage {
        Some(figure) => text::right_aligned(figure.text, 5) + "%"@,
        None => "  N/A "@,
    }
}

/// The cell of a score: the score, or that there is none.
pub open spec fn crap_cell(crap: Option<FigureView>) -> Seq<char> {
    match crap {
        Some(figure) => text::right_aligned(figure.text, 8),
        None => "     N/A"@,
    }
}

/// The line of a row.
pub open spec fn row_line(row: RowView) -> Seq<char> {
    table_line(
        row.name,
        row.module,
        text::decimal(row.complexity as nat),
        coverage_cell(row.coverage),
        crap_cell(row.crap),
    )
}

/// The lines of rows, each ended.
pub open spec fn row_lines(rows: Seq<RowView>) -> Seq<char>
    decreases rows.len(),
{
    if rows.len() == 0 {
        Seq::empty()
    } else {
        row_lines(rows.drop_last()) + row_line(rows.last()) + "\n"@
    }
}

/// The head of the table: its title and the names of its columns, each
/// underlined.
pub open spec fn table_head() -> Seq<char> {
    let names = table_line("Function"@, "Module"@, "CC"@, "Cov%"@, "CRAP"@);
    "CRAP Report"@ + "\n"@ + text::repeated('=', "CRAP Report"@.len() as int) + "\n"@ + names
        + "\n"@ + text::repeated('-', names.len() as int) + "\n"@
}

/// The report.
pub open spec fn report(rows: Seq<RowView>) -> Seq<char> {
    table_head() + row_lines(ordered(rows))
}

/// Formats one line of the table.
pub fn format_line(name: &str, module: &str, complexity: &str, coverage: &str, crap: &str) -> (out:
    String)
    ensures
        out@ == table_line(name@, module@, complexity@, coverage@, crap@),
{
    let mut out = text::align_left(name, 30);
    out.append(" ");
    out.append(&text::align_left(module, 35));
    out.append(" ");
    out.append(&text::align_right(complexity, 4));
    out.append(" ");
    out.append(&text::align_right(coverage, 7));
    out.append(" ");
    out.append(&text::align_right(crap, 8));
    out
}

/// Formats the cell of a fraction.
fn format_coverage(coverage: &Option<Figure>) -> (out: String)
    ensures
        out@ == coverage_cell(figure_view(*coverage)),
{
    match coverage {
        Some(figure) => {
            let mut out = text::align_right(&figure.text, 5);
            out.append("%");
            out
        },
        None => "  N/A ".to_owned(),
    }
}

/// Formats the cell of a score.
fn format_crap(crap: &Option<Figure>) -> (out: String)
    ensures
        out@ == crap_cell(figure_view(*crap)),
{
    match crap {
        Some(figure) => text::align_right(&figure.text, 8),
        None => "     N/A".to_owned(),
    }
}

/// What a row is ordered by.
fn key_of(row: &ReportRow) -> (out: OrderKey)
    ensures
        out@ == row_key(row@),
{
    OrderKey {
        crap: match &row.crap {
            Some(figure) => Some(figure.bits),
            None => None,
        },
        name: row.name.clone(),
        file: row.file.clone(),
        start_line: row.start_line,
    }
}

/// Formats the report. Every line of it is ended.
pub fn format_report(rows: &Vec<ReportRow>) -> (out: String)
    ensures
        out@ == report(rows_view(rows@)),
{
    let ghost views = rows_view(rows@);
    let header = format_line("Function", "Module", "CC", "Cov%", "CRAP");
    let mut out = "CRAP Report".to_owned();
    out.append("\n");
    out.append(&text::repeat('=', "CRAP Report".unicode_len()));
    out.append("\n");
    out.append(&header);
    out.append("\n");
    out.append(&text::repeat('-', header.as_str().unicode_len()));
    out.append("\n");
    let mut keys: Vec<OrderKey> = Vec::new();
    let mut i: usize = 0;
    while i < rows.len()
        invariant
            i <= rows.len(),
            keys@.len() == i,
            forall|k: int| 0 <= k < i ==> (#[trigger] keys@[k])@ == row_key(rows@[k]@),
        decreases rows.len() - i,
    {
        keys.push(key_of(&rows[i]));
        i += 1;
    }
    let order = crate::order::sort(&keys);
    assert(crate::order::ranks::<KeyView, OrderKey>(keys@) == row_keys(views));
    let ghost all = ordered(views);
    assert forall|k: int| 0 <= k < order@.len() implies (#[trigger] order@[k]) < rows.len() && all[k]
        == views[order@[k] as int] by {
        assert(crate::order::positions(order@)[k] == order@[k]);
    }
    let mut n: usize = 0;
    assert(out@ + Seq::<char>::empty() == out@);
    while n < order.len()
        invariant
            n <= order.len(),
            views == rows_view(rows@),
            all.len() == order.len(),
            forall|k: int|
                0 <= k < order@.len() ==> (#[trigger] order@[k]) < rows.len() && all[k]
                    == views[order@[k] as int],
            out@ == table_head() + row_lines(all.take(n as int)),
        decreases order.len() - n,
    {
        let row = &rows[order[n]];
        let ghost seen = row_lines(all.take(n as int));
        assert(all.take(n + 1).drop_last() == all.take(n as int));
        assert(all.take(n + 1).last() == row@);
        let line = format_line(
            &row.name,
            &row.module,
            &text::number(row.complexity as u64),
            &format_coverage(&row.coverage),
            &format_crap(&row.crap),
        );
        out.append(&line);
        out.append("\n");
        assert(table_head() + seen + line@ + "\n"@ == table_head() + (seen + line@ + "\n"@));
        n += 1;
    }
    assert(all.take(n as int) == all);
    out
}

/// The report shows every row exactly once.
pub proof fn law_no_row_is_lost_or_repeated(rows: Seq<RowView>)
    ensures
        ordered(rows).to_multiset() == rows.to_multiset(),
{
    crate::order::law_an_order_keeps_every_value(row_keys(rows), rows);
}

/// The report shows the larger score first and rows without a score last.
pub proof fn law_rows_descend_by_score(rows: Seq<RowView>, i: int, j: int)
    requires
        0 <= i < j < rows.len(),
    ensures
        ordered(rows).len() == rows.len(),
        ordered(rows)[i].crap is None ==> ordered(rows)[j].crap is None,
        ordered(rows)[i].crap is Some && ordered(rows)[j].crap is Some ==> magnitude(
            ordered(rows)[i].crap->Some_0.bits,
        ) >= magnitude(ordered(rows)[j].crap->Some_0.bits),
{
    let keys = row_keys(rows);
    crate::order::law_every_list_has_an_order(keys);
    let order = crate::order::ordering(keys);
    assert(crate::order::earlier(keys, order[i], order[j]));
    assert(ordered(rows)[i] == rows[order[i]]);
    assert(ordered(rows)[j] == rows[order[j]]);
    assert(keys[order[i]] == row_key(rows[order[i]]));
    assert(keys[order[j]] == row_key(rows[order[j]]));
}

/// Whether file and line tell any two rows apart.
pub open spec fn told_apart(rows: Seq<RowView>) -> bool {
    forall|i: int, j: int|
        0 <= i < j < rows.len() ==> (#[trigger] rows[i]).file != (#[trigger] rows[j]).file
            || rows[i].start_line != rows[j].start_line
}

proof fn lemma_no_ties(rows: Seq<RowView>)
    requires
        told_apart(rows),
    ensures
        crate::order::without_ties(row_keys(rows)),
{
    let keys = row_keys(rows);
    assert forall|i: int, j: int| 0 <= i < keys.len() && 0 <= j < keys.len() && i != j implies (
    #[trigger] keys[i]).precedes(#[trigger] keys[j]) || keys[j].precedes(keys[i]) by {
        text::lemma_before_total(keys[i].name, keys[j].name);
        text::lemma_before_total(keys[i].file, keys[j].file);
        if i < j {
            assert(rows[i].file != rows[j].file || rows[i].start_line != rows[j].start_line);
        } else {
            assert(rows[j].file != rows[i].file || rows[j].start_line != rows[i].start_line);
        }
    }
}

proof fn lemma_keys_alike(a: Seq<RowView>, b: Seq<RowView>, key: KeyView)
    requires
        crate::order::same_items(a, b),
        row_keys(a).contains(key),
    ensures
        row_keys(b).contains(key),
{
    let i = choose|i: int| 0 <= i < row_keys(a).len() && row_keys(a)[i] == key;
    assert(a.contains(a[i]));
    assert(b.contains(a[i]));
    let j = choose|j: int| 0 <= j < b.len() && b[j] == a[i];
    assert(row_keys(b)[j] == key);
}

/// Where file and line tell the rows apart, the report does not depend on the
/// sequence that the rows came in.
pub proof fn law_report_does_not_depend_on_the_sequence(a: Seq<RowView>, b: Seq<RowView>)
    requires
        crate::order::same_items(a, b),
        told_apart(a),
        told_apart(b),
    ensures
        report(a) == report(b),
{
    let (x, y) = (row_keys(a), row_keys(b));
    lemma_no_ties(a);
    lemma_no_ties(b);
    assert forall|key: KeyView| #[trigger] x.contains(key) <==> y.contains(key) by {
        if x.contains(key) {
            lemma_keys_alike(a, b, key);
        }
        if y.contains(key) {
            assert(crate::order::same_items(b, a));
            lemma_keys_alike(b, a, key);
        }
    }
    crate::order::law_order_does_not_depend_on_the_sequence(x, y);
    crate::order::law_every_list_has_an_order(x);
    crate::order::law_every_list_has_an_order(y);
    let (p, q) = (crate::order::ordering(x), crate::order::ordering(y));
    assert forall|i: int| 0 <= i < a.len() implies ordered(a)[i] == ordered(b)[i] by {
        assert(crate::order::sorted(x)[i] == x[p[i]]);
        assert(crate::order::sorted(y)[i] == y[q[i]]);
        assert(b.contains(b[q[i]]));
        assert(a.contains(b[q[i]]));
        let k = choose|k: int| 0 <= k < a.len() && a[k] == b[q[i]];
        assert(row_key(a[k]) == row_key(a[p[i]]));
        if k < p[i] {
            assert(a[k].file != a[p[i]].file || a[k].start_line != a[p[i]].start_line);
        } else if p[i] < k {
            assert(a[p[i]].file != a[k].file || a[p[i]].start_line != a[k].start_line);
        }
    }
    assert(ordered(a) =~= ordered(b));
}

/// Of double-precision numbers, given their bits, one with the sign bit is below one
/// without it. Of two without it the one with the larger bits is larger, and of two
/// with it the one with the smaller bits.
pub proof fn law_bits_are_ordered_as_numbers(a: u64, b: u64)
    ensures
        a < 0x8000_0000_0000_0000 && b >= 0x8000_0000_0000_0000 ==> magnitude(a) > magnitude(b),
        a < 0x8000_0000_0000_0000 && b < 0x8000_0000_0000_0000 ==> (magnitude(a) > magnitude(b)
            <==> a > b),
        a >= 0x8000_0000_0000_0000 && b >= 0x8000_0000_0000_0000 ==> (magnitude(a) > magnitude(b)
            <==> a < b),
        magnitude(a) == magnitude(b) ==> a == b,
{
}

/// What the report is ordered by: the larger score first, any score before none;
/// with the same score by name, with the same name by file, with the same file by
/// line.
pub proof fn law_what_a_report_is_ordered_by(a: KeyView, b: KeyView)
    ensures
        a.crap is Some && b.crap is None ==> a.precedes(b) && !b.precedes(a),
        a.crap is Some && b.crap is Some && magnitude(a.crap->Some_0) > magnitude(b.crap->Some_0)
            ==> a.precedes(b) && !b.precedes(a),
        a.crap == b.crap && text::before(a.name, b.name) ==> a.precedes(b) && !b.precedes(a),
        a.crap == b.crap && a.name == b.name && text::before(a.file, b.file) ==> a.precedes(b)
            && !b.precedes(a),
        a.crap == b.crap && a.name == b.name && a.file == b.file ==> (a.precedes(b)
            <==> a.start_line < b.start_line),
{
    text::lemma_before_irreflexive(a.name);
    text::lemma_before_irreflexive(a.file);
    if text::before(a.name, b.name) && text::before(b.name, a.name) {
        text::lemma_before_transitive(a.name, b.name, a.name);
    }
    if text::before(a.file, b.file) && text::before(b.file, a.file) {
        text::lemma_before_transitive(a.file, b.file, a.file);
    }
    if text::before(a.name, b.name) && a.name == b.name {
        assert(false);
    }
    text::lemma_before_irreflexive(b.name);
}

/// Rows of the same score stand in the order of their names, then of their files,
/// then of their lines.
pub proof fn law_rows_of_one_score_stand_in_order(rows: Seq<RowView>, i: int, j: int)
    requires
        0 <= i < j < rows.len(),
    ensures
        ({
            let (a, b) = (ordered(rows)[i], ordered(rows)[j]);
            figure_bits(a.crap) == figure_bits(b.crap) ==> {
                &&& !text::before(b.name, a.name)
                &&& a.name == b.name ==> !text::before(b.file, a.file)
                &&& a.name == b.name && a.file == b.file ==> a.start_line <= b.start_line
            }
        }),
{
    let keys = row_keys(rows);
    crate::order::law_what_is_sorted_ascends(keys, i, j);
    let order = crate::order::ordering(keys);
    assert(ordered(rows)[i] == rows[order[i]]);
    assert(ordered(rows)[j] == rows[order[j]]);
    let (a, b) = (keys[order[i]], keys[order[j]]);
    assert(a == row_key(rows[order[i]]));
    assert(b == row_key(rows[order[j]]));
    law_what_a_report_is_ordered_by(b, a);
}

/// A row says of a function what was joined, field by field.
pub proof fn law_a_row_says_what_was_joined(function: JoinedFunction)
    ensures
        ({
            let row = row_of(function);
            &&& row.name == function.name@
            &&& row.module == function.module@
            &&& row.file == function.file@
            &&& row.start_line == function.start_line
            &&& row.complexity == function.complexity
            &&& row.coverage is Some <==> function.coverage is Some
            &&& function.coverage matches Some(figure) ==> row.coverage->Some_0.bits == figure.bits
                && row.coverage->Some_0.text == figure.text@
            &&& row.crap is Some <==> function.crap is Some
            &&& function.crap matches Some(figure) ==> row.crap->Some_0.bits == figure.bits
                && row.crap->Some_0.text == figure.text@
        }),
        row_key(row_of(function)).crap == (match function.crap {
            Some(figure) => Some(figure.bits),
            None => None::<u64>,
        }),
        row_key(row_of(function)).name == function.name@,
        row_key(row_of(function)).file == function.file@,
        row_key(row_of(function)).start_line == function.start_line,
{
}

/// Every function of every file has its row.
pub proof fn law_every_function_has_its_row(a: Seq<JoinedFile>, b: Seq<JoinedFile>, file: JoinedFile)
    ensures
        rows_of(a + b) == rows_of(a) + rows_of(b),
        rows_of(seq![file]).len() == file.functions@.len(),
        forall|j: int|
            0 <= j < file.functions@.len() ==> #[trigger] rows_of(seq![file])[j] == row_of(
                file.functions@[j],
            ),
        rows_of(Seq::<JoinedFile>::empty()) == Seq::<RowView>::empty(),
    decreases b.len(),
{
    let none = Seq::<RowView>::empty();
    let own = file.functions@.map_values(|function: JoinedFunction| row_of(function));
    assert(seq![file].drop_last() == Seq::<JoinedFile>::empty());
    assert(rows_of(seq![file].drop_last()) == none);
    assert(none + own == own);
    if b.len() == 0 {
        assert(a + b == a);
        assert(rows_of(a) + rows_of(b) == rows_of(a));
    } else {
        assert((a + b).drop_last() == a + b.drop_last());
        assert((a + b).last() == b.last());
        law_every_function_has_its_row(a, b.drop_last(), file);
        let last = b.last().functions@.map_values(
            |function: JoinedFunction| row_of(function),
        );
        assert((rows_of(a) + rows_of(b.drop_last())) + last == rows_of(a) + (rows_of(b.drop_last())
            + last));
    }
}

/// Every row of the report is a line, in their order.
pub proof fn law_every_row_is_a_line(a: Seq<RowView>, b: Seq<RowView>, row: RowView)
    ensures
        row_lines(a + b) == row_lines(a) + row_lines(b),
        row_lines(seq![row]) == row_line(row).push('\n'),
        row_lines(Seq::<RowView>::empty()) == Seq::<char>::empty(),
    decreases b.len(),
{
    reveal_strlit("\n");
    assert("\n"@ == seq!['\n']);
    assert(seq![row].drop_last() == Seq::<RowView>::empty());
    assert(row_lines(seq![row].drop_last()) == Seq::<char>::empty());
    assert(Seq::<char>::empty() + row_line(row) + "\n"@ == row_line(row).push('\n'));
    if b.len() == 0 {
        assert(a + b == a);
        assert(row_lines(a) + row_lines(b) == row_lines(a));
    } else {
        assert((a + b).drop_last() == a + b.drop_last());
        assert((a + b).last() == b.last());
        law_every_row_is_a_line(a, b.drop_last(), row);
        let last = row_line(b.last());
        assert((row_lines(a) + row_lines(b.drop_last())) + last + "\n"@ == row_lines(a) + (
        row_lines(b.drop_last()) + last + "\n"@));
    }
}

/// The cells of a line stand in their columns, the first two from the left and the
/// others up to the right of them, where they fit.
pub proof fn law_cells_stand_in_their_columns(
    name: Seq<char>,
    module: Seq<char>,
    complexity: Seq<char>,
    coverage: Seq<char>,
    crap: Seq<char>,
)
    requires
        name.len() <= 30,
        module.len() <= 35,
        complexity.len() <= 4,
        coverage.len() <= 7,
        crap.len() <= 8,
    ensures
        ({
            let line = table_line(name, module, complexity, coverage, crap);
            &&& line.len() == 88
            &&& line.subrange(0, name.len() as int) == name
            &&& line.subrange(31, 31 + module.len() as int) == module
            &&& line.subrange(71 - complexity.len(), 71) == complexity
            &&& line.subrange(79 - coverage.len(), 79) == coverage
            &&& line.subrange(88 - crap.len(), 88) == crap
        }),
{
    reveal_strlit(" ");
    text::law_a_cell_holds_its_text(name, 30, 0);
    text::law_a_cell_holds_its_text(module, 35, 0);
    text::law_a_cell_holds_its_text(complexity, 4, 0);
    text::law_a_cell_holds_its_text(coverage, 7, 0);
    text::law_a_cell_holds_its_text(crap, 8, 0);
    let line = table_line(name, module, complexity, coverage, crap);
    let a = text::left_aligned(name, 30);
    let b = text::left_aligned(module, 35);
    let c = text::right_aligned(complexity, 4);
    let d = text::right_aligned(coverage, 7);
    let e = text::right_aligned(crap, 8);
    assert(line.len() == 88);
    assert(line.subrange(0, name.len() as int) == a.take(name.len() as int));
    assert(line.subrange(31, 31 + module.len() as int) == b.take(module.len() as int));
    assert(line.subrange(71 - complexity.len(), 71) == c.skip(4 - complexity.len()));
    assert(line.subrange(79 - coverage.len(), 79) == d.skip(7 - coverage.len()));
    assert(line.subrange(88 - crap.len(), 88) == e.skip(8 - crap.len()));
}

/// A line shows the name and the module of its row and its complexity in decimal; a
/// figure as it is written, the percentage with its sign; and `N/A` where there is
/// none.
pub proof fn law_a_line_shows_its_row(row: RowView)
    ensures
        row_line(row) == table_line(
            row.name,
            row.module,
            text::decimal(row.complexity as nat),
            coverage_cell(row.coverage),
            crap_cell(row.crap),
        ),
        row.coverage matches Some(figure) ==> {
            let cell = coverage_cell(row.coverage);
            &&& cell.len() > figure.text.len()
            &&& cell.last() == '%'
            &&& cell.subrange(cell.len() - 1 - figure.text.len(), cell.len() - 1) == figure.text
        },
        row.coverage is None ==> coverage_cell(row.coverage) == seq![' ', ' ', 'N', '/', 'A', ' '],
        row.crap matches Some(figure) ==> {
            let cell = crap_cell(row.crap);
            &&& cell.len() >= figure.text.len()
            &&& cell.skip(cell.len() - figure.text.len()) == figure.text
        },
        row.crap is None ==> crap_cell(row.crap) == seq![' ', ' ', ' ', ' ', ' ', 'N', '/', 'A'],
{
    reveal_strlit("%");
    reveal_strlit("  N/A ");
    reveal_strlit("     N/A");
    if row.coverage is Some {
        let figure = row.coverage->Some_0;
        text::law_a_cell_holds_its_text(figure.text, 5, 0);
        let inner = text::right_aligned(figure.text, 5);
        let cell = coverage_cell(row.coverage);
        assert(cell == inner + "%"@);
        assert(cell.last() == '%');
        assert(cell.subrange(cell.len() - 1 - figure.text.len(), cell.len() - 1) == inner.skip(
            inner.len() - figure.text.len(),
        ));
    } else {
        assert(coverage_cell(row.coverage) =~= seq![' ', ' ', 'N', '/', 'A', ' ']);
    }
    if row.crap is Some {
        let figure = row.crap->Some_0;
        text::law_a_cell_holds_its_text(figure.text, 8, 0);
    } else {
        assert(crap_cell(row.crap) =~= seq![' ', ' ', ' ', ' ', ' ', 'N', '/', 'A']);
    }
}

/// The report is its head and then its rows: every report starts with the head, and
/// the head is the same whatever is reported.
pub proof fn law_a_report_is_its_head_and_its_rows(rows: Seq<RowView>)
    ensures
        report(rows) == report(Seq::<RowView>::empty()) + row_lines(ordered(rows)),
{
    let none = Seq::<RowView>::empty();
    crate::order::law_every_list_has_an_order(row_keys(none));
    assert(ordered(none) == none);
    law_every_row_is_a_line(none, none, arbitrary());
    assert(report(none) == table_head());
}

/// A line is its cells, each filled up to its width and none of them cut, with a space
/// between each two.
pub proof fn law_a_line_is_its_cells(
    name: Seq<char>,
    module: Seq<char>,
    complexity: Seq<char>,
    coverage: Seq<char>,
    crap: Seq<char>,
)
    ensures
        table_line(name, module, complexity, coverage, crap) == text::left_aligned(name, 30).push(
            ' ',
        ) + text::left_aligned(module, 35).push(' ') + text::right_aligned(complexity, 4).push(' ')
            + text::right_aligned(coverage, 7).push(' ') + text::right_aligned(crap, 8),
{
    reveal_strlit(" ");
    assert(table_line(name, module, complexity, coverage, crap) =~= text::left_aligned(
        name,
        30,
    ).push(' ') + text::left_aligned(module, 35).push(' ') + text::right_aligned(
        complexity,
        4,
    ).push(' ') + text::right_aligned(coverage, 7).push(' ') + text::right_aligned(crap, 8));
}

} // verus!
