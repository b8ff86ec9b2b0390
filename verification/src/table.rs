//! Tables as plain values: rows of styled cells, and the look of the frame
//! that is drawn round them.

use vstd::prelude::*;

verus! {

/// How a cell is shown on a terminal.
#[derive(Debug, Clone, Copy, PartialEq, Eq, Structural)]
pub enum CellStyle {
    Plain,
    Bold,
    Blue,
}

/// One cell of a table.
#[derive(Debug, Clone, PartialEq, Eq)]
pub struct TableCell {
    pub text: String,
    pub style: CellStyle,
}

/// One row of a table.
#[derive(Debug, Clone, PartialEq, Eq)]
pub struct TableRow {
    pub cells: Vec<TableCell>,
}

/// A table with the line that announces it. The first row is the header.
#[derive(Debug, Clone, PartialEq, Eq)]
pub struct TableSection {
    pub heading: String,
    pub rows: Vec<TableRow>,
}

/// What a cell stands for.
pub struct CellView {
    pub text: Seq<char>,
    pub style: CellStyle,
}

/// What a section stands for.
pub struct SectionView {
    pub heading: Seq<char>,
    pub rows: Seq<Seq<CellView>>,
}

impl View for TableCell {
    type V = CellView;

    open spec fn view(&self) -> CellView {
        CellView { text: self.text@, style: self.style }
    }
}

impl View for TableRow {
    type V = Seq<CellView>;

    open spec fn view(&self) -> Seq<CellView> {
        self.cells@.map_values(|cell: TableCell| cell@)
    }
}

/// What a list of rows stands for.
pub open spec fn row_views(rows: Seq<TableRow>) -> Seq<Seq<CellView>> {
    rows.map_values(|row: TableRow| row@)
}

impl View for TableSection {
    type V = SectionView;

    open spec fn view(&self) -> SectionView {
        SectionView { heading: self.heading@, rows: row_views(self.rows@) }
    }
}

/// What a list of sections stands for.
pub open spec fn section_views(sections: Seq<TableSection>) -> Seq<SectionView> {
    sections.map_values(|section: TableSection| section@)
}

/// A cell without emphasis.
pub open spec fn plain(text: Seq<char>) -> CellView {
    CellView { text, style: CellStyle::Plain }
}

/// A cell in bold.
pub open spec fn bold(text: Seq<char>) -> CellView {
    CellView { text, style: CellStyle::Bold }
}

/// A cell in blue.
pub open spec fn blue(text: Seq<char>) -> CellView {
    CellView { text, style: CellStyle::Blue }
}

/// Makes a cell.
pub fn cell(text: String, style: CellStyle) -> (made: TableCell)
    ensures
        made@ == (CellView { text: text@, style }),
{
    TableCell { text, style }
}

/// Makes a row of one cell.
pub fn row_of_one(first: TableCell) -> (row: TableRow)
    ensures
        row@ == seq![first@],
{
    let mut cells: Vec<TableCell> = Vec::new();
    let ghost a = first@;
    cells.push(first);
    let row = TableRow { cells };
    assert(row@ =~= seq![a]);
    row
}

/// Makes a row of two cells.
pub fn row_of_two(first: TableCell, second: TableCell) -> (row: TableRow)
    ensures
        row@ == seq![first@, second@],
{
    let mut cells: Vec<TableCell> = Vec::new();
    let ghost a = first@;
    let ghost b = second@;
    cells.push(first);
    cells.push(second);
    let row = TableRow { cells };
    assert(row@ =~= seq![a, b]);
    row
}

impl CellStyle {
    /// The style in the notation of table printers: `b` for bold, `F` and a
    /// colour letter for a foreground colour.
    pub fn style_spec(&self) -> (spec: &'static str)
        ensures
            spec@ == match *self {
                CellStyle::Plain => ""@,
                CellStyle::Bold => "b"@,
                CellStyle::Blue => "Fb"@,
            },
    {
        match self {
            CellStyle::Plain => "",
            CellStyle::Bold => "b",
            CellStyle::Blue => "Fb",
        }
    }
}

/// The characters of one horizontal line of a frame.
#[derive(Debug, Clone, Copy, PartialEq, Eq, Structural)]
pub struct LineStyle {
    /// What the line is drawn with.
    pub line: char,
    /// Where the line crosses a column separator.
    pub junction: char,
    /// Where the line meets the left border.
    pub left: char,
    /// Where the line meets the right border.
    pub right: char,
}

/// The look of the frame of a table.
#[derive(Debug, Clone, Copy, PartialEq, Eq, Structural)]
pub struct TableStyle {
    pub column_separator: char,
    pub border: char,
    pub top: LineStyle,
    pub bottom: LineStyle,
    pub inner: LineStyle,
    pub pad_left: usize,
    pub pad_right: usize,
}

/// The frame with rounded corners that every table of this tool is drawn in.
pub open spec fn sui_style() -> TableStyle {
    TableStyle {
        column_separator: '│',
        border: '│',
        top: LineStyle { line: '─', junction: '┬', left: '╭', right: '╮' },
        bottom: LineStyle { line: '─', junction: '┴', left: '╰', right: '╯' },
        inner: LineStyle { line: '─', junction: '┼', left: '├', right: '┤' },
        pad_left: 1,
        pad_right: 1,
    }
}

/// The look of the tables: light lines, rounded corners, a line between any
/// two rows, and one space of padding on either side of a cell.
pub fn create_sui_style_format() -> (style: TableStyle)
    ensures
        style == sui_style(),
{
    TableStyle {
        column_separator: '│',
        border: '│',
        top: LineStyle { line: '─', junction: '┬', left: '╭', right: '╮' },
        bottom: LineStyle { line: '─', junction: '┴', left: '╰', right: '╯' },
        inner: LineStyle { line: '─', junction: '┼', left: '├', right: '┤' },
        pad_left: 1,
        pad_right: 1,
    }
}

} // verus!
