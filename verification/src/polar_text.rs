//! The polar table as text: wind speeds in the first line, and in each line
//! after it a wind angle and the boat speeds at that angle, with semicolons
//! between the numbers.

use vstd::prelude::*;
use crate::coordinates::{chars_of, decimal, find_char, index_of, parse_decimal};
use crate::polar::PolarData;

verus! {

/// Why a text is not a polar table.
#[derive(Debug, Clone, Copy, PartialEq, Eq, Structural)]
pub enum PolarError {
    /// The text has no line.
    Empty,
    /// A cell that should hold a number does not.
    InvalidNumber,
}

/// A line without the carriage return at its end, where it has one.
pub open spec fn without_return(line: Seq<char>) -> Seq<char> {
    if line.len() > 0 && line.last() == '\r' {
        line.drop_last()
    } else {
        line
    }
}

/// The lines of a text. A line ends at a line feed, or at a carriage return
/// and a line feed, or at the end of the text; what follows the last line
/// feed is a line only where it is not empty.
pub open spec fn lines_of(text: Seq<char>) -> Seq<Seq<char>>
    decreases text.len(),
{
    if text.len() == 0 {
        Seq::empty()
    } else {
        let end = index_of(text, '\n');
        if 0 <= end < text.len() {
            seq![without_return(text.take(end))] + lines_of(text.skip(end + 1))
        } else {
            seq![text]
        }
    }
}

/// The cells of a line: what stands between its semicolons. A line without
/// a semicolon is one cell.
pub open spec fn cells_of(line: Seq<char>) -> Seq<Seq<char>>
    decreases line.len(),
{
    let end = index_of(line, ';');
    if 0 <= end < line.len() {
        seq![line.take(end)] + cells_of(line.skip(end + 1))
    } else {
        seq![line]
    }
}

/// A thousandth of a number, rounded toward zero.
pub open spec fn thousandth(value: int) -> int {
    if value >= 0 {
        value / 1000
    } else {
        -((-value) / 1000)
    }
}

/// The number that a cell writes, in thousandths: a decimal number with a
/// point, of which the digits beyond the third after the point are dropped.
pub open spec fn number_of(cell: Seq<char>) -> Option<i64> {
    match decimal(cell, false) {
        Some(millionths) => Some(thousandth(millionths) as i64),
        None => None,
    }
}

/// The numbers that some cells write, or nothing where one of them writes no
/// number.
pub open spec fn numbers_of(cells: Seq<Seq<char>>) -> Option<Seq<i64>>
    decreases cells.len(),
{
    if cells.len() == 0 {
        Some(Seq::empty())
    } else {
        match (numbers_of(cells.drop_last()), number_of(cells.last())) {
            (Some(earlier), Some(number)) => Some(earlier.push(number)),
            _ => None,
        }
    }
}

/// The wind angles and rows of boat speeds that some lines write. A line
/// with another number of cells than `width` is passed over. Of any other
/// line the first cell is the wind angle and the rest are the boat speeds.
/// Where a cell of such a line writes no number, there is no table.
pub open spec fn rows_of(lines: Seq<Seq<char>>, width: int) -> Option<(Seq<i64>, Seq<Seq<i64>>)>
    decreases lines.len(),
{
    if lines.len() == 0 {
        Some((Seq::empty(), Seq::empty()))
    } else {
        let cells = cells_of(lines.last());
        match rows_of(lines.drop_last(), width) {
            None => None,
            Some(earlier) => if cells.len() != width {
                Some(earlier)
            } else {
                match numbers_of(cells) {
                    None => None,
                    Some(numbers) => Some((earlier.0.push(numbers[0]), earlier.1.push(numbers.skip(1)))),
                }
            },
        }
    }
}

/// The polar table that a text writes: its wind speeds, its wind angles and
/// its rows of boat speeds. The first line gives the wind speeds in its
/// cells after the first. A text without a line is no table.
pub open spec fn polar_table_of(text: Seq<char>) -> Result<(Seq<i64>, Seq<i64>, Seq<Seq<i64>>), PolarError> {
    let lines = lines_of(text);
    if lines.len() == 0 {
        Err(PolarError::Empty)
    } else {
        let header = cells_of(lines.first());
        match (numbers_of(header.skip(1)), rows_of(lines.skip(1), header.len() as int)) {
            (Some(speeds), Some(rows)) => Ok((speeds, rows.0, rows.1)),
            _ => Err(PolarError::InvalidNumber),
        }
    }
}

/// Some texts as their characters.
pub open spec fn texts_view(texts: Seq<Vec<char>>) -> Seq<Seq<char>> {
    texts.map_values(|text: Vec<char>| text@)
}

/// Some rows as their numbers.
pub open spec fn rows_view(rows: Seq<Vec<i64>>) -> Seq<Seq<i64>> {
    rows.map_values(|row: Vec<i64>| row@)
}

/// Where the first cells write no numbers, all of them write none.
pub proof fn lemma_numbers_need_every_cell(cells: Seq<Seq<char>>, count: int)
    requires
        0 <= count <= cells.len(),
        numbers_of(cells.take(count)) is None,
    ensures
        numbers_of(cells) is None,
    decreases cells.len() - count,
{
    if count < cells.len() {
        assert(cells.take(count + 1).drop_last() =~= cells.take(count));
        lemma_numbers_need_every_cell(cells, count + 1);
    } else {
        assert(cells.take(count) =~= cells);
    }
}

/// Where the first lines write no table, all of them write none.
pub proof fn lemma_rows_need_every_line(lines: Seq<Seq<char>>, width: int, count: int)
    requires
        0 <= count <= lines.len(),
        rows_of(lines.take(count), width) is None,
    ensures
        rows_of(lines, width) is None,
    decreases lines.len() - count,
{
    if count < lines.len() {
        assert(lines.take(count + 1).drop_last() =~= lines.take(count));
        lemma_rows_need_every_line(lines, width, count + 1);
    } else {
        assert(lines.take(count) =~= lines);
    }
}

/// As many numbers are written as there are cells.
pub proof fn lemma_numbers_len(cells: Seq<Seq<char>>)
    ensures
        numbers_of(cells) matches Some(numbers) ==> numbers.len() == cells.len(),
    decreases cells.len(),
{
    if cells.len() > 0 {
        lemma_numbers_len(cells.drop_last());
    }
}

/// A thousandth of a number, rounded toward zero.
pub fn thousandth_of(value: i64) -> (part: i64)
    requires
        value > i64::MIN,
    ensures
        part == thousandth(value as int),
{
    if value >= 0 {
        value / 1000
    } else {
        -((-value) / 1000)
    }
}

/// A copy of the part of `text` from `lo` to `hi`.
fn copy_range(text: &Vec<char>, lo: usize, hi: usize) -> (copy: Vec<char>)
    requires
        lo <= hi <= text@.len(),
    ensures
        copy@ == text@.subrange(lo as int, hi as int),
{
    let mut copy: Vec<char> = Vec::new();
    let mut at: usize = lo;
    while at < hi
        invariant
            lo <= at <= hi <= text@.len(),
            copy@ == text@.subrange(lo as int, at as int),
        decreases hi - at,
    {
        copy.push(text[at]);
        assert(text@.subrange(lo as int, at as int).push(text@[at as int]) =~= text@.subrange(lo as int, at + 1));
        at = at + 1;
    }
    copy
}

/// Splits a text into its lines.
pub fn split_lines(text: &Vec<char>) -> (lines: Vec<Vec<char>>)
    ensures
        texts_view(lines@) == lines_of(text@),
{
    let length = text.len();
    let mut lines: Vec<Vec<char>> = Vec::new();
    let mut pos: usize = 0;
    assert(text@.skip(0) =~= text@);
    assert(texts_view(lines@) + lines_of(text@.skip(0)) =~= lines_of(text@));
    while pos < length
        invariant
            pos <= length,
            length == text@.len(),
            texts_view(lines@) + lines_of(text@.skip(pos as int)) == lines_of(text@),
        decreases length - pos,
    {
        let ghost rest = text@.skip(pos as int);
        let ghost before = texts_view(lines@);
        assert(rest =~= text@.subrange(pos as int, length as int));
        let end = find_char(text, pos, length, '\n');
        if end < length {
            let stop = if end > pos && text[end - 1] == '\r' {
                end - 1
            } else {
                end
            };
            let line = copy_range(text, pos, stop);
            proof {
                let whole = rest.take(end - pos);
                assert(whole =~= text@.subrange(pos as int, end as int));
                if end > pos {
                    assert(whole.last() == text@[end - 1]);
                    assert(whole.drop_last() =~= text@.subrange(pos as int, end - 1));
                }
                assert(line@ == without_return(whole));
                assert(rest.skip(end - pos + 1) =~= text@.skip(end + 1));
            }
            lines.push(line);
            proof {
                assert(texts_view(lines@) =~= before.push(line@));
                assert(before.push(line@) + lines_of(text@.skip(end + 1)) =~= before + (seq![line@] + lines_of(
                    text@.skip(end + 1),
                )));
            }
            pos = end + 1;
        } else {
            let line = copy_range(text, pos, length);
            lines.push(line);
            proof {
                assert(texts_view(lines@) =~= before.push(line@));
                assert(text@.skip(length as int) =~= Seq::<char>::empty());
                assert(before.push(line@) + lines_of(text@.skip(length as int)) =~= before + seq![rest]);
            }
            pos = length;
        }
    }
    assert(text@.skip(length as int) =~= Seq::<char>::empty());
    assert(texts_view(lines@) + Seq::<Seq<char>>::empty() =~= texts_view(lines@));
    lines
}

/// Splits a line into its cells.
pub fn split_cells(line: &Vec<char>) -> (cells: Vec<Vec<char>>)
    ensures
        texts_view(cells@) == cells_of(line@),
        cells@.len() >= 1,
{
    let length = line.len();
    let mut cells: Vec<Vec<char>> = Vec::new();
    let mut pos: usize = 0;
    let mut done = false;
    assert(line@.skip(0) =~= line@);
    assert(texts_view(cells@) + cells_of(line@.skip(0)) =~= cells_of(line@));
    while !done
        invariant
            pos <= length,
            length == line@.len(),
            !done ==> texts_view(cells@) + cells_of(line@.skip(pos as int)) == cells_of(line@),
            done ==> texts_view(cells@) == cells_of(line@) && cells@.len() >= 1,
        decreases
                (if done {
                    0int
                } else {
                    length - pos + 1
                }),
    {
        let ghost rest = line@.skip(pos as int);
        let ghost before = texts_view(cells@);
        assert(rest =~= line@.subrange(pos as int, length as int));
        let end = find_char(line, pos, length, ';');
        let cell = copy_range(line, pos, end);
        cells.push(cell);
        proof {
            assert(texts_view(cells@) =~= before.push(cell@));
            if end < length {
                assert(rest.take(end - pos) =~= line@.subrange(pos as int, end as int));
                assert(rest.skip(end - pos + 1) =~= line@.skip(end + 1));
                assert(before.push(cell@) + cells_of(line@.skip(end + 1)) =~= before + (seq![cell@] + cells_of(
                    line@.skip(end + 1),
                )));
            } else {
                assert(before.push(cell@) =~= before + seq![rest]);
            }
        }
        if end < length {
            pos = end + 1;
        } else {
            done = true;
        }
    }
    cells
}

/// Reads the number that a cell writes, in thousandths.
pub fn parse_number(cell: &Vec<char>) -> (number: Option<i64>)
    ensures
        number == number_of(cell@),
{
    assert(cell@.subrange(0, cell@.len() as int) =~= cell@);
    match parse_decimal(cell, 0, cell.len(), false) {
        Some(millionths) => Some(thousandth_of(millionths)),
        None => None,
    }
}

/// Reads the numbers that the cells from position `from` on write.
fn parse_numbers(cells: &Vec<Vec<char>>, from: usize) -> (numbers: Option<Vec<i64>>)
    requires
        from <= cells@.len(),
    ensures
        numbers is None <==> numbers_of(texts_view(cells@).skip(from as int)) is None,
        numbers matches Some(read) ==> numbers_of(texts_view(cells@).skip(from as int)) == Some(read@),
{
    let ghost wanted = texts_view(cells@).skip(from as int);
    let mut read: Vec<i64> = Vec::new();
    let mut at: usize = from;
    assert(wanted.take(0) =~= Seq::<Seq<char>>::empty());
    while at < cells.len()
        invariant
            from <= at <= cells@.len(),
            wanted == texts_view(cells@).skip(from as int),
            numbers_of(wanted.take(at - from)) == Some(read@),
        decreases cells@.len() - at,
    {
        let number = parse_number(&cells[at]);
        proof {
            let longer = wanted.take(at - from + 1);
            assert(longer.drop_last() =~= wanted.take(at - from));
            assert(longer.last() == cells@[at as int]@);
        }
        match number {
            Some(value) => {
                read.push(value);
            },
            None => {
                proof {
                    lemma_numbers_need_every_cell(wanted, at - from + 1);
                }
                return None;
            },
        }
        at = at + 1;
    }
    assert(wanted.take(at - from) =~= wanted);
    Some(read)
}

/// Reads a polar table from its text.
pub fn parse_polar_table(content: &str) -> (table: Result<PolarData, PolarError>)
    ensures
        match table {
            Ok(polar) => polar_table_of(content@) == Ok::<(Seq<i64>, Seq<i64>, Seq<Seq<i64>>), PolarError>(
                (polar.wind_speeds@, polar.wind_angles@, rows_view(polar.boat_speeds@)),
            ) && polar.wf(),
            Err(error) => polar_table_of(content@) == Err::<(Seq<i64>, Seq<i64>, Seq<Seq<i64>>), PolarError>(error),
        },
{
    let text = chars_of(content);
    let lines = split_lines(&text);
    if lines.len() == 0 {
        return Err(PolarError::Empty);
    }
    let ghost all = texts_view(lines@);
    let header = split_cells(&lines[0]);
    assert(all.first() == lines@[0]@);
    let width = header.len();
    let wind_speeds = match parse_numbers(&header, 1) {
        Some(speeds) => speeds,
        None => {
            return Err(PolarError::InvalidNumber);
        },
    };
    proof {
        lemma_numbers_len(texts_view(header@).skip(1));
    }
    let ghost later = all.skip(1);
    let mut wind_angles: Vec<i64> = Vec::new();
    let mut boat_speeds: Vec<Vec<i64>> = Vec::new();
    let mut at: usize = 1;
    assert(later.take(0) =~= Seq::<Seq<char>>::empty());
    assert(rows_view(boat_speeds@) =~= Seq::<Seq<i64>>::empty());
    while at < lines.len()
        invariant
            1 <= at <= lines@.len(),
            all == texts_view(lines@),
            all == lines_of(content@),
            cells_of(all.first()).len() == width,
            later == all.skip(1),
            width >= 1,
            wind_speeds@.len() == width - 1,
            rows_of(later.take(at - 1), width as int) == Some((wind_angles@, rows_view(boat_speeds@))),
            boat_speeds@.len() == wind_angles@.len(),
            forall|r: int| 0 <= r < boat_speeds@.len() ==> (#[trigger] boat_speeds@[r])@.len() == width - 1,
        decreases lines@.len() - at,
    {
        let cells = split_cells(&lines[at]);
        proof {
            let longer = later.take(at as int);
            assert(longer.drop_last() =~= later.take(at - 1));
            assert(longer.last() == lines@[at as int]@);
        }
        if cells.len() == width {
            let ghost rows_before = rows_view(boat_speeds@);
            assert(texts_view(cells@).skip(0) =~= texts_view(cells@));
            match parse_numbers(&cells, 0) {
                Some(numbers) => {
                    proof {
                        lemma_numbers_len(texts_view(cells@));
                    }
                    let mut speeds: Vec<i64> = Vec::new();
                    let mut column: usize = 1;
                    while column < numbers.len()
                        invariant
                            1 <= column <= numbers@.len(),
                            speeds@ == numbers@.subrange(1, column as int),
                        decreases numbers@.len() - column,
                    {
                        speeds.push(numbers[column]);
                        assert(numbers@.subrange(1, column as int).push(numbers@[column as int]) =~= numbers@.subrange(
                            1,
                            column + 1,
                        ));
                        column = column + 1;
                    }
                    assert(speeds@ =~= numbers@.skip(1));
                    wind_angles.push(numbers[0]);
                    boat_speeds.push(speeds);
                    assert(rows_view(boat_speeds@) =~= rows_before.push(speeds@));
                },
                None => {
                    proof {
                        let longer = later.take(at as int);
                        assert(cells_of(longer.last()) == texts_view(cells@));
                        assert(texts_view(cells@).len() == width);
                        assert(numbers_of(cells_of(longer.last())) is None);
                        assert(rows_of(longer, width as int) is None);
                        lemma_rows_need_every_line(later, width as int, at as int);
                    }
                    return Err(PolarError::InvalidNumber);
                },
            }
        }
        at = at + 1;
    }
    assert(later.take(at - 1) =~= later);
    Ok(PolarData { wind_speeds, wind_angles, boat_speeds })
}

} // verus!
