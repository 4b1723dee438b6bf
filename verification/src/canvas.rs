//! A canvas of character cells, kept as the list of drawing commands that
//! were issued on it.
//!
//! The canvas paints nothing itself. It records each command in the order of
//! the calls, so that a terminal front end can replay them on a real grid of
//! cells, and so that the layout of a swatch can be stated as a sequence of
//! marks.

use vstd::prelude::*;
use vstd::string::StringExecFns;
use crate::color::Color;

verus! {

/// One drawing command, as recorded.
#[derive(Debug, PartialEq, Eq)]
pub enum DrawCommand {
    /// Fill a rectangle with a pattern that alternates between two colors.
    Checkerboard { row: usize, col: usize, height: usize, width: usize, first: Color, second: Color },
    /// Fill a rectangle with one color.
    Rect { row: usize, col: usize, height: usize, width: usize, color: Color },
    /// Write a text, starting at a cell.
    Text { row: usize, col: usize, text: String },
}

/// What a drawing command does to the canvas: its mathematical value.
pub enum Mark {
    Checkerboard { row: int, col: int, height: int, width: int, first: Color, second: Color },
    Rect { row: int, col: int, height: int, width: int, color: Color },
    Text { row: int, col: int, text: Seq<char> },
}

impl View for DrawCommand {
    type V = Mark;

    open spec fn view(&self) -> Mark {
        match *self {
            DrawCommand::Checkerboard { row, col, height, width, first, second } => Mark::Checkerboard {
                row: row as int,
                col: col as int,
                height: height as int,
                width: width as int,
                first,
                second,
            },
            DrawCommand::Rect { row, col, height, width, color } => Mark::Rect {
                row: row as int,
                col: col as int,
                height: height as int,
                width: width as int,
                color,
            },
            DrawCommand::Text { row, col, text } => Mark::Text {
                row: row as int,
                col: col as int,
                text: text@,
            },
        }
    }
}

impl Mark {
    /// Whether the mark fills the cell at `(r, c)` with a color.
    pub open spec fn fills(self, r: int, c: int) -> bool {
        match self {
            Mark::Checkerboard { row, col, height, width, .. } => {
                row <= r < row + height && col <= c < col + width
            },
            Mark::Rect { row, col, height, width, .. } => {
                row <= r < row + height && col <= c < col + width
            },
            Mark::Text { .. } => false,
        }
    }
}

/// The color that the rectangles of one color among the marks leave on the
/// cell at `(r, c)`: that of the last one that fills it.
pub open spec fn rect_color(marks: Seq<Mark>, r: int, c: int) -> Option<Color>
    decreases marks.len(),
{
    if marks.len() == 0 {
        None
    } else {
        match marks.last() {
            Mark::Rect { color, .. } if marks.last().fills(r, c) => Some(color),
            _ => rect_color(marks.drop_last(), r, c),
        }
    }
}

/// The marks of a list of commands, in the same order.
pub open spec fn marks_of(commands: Seq<DrawCommand>) -> Seq<Mark> {
    commands.map_values(|command: DrawCommand| command@)
}

/// A canvas of `height` by `width` cells and the commands drawn on it so far.
#[derive(Debug, PartialEq, Eq)]
pub struct Canvas {
    height: usize,
    width: usize,
    commands: Vec<DrawCommand>,
}

impl View for Canvas {
    type V = Seq<Mark>;

    /// The marks drawn so far, oldest first.
    closed spec fn view(&self) -> Seq<Mark> {
        marks_of(self.commands@)
    }
}

impl Canvas {
    /// The number of rows of cells.
    pub closed spec fn rows(&self) -> int {
        self.height as int
    }

    /// The number of columns of cells.
    pub closed spec fn cols(&self) -> int {
        self.width as int
    }

    /// An empty canvas of the given size.
    pub fn new(height: usize, width: usize) -> (canvas: Canvas)
        ensures
            canvas@ == Seq::<Mark>::empty(),
            canvas.rows() == height,
            canvas.cols() == width,
    {
        Canvas { height, width, commands: Vec::new() }
    }

    /// The number of rows of cells.
    pub fn height(&self) -> (height: usize)
        ensures
            height == self.rows(),
    {
        self.height
    }

    /// The number of columns of cells.
    pub fn width(&self) -> (width: usize)
        ensures
            width == self.cols(),
    {
        self.width
    }

    /// The commands drawn so far, oldest first.
    pub fn commands(&self) -> (commands: &Vec<DrawCommand>)
        ensures
            marks_of(commands@) == self@,
    {
        &self.commands
    }

    fn record(&mut self, command: DrawCommand)
        ensures
            final(self)@ == old(self)@.push(command@),
            final(self).rows() == old(self).rows(),
            final(self).cols() == old(self).cols(),
    {
        self.commands.push(command);
        assert(marks_of(self.commands@) =~= marks_of(old(self).commands@).push(command@));
    }

    /// Fills the rectangle of `height` by `width` cells whose top-left cell
    /// is `(row, col)` with one color.
    pub fn draw_rect(&mut self, row: usize, col: usize, height: usize, width: usize, color: &Color)
        ensures
            final(self)@ == old(self)@.push(
                Mark::Rect {
                    row: row as int,
                    col: col as int,
                    height: height as int,
                    width: width as int,
                    color: *color,
                },
            ),
            final(self).rows() == old(self).rows(),
            final(self).cols() == old(self).cols(),
    {
        self.record(DrawCommand::Rect { row, col, height, width, color: *color });
    }

    /// Fills the rectangle of `height` by `width` cells whose top-left cell
    /// is `(row, col)` with a pattern that alternates between two colors.
    pub fn draw_checkerboard(
        &mut self,
        row: usize,
        col: usize,
        height: usize,
        width: usize,
        first: &Color,
        second: &Color,
    )
        ensures
            final(self)@ == old(self)@.push(
                Mark::Checkerboard {
                    row: row as int,
                    col: col as int,
                    height: height as int,
                    width: width as int,
                    first: *first,
                    second: *second,
                },
            ),
            final(self).rows() == old(self).rows(),
            final(self).cols() == old(self).cols(),
    {
        self.record(
            DrawCommand::Checkerboard { row, col, height, width, first: *first, second: *second },
        );
    }

    /// Writes `text` into the cells that start at `(row, col)`.
    pub fn draw_text(&mut self, row: usize, col: usize, text: &str)
        ensures
            final(self)@ == old(self)@.push(
                Mark::Text { row: row as int, col: col as int, text: text@ },
            ),
            final(self).rows() == old(self).rows(),
            final(self).cols() == old(self).cols(),
    {
        self.record(DrawCommand::Text { row, col, text: String::from_str(text) });
    }
}

} // verus!
