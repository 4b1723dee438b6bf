//! The swatch renderer: what is drawn where for a color or a blend of two
//! colors, and what is written out when a color is shown.

use vstd::prelude::*;
use vstd::string::StringExecFns;
use crate::canvas::{rect_color, Canvas, Mark};
use crate::alpha::mean_of;
use crate::color::{opaque, Color};
use crate::selection::BlendFunction;

verus! {

/// Side of the square checkerboard behind the color panel, in cells.
pub const CHECKERBOARD_SIZE: usize = 16;

/// Side of the square color panel, in cells.
pub const COLOR_PANEL_SIZE: usize = 12;

/// Width of the canvas on which a swatch is drawn, in cells.
pub const CANVAS_WIDTH: usize = 60;

/// How colors are shown.
#[derive(Clone, Copy, Debug, PartialEq, Eq)]
pub struct Config {
    /// Number of cells left free to the left of the swatch.
    pub padding: usize,
    /// Whether to draw a swatch, for a terminal, or to write one plain line.
    pub interactive_mode: bool,
}

/// A color that has a name.
#[derive(Debug, PartialEq, Eq)]
pub struct NamedColor {
    pub name: String,
    pub color: Color,
}

/// What is known about the primary color of a block besides its channels:
/// the named colors nearest to it and the texts that represent it.
#[derive(Debug, PartialEq, Eq)]
pub struct ColorDescription {
    /// The nearest named colors, nearest first.
    pub similar: Vec<NamedColor>,
    /// The hexadecimal representation.
    pub hex: String,
    /// The RGB representation, with spaces.
    pub rgb: String,
    /// The HSL representation, with spaces.
    pub hsl: String,
    /// The HSL representation without any space.
    pub hsl_plain: String,
}

/// The lighter of the two gray tones of the checkerboard.
pub open spec fn checker_light() -> Color {
    opaque(240, 240, 240)
}

/// The darker of the two gray tones of the checkerboard.
pub open spec fn checker_dark() -> Color {
    opaque(181, 181, 181)
}

/// Distance of the color panel from the top and from the left edge of the
/// checkerboard, which centers the panel on it.
pub open spec fn panel_inset() -> int {
    (CHECKERBOARD_SIZE as int - COLOR_PANEL_SIZE as int) / 2
}

/// The column at which the texts beside the swatch start.
pub open spec fn text_column(padding: int) -> int {
    CHECKERBOARD_SIZE as int + 2 * padding
}

/// Whether every column of a swatch with this padding is a machine integer.
pub open spec fn padding_fits(padding: usize) -> bool {
    text_column(padding as int) + 7 <= usize::MAX
}

/// Something that can be painted as the color panel of a swatch.
pub trait ColorBlock {
    /// The color that represents the block in texts.
    spec fn primary(&self) -> Color;

    /// Whether the block can be painted on a panel of `height` by `width`
    /// cells with its top-left cell at `(row, col)`.
    spec fn paintable(&self, row: int, col: int, height: int, width: int) -> bool;

    /// The marks that painting the block leaves, in the order drawn.
    spec fn marks(&self, row: int, col: int, height: int, width: int) -> Seq<Mark>;

    /// The color that represents the block in texts.
    fn primary_color(&self) -> (color: &Color)
        ensures
            *color == self.primary(),
    ;

    /// Paints the block on the panel of `height` by `width` cells whose
    /// top-left cell is `(row, col)`.
    fn paint(&self, canvas: &mut Canvas, row: usize, col: usize, height: usize, width: usize)
        requires
            self.paintable(row as int, col as int, height as int, width as int),
        ensures
            final(canvas)@ == old(canvas)@ + self.marks(
                row as int,
                col as int,
                height as int,
                width as int,
            ),
            final(canvas).rows() == old(canvas).rows(),
            final(canvas).cols() == old(canvas).cols(),
    ;
}

/// A single color: it fills the whole panel.
impl ColorBlock for Color {
    open spec fn primary(&self) -> Color {
        *self
    }

    open spec fn paintable(&self, row: int, col: int, height: int, width: int) -> bool {
        true
    }

    open spec fn marks(&self, row: int, col: int, height: int, width: int) -> Seq<Mark> {
        seq![Mark::Rect { row, col, height, width, color: *self }]
    }

    fn primary_color(&self) -> (color: &Color) {
        self
    }

    fn paint(&self, canvas: &mut Canvas, row: usize, col: usize, height: usize, width: usize) {
        canvas.draw_rect(row, col, height, width, self);
        assert(canvas@ =~= old(canvas)@ + self.marks(
            row as int,
            col as int,
            height as int,
            width as int,
        ));
    }
}

/// Two overlapping colors and the color of their overlap.
///
/// The output is painted as given: it is expected to be the blend of the
/// source onto the backdrop under some blend mode, and is not computed
/// again here.
#[derive(Clone, Copy, Debug, PartialEq, Eq)]
pub struct Blend {
    pub backdrop: Color,
    pub source: Color,
    pub output: Color,
}

impl Blend {
    /// Whether the output is the blend of the source onto the backdrop under
    /// the given function.
    pub open spec fn blended_by(&self, function: BlendFunction) -> bool {
        &&& self.output.r as int == function.channel(self.backdrop.r, self.source.r)
        &&& self.output.g as int == function.channel(self.backdrop.g, self.source.g)
        &&& self.output.b as int == function.channel(self.backdrop.b, self.source.b)
        &&& self.output.alpha.value() == mean_of(
            self.backdrop.alpha.value(),
            self.source.alpha.value(),
        )
    }

    /// The block of a backdrop, a source and their blend under the given
    /// function.
    pub fn new(function: BlendFunction, backdrop: Color, source: Color) -> (block: Blend)
        ensures
            block.backdrop == backdrop,
            block.source == source,
            block.blended_by(function),
    {
        Blend { backdrop, source, output: function.call(&backdrop, &source) }
    }
}

impl ColorBlock for Blend {
    open spec fn primary(&self) -> Color {
        self.output
    }

    /// The panel has at least two rows and two columns, and the rows and
    /// columns that are painted are machine integers.
    open spec fn paintable(&self, row: int, col: int, height: int, width: int) -> bool {
        &&& height >= 2
        &&& width >= 2
        &&& row + 1 <= usize::MAX
        &&& height + 1 <= usize::MAX
        &&& col + width <= usize::MAX
    }

    /// The backdrop on the top row and the left column, the source on a row
    /// of its own and on the right column, the output on the cells between
    /// them. The row of the source is `height + 1`, counted from the top of
    /// the canvas and not from the top of the panel.
    open spec fn marks(&self, row: int, col: int, height: int, width: int) -> Seq<Mark> {
        seq![
            Mark::Rect { row, col, height: 1, width: width - 1, color: self.backdrop },
            Mark::Rect { row: row + 1, col, height: height - 2, width: 1, color: self.backdrop },
            Mark::Rect {
                row: height + 1,
                col: col + 1,
                height: 1,
                width: width - 1,
                color: self.source,
            },
            Mark::Rect {
                row: row + 1,
                col: col + width - 1,
                height: height - 2,
                width: 1,
                color: self.source,
            },
            Mark::Rect {
                row: row + 1,
                col: col + 1,
                height: height - 2,
                width: width - 2,
                color: self.output,
            },
        ]
    }

    fn primary_color(&self) -> (color: &Color) {
        &self.output
    }

    fn paint(&self, canvas: &mut Canvas, row: usize, col: usize, height: usize, width: usize) {
        canvas.draw_rect(row, col, 1, width - 1, &self.backdrop);
        canvas.draw_rect(row + 1, col, height - 2, 1, &self.backdrop);

        canvas.draw_rect(height + 1, col + 1, 1, width - 1, &self.source);
        canvas.draw_rect(row + 1, col + width - 1, height - 2, 1, &self.source);

        canvas.draw_rect(row + 1, col + 1, height - 2, width - 2, &self.output);
        assert(canvas@ =~= old(canvas)@ + self.marks(
            row as int,
            col as int,
            height as int,
            width as int,
        ));
    }
}

/// No cell is painted twice by a blend, as long as the row of the source
/// does not run through the panel: that is, on a panel that starts in one of
/// the first three rows of the canvas, or below the row of the source.
pub proof fn lemma_blend_marks_apart(block: Blend, row: int, col: int, height: int, width: int)
    requires
        0 <= row,
        0 <= col,
        2 <= height,
        2 <= width,
        row <= 2 || height + 1 < row,
    ensures
        forall|i: int, j: int, r: int, c: int|
            0 <= i < j < 5 ==> !(#[trigger] block.marks(row, col, height, width)[i].fills(r, c)
                && #[trigger] block.marks(row, col, height, width)[j].fills(r, c)),
{
}

/// The picture of two overlapping colors on a panel: the backdrop on the top
/// row and the left column, without the last cell of either; the source on
/// the bottom row and the right column, without the first cell of either;
/// the output between them. The top-right and the bottom-left corner of the
/// panel, and all cells outside it, are left as they are.
pub open spec fn overlap_picture(
    block: Blend,
    row: int,
    col: int,
    height: int,
    width: int,
    r: int,
    c: int,
) -> Option<Color> {
    let bottom = row + height - 1;
    let right = col + width - 1;
    if !(row <= r <= bottom && col <= c <= right) {
        None
    } else if r == row {
        if c < right {
            Some(block.backdrop)
        } else {
            None
        }
    } else if r == bottom {
        if c > col {
            Some(block.source)
        } else {
            None
        }
    } else if c == col {
        Some(block.backdrop)
    } else if c == right {
        Some(block.source)
    } else {
        Some(block.output)
    }
}

/// On a panel that starts in the third row of the canvas, as the panel of a
/// swatch does, the row of the source is the last row of the panel, and a
/// blend paints the picture of two overlapping colors.
pub proof fn lemma_blend_paints_overlap(block: Blend, col: int, height: int, width: int)
    requires
        0 <= col,
        2 <= height,
        2 <= width,
    ensures
        forall|r: int, c: int| #[trigger]
            rect_color(block.marks(2, col, height, width), r, c) == overlap_picture(
                block,
                2,
                col,
                height,
                width,
                r,
                c,
            ),
{
    let marks = block.marks(2, col, height, width);
    assert forall|r: int, c: int| #[trigger]
        rect_color(marks, r, c) == overlap_picture(block, 2, col, height, width, r, c) by {
        let four = marks.drop_last();
        let three = four.drop_last();
        let two = three.drop_last();
        let one = two.drop_last();
        assert(one.drop_last().len() == 0);
        assert(rect_color(one.drop_last(), r, c).is_none());
        assert(rect_color(one, r, c) == if marks[0].fills(r, c) {
            Some(block.backdrop)
        } else {
            None
        });
        assert(rect_color(two, r, c) == if marks[1].fills(r, c) {
            Some(block.backdrop)
        } else {
            rect_color(one, r, c)
        });
        assert(rect_color(three, r, c) == if marks[2].fills(r, c) {
            Some(block.source)
        } else {
            rect_color(two, r, c)
        });
        assert(rect_color(four, r, c) == if marks[3].fills(r, c) {
            Some(block.source)
        } else {
            rect_color(three, r, c)
        });
        assert(rect_color(marks, r, c) == if marks[4].fills(r, c) {
            Some(block.output)
        } else {
            rect_color(four, r, c)
        });
    }
}

/// The marks that one of the nearest named colors leaves beside the swatch.
///
/// A named color with the channels of the shown color gives the line with
/// its name, at the top. Any other gives its name on the row of its rank, with a small
/// rectangle of its color before it.
pub open spec fn entry_marks(entry: NamedColor, color: Color, column: int, rank: int) -> Seq<Mark> {
    if entry.color.same_channels(color) {
        seq![Mark::Text { row: 0, col: column, text: "Name: "@ + entry.name@ }]
    } else {
        seq![
            Mark::Text { row: 10 + 2 * rank, col: column + 7, text: entry.name@ },
            Mark::Rect {
                row: 10 + 2 * rank,
                col: column + 1,
                height: 2,
                width: 5,
                color: entry.color,
            },
        ]
    }
}

/// The marks of the first `count` of the nearest named colors, in their
/// order.
pub open spec fn similar_marks(
    similar: Seq<NamedColor>,
    color: Color,
    column: int,
    count: nat,
) -> Seq<Mark>
    decreases count,
{
    if count == 0 {
        Seq::empty()
    } else {
        similar_marks(similar, color, column, (count - 1) as nat) + entry_marks(
            similar[count - 1],
            color,
            column,
            count - 1,
        )
    }
}

/// Whether one of the first `count` of the nearest named colors has the
/// channels of the shown color.
pub open spec fn named_among(similar: Seq<NamedColor>, color: Color, count: nat) -> bool {
    exists|i: int| 0 <= i < count && (#[trigger] similar[i]).color.same_channels(color)
}

/// How many of the nearest named colors are drawn: the first three, or all
/// where there are fewer.
pub open spec fn similar_shown(similar: Seq<NamedColor>) -> nat {
    if similar.len() < 3 {
        similar.len()
    } else {
        3
    }
}

/// By how many rows the representations of the color are moved down, to
/// leave room for the line with its name.
pub open spec fn caption_offset(similar: Seq<NamedColor>, color: Color) -> int {
    if named_among(similar, color, similar_shown(similar)) {
        2
    } else {
        0
    }
}

/// The representations of the color and the heading of the list of the
/// nearest named colors, from `offset` rows below the top.
pub open spec fn caption_marks(description: ColorDescription, column: int, offset: int) -> Seq<Mark> {
    seq![
        Mark::Text { row: offset, col: column, text: "Hex: "@ + description.hex@ },
        Mark::Text { row: 2 + offset, col: column, text: "RGB: "@ + description.rgb@ },
        Mark::Text { row: 4 + offset, col: column, text: "HSL: "@ + description.hsl@ },
        Mark::Text { row: 8 + offset, col: column, text: "Most similar:"@ },
    ]
}

/// Everything drawn for the swatch of a block, in the order drawn: the
/// checkerboard, the block on the panel centered on it, the nearest named
/// colors, and the representations of the primary color.
pub open spec fn swatch_marks<C: ColorBlock>(
    block: &C,
    padding: int,
    description: ColorDescription,
) -> Seq<Mark> {
    let column = text_column(padding);
    seq![
        Mark::Checkerboard {
            row: 0,
            col: padding,
            height: CHECKERBOARD_SIZE as int,
            width: CHECKERBOARD_SIZE as int,
            first: checker_light(),
            second: checker_dark(),
        },
    ] + block.marks(
        panel_inset(),
        padding + panel_inset(),
        COLOR_PANEL_SIZE as int,
        COLOR_PANEL_SIZE as int,
    ) + similar_marks(
        description.similar@,
        block.primary(),
        column,
        similar_shown(description.similar@),
    ) + caption_marks(description, column, caption_offset(description.similar@, block.primary()))
}

/// Whether a swatch of the block can be drawn with this padding.
pub open spec fn swatch_drawable<C: ColorBlock>(block: &C, padding: usize) -> bool {
    &&& padding_fits(padding)
    &&& block.paintable(
        panel_inset(),
        padding + panel_inset(),
        COLOR_PANEL_SIZE as int,
        COLOR_PANEL_SIZE as int,
    )
}

/// One piece of what showing a color writes to its destination.
#[derive(Debug, PartialEq, Eq)]
pub enum Piece {
    /// The picture of a canvas.
    Swatch(Canvas),
    /// A text followed by a line break; with an empty text, a blank line.
    Line(String),
}

/// The mathematical value of a piece.
pub enum Written {
    Swatch { rows: int, cols: int, marks: Seq<Mark> },
    Line(Seq<char>),
}

impl View for Piece {
    type V = Written;

    open spec fn view(&self) -> Written {
        match self {
            Piece::Swatch(canvas) => Written::Swatch {
                rows: canvas.rows(),
                cols: canvas.cols(),
                marks: canvas@,
            },
            Piece::Line(text) => Written::Line(text@),
        }
    }
}

/// The values of a list of pieces, in the same order.
pub open spec fn written_of(pieces: Seq<Piece>) -> Seq<Written> {
    pieces.map_values(|piece: Piece| piece@)
}

/// What showing a block writes, in the order written.
///
/// In interactive mode: a blank line if this is the first color shown, the
/// swatch, and a blank line. Otherwise one line, the HSL representation of
/// the primary color without spaces.
pub open spec fn shown<C: ColorBlock>(
    first: bool,
    config: Config,
    block: &C,
    description: ColorDescription,
) -> Seq<Written> {
    if config.interactive_mode {
        let swatch = Written::Swatch {
            rows: CHECKERBOARD_SIZE as int,
            cols: CANVAS_WIDTH as int,
            marks: swatch_marks(block, config.padding as int, description),
        };
        if first {
            seq![Written::Line(Seq::empty()), swatch, Written::Line(Seq::empty())]
        } else {
            seq![swatch, Written::Line(Seq::empty())]
        }
    } else {
        seq![Written::Line(description.hsl_plain@)]
    }
}

/// What showing a block writes depends on what was shown before only in the
/// blank line that leads the first swatch: without it, the pieces are the
/// same every time.
pub proof fn lemma_shown_again<C: ColorBlock>(
    config: Config,
    block: &C,
    description: ColorDescription,
)
    ensures
        config.interactive_mode ==> shown(true, config, block, description) == seq![
            Written::Line(Seq::empty()),
        ] + shown(false, config, block, description),
        !config.interactive_mode ==> shown(true, config, block, description) == shown(
            false,
            config,
            block,
            description,
        ),
{
    if config.interactive_mode {
        assert(shown(true, config, block, description) =~= seq![Written::Line(Seq::empty())]
            + shown(false, config, block, description));
    }
}

/// Shows colors one after another and counts them.
#[derive(Clone, Copy, Debug, PartialEq, Eq)]
pub struct Output {
    colors_shown: usize,
}

impl Output {
    /// The number of colors shown so far.
    pub closed spec fn count(&self) -> nat {
        self.colors_shown as nat
    }

    /// An output that has shown no color yet.
    pub fn new() -> (output: Output)
        ensures
            output.count() == 0,
    {
        Output { colors_shown: 0 }
    }

    /// The number of colors shown so far.
    pub fn colors_shown(&self) -> (shown: usize)
        ensures
            shown == self.count(),
    {
        self.colors_shown
    }

    /// Draws the swatch of a block: the checkerboard, the block on the panel
    /// centered on it and, to the right, the texts that describe its primary
    /// color.
    pub fn show_color_tty<C: ColorBlock>(
        &self,
        config: &Config,
        color_block: &C,
        description: &ColorDescription,
    ) -> (canvas: Canvas)
        requires
            swatch_drawable(color_block, config.padding),
        ensures
            canvas@ == swatch_marks(color_block, config.padding as int, *description),
            canvas.rows() == CHECKERBOARD_SIZE,
            canvas.cols() == CANVAS_WIDTH,
    {
        let color = color_block.primary_color();
        let checkerboard_size: usize = CHECKERBOARD_SIZE;
        let color_panel_size: usize = COLOR_PANEL_SIZE;

        let checkerboard_position_y: usize = 0;
        let checkerboard_position_x: usize = config.padding;
        let color_panel_position_y: usize = checkerboard_position_y + (checkerboard_size
            - color_panel_size) / 2;
        let color_panel_position_x: usize = config.padding + (checkerboard_size - color_panel_size)
            / 2;
        let text_position_x: usize = checkerboard_size + 2 * config.padding;
        let text_position_y: usize = 0;

        let mut canvas = Canvas::new(checkerboard_size, CANVAS_WIDTH);
        canvas.draw_checkerboard(
            checkerboard_position_y,
            checkerboard_position_x,
            checkerboard_size,
            checkerboard_size,
            &Color::from_rgb(240, 240, 240),
            &Color::from_rgb(181, 181, 181),
        );
        color_block.paint(
            &mut canvas,
            color_panel_position_y,
            color_panel_position_x,
            color_panel_size,
            color_panel_size,
        );

        let ghost panel = canvas@;
        let similar = &description.similar;
        let mut text_y_offset: usize = 0;
        let mut i: usize = 0;
        while i < similar.len() && i < 3
            invariant
                i <= similar_shown(similar@),
                text_position_x == text_column(config.padding as int),
                padding_fits(config.padding),
                text_position_y == 0,
                *color == color_block.primary(),
                canvas@ == panel + similar_marks(similar@, *color, text_position_x as int, i as nat),
                text_y_offset == (if named_among(similar@, *color, i as nat) {
                    2int
                } else {
                    0int
                }),
                canvas.rows() == CHECKERBOARD_SIZE,
                canvas.cols() == CANVAS_WIDTH,
            decreases similar.len() - i,
        {
            let nc = &similar[i];
            let ghost before = canvas@;
            if nc.color == *color {
                let label = String::from_str("Name: ").concat(nc.name.as_str());
                canvas.draw_text(text_position_y, text_position_x, label.as_str());
                text_y_offset = 2;
            } else {
                canvas.draw_text(text_position_y + 10 + 2 * i, text_position_x + 7, nc.name.as_str());
                canvas.draw_rect(
                    text_position_y + 10 + 2 * i,
                    text_position_x + 1,
                    2,
                    5,
                    &nc.color,
                );
            }
            assert(canvas@ =~= before + entry_marks(
                similar@[i as int],
                *color,
                text_position_x as int,
                i as int,
            ));
            assert(named_among(similar@, *color, (i + 1) as nat) <==> (named_among(
                similar@,
                *color,
                i as nat,
            ) || similar@[i as int].color.same_channels(*color)));
            i += 1;
        }

        let hex = String::from_str("Hex: ").concat(description.hex.as_str());
        canvas.draw_text(text_position_y + 0 + text_y_offset, text_position_x, hex.as_str());
        let rgb = String::from_str("RGB: ").concat(description.rgb.as_str());
        canvas.draw_text(text_position_y + 2 + text_y_offset, text_position_x, rgb.as_str());
        let hsl = String::from_str("HSL: ").concat(description.hsl.as_str());
        canvas.draw_text(text_position_y + 4 + text_y_offset, text_position_x, hsl.as_str());

        canvas.draw_text(text_position_y + 8 + text_y_offset, text_position_x, "Most similar:");

        assert(canvas@ =~= swatch_marks(color_block, config.padding as int, *description));
        canvas
    }

    /// Shows a block: says what is to be written, in order, and counts the
    /// color as shown.
    pub fn show_color<C: ColorBlock>(
        &mut self,
        config: &Config,
        color_block: &C,
        description: &ColorDescription,
    ) -> (pieces: Vec<Piece>)
        requires
            old(self).count() < usize::MAX,
            config.interactive_mode ==> swatch_drawable(color_block, config.padding),
        ensures
            written_of(pieces@) == shown(old(self).count() < 1, *config, color_block, *description),
            final(self).count() == old(self).count() + 1,
    {
        let mut pieces: Vec<Piece> = Vec::new();
        if config.interactive_mode {
            if self.colors_shown < 1 {
                pieces.push(Piece::Line(String::new()));
            }
            let canvas = self.show_color_tty(config, color_block, description);
            pieces.push(Piece::Swatch(canvas));
            pieces.push(Piece::Line(String::new()));
        } else {
            pieces.push(Piece::Line(description.hsl_plain.clone()));
        }
        self.colors_shown += 1;

        assert(written_of(pieces@) =~= shown(
            old(self).count() < 1,
            *config,
            color_block,
            *description,
        ));
        pieces
    }
}

} // verus!
