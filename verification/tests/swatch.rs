use swatch::alpha::Alpha;
use swatch::blend::{BlendMode, Screen};
use swatch::canvas::{Canvas, DrawCommand};
use swatch::color::Color;
use swatch::output::{
    Blend, ColorBlock, ColorDescription, Config, NamedColor, Output, Piece, CANVAS_WIDTH,
    CHECKERBOARD_SIZE, COLOR_PANEL_SIZE,
};
use swatch::selection::BlendFunction;

fn rect(row: usize, col: usize, height: usize, width: usize, color: Color) -> DrawCommand {
    DrawCommand::Rect { row, col, height, width, color }
}

fn text(row: usize, col: usize, text: &str) -> DrawCommand {
    DrawCommand::Text { row, col, text: text.to_string() }
}

fn named(name: &str, color: Color) -> NamedColor {
    NamedColor { name: name.to_string(), color }
}

fn describe(similar: Vec<NamedColor>) -> ColorDescription {
    ColorDescription {
        similar,
        hex: "#ff0000".to_string(),
        rgb: "rgb(255, 0, 0)".to_string(),
        hsl: "hsl(0, 100.0%, 50.0%)".to_string(),
        hsl_plain: "hsl(0,100.0%,50.0%)".to_string(),
    }
}

fn red() -> Color {
    Color::from_rgb(255, 0, 0)
}

fn crimson() -> Color {
    Color::from_rgb(220, 20, 60)
}

fn tomato() -> Color {
    Color::from_rgb(255, 99, 71)
}

fn orange_red() -> Color {
    Color::from_rgb(255, 69, 0)
}

fn checkerboard(padding: usize) -> DrawCommand {
    DrawCommand::Checkerboard {
        row: 0,
        col: padding,
        height: 16,
        width: 16,
        first: Color::from_rgb(240, 240, 240),
        second: Color::from_rgb(181, 181, 181),
    }
}

/// How many of the rectangles among the commands cover the cell.
fn times_painted(commands: &[DrawCommand], r: usize, c: usize) -> usize {
    let mut count = 0;
    for command in commands {
        if let DrawCommand::Rect { row, col, height, width, .. } = command {
            if *row <= r && r < row + height && *col <= c && c < col + width {
                count += 1;
            }
        }
    }
    count
}

#[test]
fn the_sizes_of_a_swatch() {
    assert_eq!(CHECKERBOARD_SIZE, 16);
    assert_eq!(COLOR_PANEL_SIZE, 12);
    assert_eq!(CANVAS_WIDTH, 60);
}

#[test]
fn a_new_canvas_is_empty() {
    let canvas = Canvas::new(16, 60);
    assert_eq!(canvas.height(), 16);
    assert_eq!(canvas.width(), 60);
    assert!(canvas.commands().is_empty());
}

#[test]
fn a_canvas_records_the_commands_in_order() {
    let mut canvas = Canvas::new(4, 9);
    canvas.draw_text(2, 3, "abc");
    canvas.draw_rect(1, 2, 3, 4, &red());
    canvas.draw_checkerboard(0, 1, 2, 3, &crimson(), &tomato());
    canvas.draw_text(0, 0, "");
    assert_eq!(canvas.height(), 4);
    assert_eq!(canvas.width(), 9);
    assert_eq!(
        canvas.commands(),
        &vec![
            text(2, 3, "abc"),
            rect(1, 2, 3, 4, red()),
            DrawCommand::Checkerboard {
                row: 0,
                col: 1,
                height: 2,
                width: 3,
                first: crimson(),
                second: tomato(),
            },
            text(0, 0, ""),
        ]
    );
}

#[test]
fn a_single_color_is_its_own_primary_color_and_fills_the_panel() {
    let color = crimson();
    assert_eq!(*color.primary_color(), crimson());
    let mut canvas = Canvas::new(16, 60);
    color.paint(&mut canvas, 3, 5, 7, 9);
    assert_eq!(canvas.commands(), &vec![rect(3, 5, 7, 9, crimson())]);
    color.paint(&mut canvas, 0, 0, 0, 0);
    assert_eq!(canvas.commands(), &vec![rect(3, 5, 7, 9, crimson()), rect(0, 0, 0, 0, crimson())]);
}

#[test]
fn the_primary_color_of_a_blend_is_its_output() {
    let blend = Blend { backdrop: red(), source: crimson(), output: tomato() };
    assert_eq!(*blend.primary_color(), tomato());
}

#[test]
fn a_blend_paints_two_corners_and_their_overlap() {
    let blend = Blend { backdrop: red(), source: crimson(), output: tomato() };
    let mut canvas = Canvas::new(16, 60);
    blend.paint(&mut canvas, 0, 0, 5, 5);
    assert_eq!(
        canvas.commands(),
        &vec![
            rect(0, 0, 1, 4, red()),
            rect(1, 0, 3, 1, red()),
            rect(6, 1, 1, 4, crimson()),
            rect(1, 4, 3, 1, crimson()),
            rect(1, 1, 3, 3, tomato()),
        ]
    );
    for r in 0..10 {
        for c in 0..10 {
            let top = r == 0 && c <= 3;
            let left = 1 <= r && r <= 3 && c == 0;
            let right = 1 <= r && r <= 3 && c == 4;
            let inside = 1 <= r && r <= 3 && 1 <= c && c <= 3;
            let source_row = r == 6 && 1 <= c && c <= 4;
            let expected = if top || left || right || inside || source_row { 1 } else { 0 };
            assert_eq!(times_painted(canvas.commands(), r, c), expected, "cell {} {}", r, c);
        }
    }
}

#[test]
fn a_blend_on_the_panel_of_a_swatch_leaves_two_corners_free() {
    let blend = Blend { backdrop: red(), source: crimson(), output: tomato() };
    let mut canvas = Canvas::new(16, 60);
    blend.paint(&mut canvas, 2, 4, 12, 12);
    assert_eq!(
        canvas.commands(),
        &vec![
            rect(2, 4, 1, 11, red()),
            rect(3, 4, 10, 1, red()),
            rect(13, 5, 1, 11, crimson()),
            rect(3, 15, 10, 1, crimson()),
            rect(3, 5, 10, 10, tomato()),
        ]
    );
    for r in 0..16 {
        for c in 0..60 {
            let on_panel = 2 <= r && r < 14 && 4 <= c && c < 16;
            let free_corner = (r == 2 && c == 15) || (r == 13 && c == 4);
            let expected = if on_panel && !free_corner { 1 } else { 0 };
            assert_eq!(times_painted(canvas.commands(), r, c), expected, "cell {} {}", r, c);
        }
    }
}

#[test]
fn the_smallest_blend_has_no_overlap() {
    let blend = Blend { backdrop: red(), source: crimson(), output: tomato() };
    let mut canvas = Canvas::new(16, 60);
    blend.paint(&mut canvas, 7, 9, 2, 2);
    assert_eq!(
        canvas.commands(),
        &vec![
            rect(7, 9, 1, 1, red()),
            rect(8, 9, 0, 1, red()),
            rect(3, 10, 1, 1, crimson()),
            rect(8, 10, 0, 1, crimson()),
            rect(8, 10, 0, 0, tomato()),
        ]
    );
}

#[test]
fn the_panel_is_centered_on_the_checkerboard() {
    let output = Output::new();
    let config = Config { padding: 2, interactive_mode: true };
    let canvas = output.show_color_tty(&config, &red(), &describe(vec![]));
    assert_eq!(canvas.height(), 16);
    assert_eq!(canvas.width(), 60);
    assert_eq!(canvas.commands()[0], checkerboard(2));
    assert_eq!(canvas.commands()[1], rect(2, 4, 12, 12, red()));
}

#[test]
fn a_swatch_without_named_colors() {
    let output = Output::new();
    let config = Config { padding: 2, interactive_mode: true };
    let canvas = output.show_color_tty(&config, &red(), &describe(vec![]));
    assert_eq!(
        canvas.commands(),
        &vec![
            checkerboard(2),
            rect(2, 4, 12, 12, red()),
            text(0, 20, "Hex: #ff0000"),
            text(2, 20, "RGB: rgb(255, 0, 0)"),
            text(4, 20, "HSL: hsl(0, 100.0%, 50.0%)"),
            text(8, 20, "Most similar:"),
        ]
    );
}

#[test]
fn a_swatch_lists_the_three_nearest_named_colors() {
    let output = Output::new();
    let config = Config { padding: 0, interactive_mode: true };
    let color = Color::from_rgb(250, 10, 10);
    let similar = vec![
        named("red", red()),
        named("crimson", crimson()),
        named("orangered", orange_red()),
        named("tomato", tomato()),
    ];
    let canvas = output.show_color_tty(&config, &color, &describe(similar));
    assert_eq!(
        canvas.commands(),
        &vec![
            checkerboard(0),
            rect(2, 2, 12, 12, color),
            text(10, 23, "red"),
            rect(10, 17, 2, 5, red()),
            text(12, 23, "crimson"),
            rect(12, 17, 2, 5, crimson()),
            text(14, 23, "orangered"),
            rect(14, 17, 2, 5, orange_red()),
            text(0, 16, "Hex: #ff0000"),
            text(2, 16, "RGB: rgb(255, 0, 0)"),
            text(4, 16, "HSL: hsl(0, 100.0%, 50.0%)"),
            text(8, 16, "Most similar:"),
        ]
    );
}

#[test]
fn a_color_with_a_name_shows_it_and_moves_the_texts_down() {
    let output = Output::new();
    let config = Config { padding: 3, interactive_mode: true };
    let similar = vec![named("red", red()), named("orangered", orange_red())];
    let canvas = output.show_color_tty(&config, &red(), &describe(similar));
    assert_eq!(
        canvas.commands(),
        &vec![
            checkerboard(3),
            rect(2, 5, 12, 12, red()),
            text(0, 22, "Name: red"),
            text(12, 29, "orangered"),
            rect(12, 23, 2, 5, orange_red()),
            text(2, 22, "Hex: #ff0000"),
            text(4, 22, "RGB: rgb(255, 0, 0)"),
            text(6, 22, "HSL: hsl(0, 100.0%, 50.0%)"),
            text(10, 22, "Most similar:"),
        ]
    );
}

#[test]
fn a_name_beyond_the_third_nearest_is_not_shown() {
    let output = Output::new();
    let config = Config { padding: 1, interactive_mode: true };
    let similar = vec![
        named("crimson", crimson()),
        named("orangered", orange_red()),
        named("tomato", tomato()),
        named("red", red()),
    ];
    let canvas = output.show_color_tty(&config, &red(), &describe(similar));
    assert_eq!(
        canvas.commands(),
        &vec![
            checkerboard(1),
            rect(2, 3, 12, 12, red()),
            text(10, 25, "crimson"),
            rect(10, 19, 2, 5, crimson()),
            text(12, 25, "orangered"),
            rect(12, 19, 2, 5, orange_red()),
            text(14, 25, "tomato"),
            rect(14, 19, 2, 5, tomato()),
            text(0, 18, "Hex: #ff0000"),
            text(2, 18, "RGB: rgb(255, 0, 0)"),
            text(4, 18, "HSL: hsl(0, 100.0%, 50.0%)"),
            text(8, 18, "Most similar:"),
        ]
    );
}

#[test]
fn two_names_of_one_color_are_both_drawn_at_the_top() {
    let output = Output::new();
    let config = Config { padding: 0, interactive_mode: true };
    let aqua = Color::from_rgb(0, 255, 255);
    let similar = vec![named("aqua", aqua), named("cyan", aqua), named("red", red())];
    let canvas = output.show_color_tty(&config, &aqua, &describe(similar));
    assert_eq!(
        canvas.commands(),
        &vec![
            checkerboard(0),
            rect(2, 2, 12, 12, aqua),
            text(0, 16, "Name: aqua"),
            text(0, 16, "Name: cyan"),
            text(14, 23, "red"),
            rect(14, 17, 2, 5, red()),
            text(2, 16, "Hex: #ff0000"),
            text(4, 16, "RGB: rgb(255, 0, 0)"),
            text(6, 16, "HSL: hsl(0, 100.0%, 50.0%)"),
            text(10, 16, "Most similar:"),
        ]
    );
}

#[test]
fn the_swatch_of_a_blend_shows_its_output() {
    let output = Output::new();
    let config = Config { padding: 2, interactive_mode: true };
    let backdrop = Color::from_rgb(200, 200, 200);
    let source = Color::from_rgb(100, 100, 100);
    let blend = Blend { backdrop, source, output: Screen::blend(&backdrop, &source) };
    let gray = Color::from_rgb(221, 221, 221);
    let similar = vec![named("gainsboro", Color::from_rgb(220, 220, 220)), named("mine", gray)];
    let canvas = output.show_color_tty(&config, &blend, &describe(similar));
    assert_eq!(
        canvas.commands(),
        &vec![
            checkerboard(2),
            rect(2, 4, 1, 11, backdrop),
            rect(3, 4, 10, 1, backdrop),
            rect(13, 5, 1, 11, source),
            rect(3, 15, 10, 1, source),
            rect(3, 5, 10, 10, gray),
            text(10, 27, "gainsboro"),
            rect(10, 21, 2, 5, Color::from_rgb(220, 220, 220)),
            text(0, 20, "Name: mine"),
            text(2, 20, "Hex: #ff0000"),
            text(4, 20, "RGB: rgb(255, 0, 0)"),
            text(6, 20, "HSL: hsl(0, 100.0%, 50.0%)"),
            text(10, 20, "Most similar:"),
        ]
    );
}

#[test]
fn a_new_output_has_shown_nothing() {
    assert_eq!(Output::new().colors_shown(), 0);
}

#[test]
fn plain_mode_writes_one_line() {
    let mut output = Output::new();
    let config = Config { padding: 2, interactive_mode: false };
    let pieces = output.show_color(&config, &red(), &describe(vec![named("red", red())]));
    assert_eq!(pieces, vec![Piece::Line("hsl(0,100.0%,50.0%)".to_string())]);
    assert_eq!(output.colors_shown(), 1);
    let pieces = output.show_color(&config, &red(), &describe(vec![named("red", red())]));
    assert_eq!(pieces, vec![Piece::Line("hsl(0,100.0%,50.0%)".to_string())]);
    assert_eq!(output.colors_shown(), 2);
}

#[test]
fn plain_mode_takes_any_padding() {
    let mut output = Output::new();
    let config = Config { padding: usize::MAX, interactive_mode: false };
    let pieces = output.show_color(&config, &red(), &describe(vec![]));
    assert_eq!(pieces, vec![Piece::Line("hsl(0,100.0%,50.0%)".to_string())]);
}

#[test]
fn the_first_swatch_is_led_by_a_blank_line() {
    let mut output = Output::new();
    let config = Config { padding: 2, interactive_mode: true };
    let description = describe(vec![named("red", red())]);
    let first = output.show_color(&config, &red(), &description);
    assert_eq!(output.colors_shown(), 1);
    let second = output.show_color(&config, &red(), &description);
    assert_eq!(output.colors_shown(), 2);
    let blank = Piece::Line(String::new());
    assert_eq!(first.len(), 3);
    assert_eq!(first[0], blank);
    assert_eq!(first[2], blank);
    assert_eq!(second.len(), 2);
    assert_eq!(second[1], blank);
    assert_eq!(first[1], second[0]);
    let canvas = Output::new().show_color_tty(&config, &red(), &description);
    assert_eq!(first[1], Piece::Swatch(canvas));
}

#[test]
fn a_plain_line_before_leaves_no_blank_line_to_lead() {
    let mut output = Output::new();
    let plain = Config { padding: 2, interactive_mode: false };
    let interactive = Config { padding: 2, interactive_mode: true };
    let description = describe(vec![]);
    output.show_color(&plain, &red(), &description);
    let pieces = output.show_color(&interactive, &red(), &description);
    assert_eq!(pieces.len(), 2);
    assert_eq!(output.colors_shown(), 2);
}

#[test]
fn showing_the_same_block_on_two_outputs_writes_the_same() {
    let backdrop = Color::from_rgb(12, 130, 250);
    let source = Color::from_rgb(99, 1, 77);
    let blend = Blend { backdrop, source, output: Screen::blend(&backdrop, &source) };
    let description = describe(vec![named("red", red()), named("tomato", tomato())]);
    for interactive_mode in [true, false] {
        let config = Config { padding: 4, interactive_mode };
        let mut one = Output::new();
        let mut other = Output::new();
        let first = one.show_color(&config, &blend, &description);
        let second = other.show_color(&config, &blend, &description);
        assert_eq!(first, second);
        assert_eq!(one, other);
    }
}

#[test]
fn a_blend_block_holds_the_blend_of_its_colors() {
    let backdrop = Color::from_rgb(200, 17, 128);
    let source = Color::from_rgb(100, 195, 0);
    let block = Blend::new(BlendFunction::Screen, backdrop, source);
    assert_eq!(block.backdrop, backdrop);
    assert_eq!(block.source, source);
    assert_eq!(block.output, Color::from_rgb(221, 198, 128));
    assert_eq!(*block.primary_color(), Color::from_rgb(221, 198, 128));
    let block = Blend::new(BlendFunction::Multiply, backdrop, source);
    assert_eq!(block.output, Color::from_rgb(78, 13, 0));
    let block = Blend::new(BlendFunction::Overlay, backdrop, source);
    assert_eq!(block.output, Color::from_rgb(188, 25, 0));
}

#[test]
fn a_translucent_color_is_named_by_its_channels() {
    let output = Output::new();
    let config = Config { padding: 0, interactive_mode: true };
    let faint = Color::from_rgba(255, 0, 0, Alpha::from_bits(0.25f64.to_bits()).unwrap());
    let canvas = output.show_color_tty(&config, &faint, &describe(vec![named("red", red())]));
    assert_eq!(canvas.commands()[2], text(0, 16, "Name: red"));
    assert_eq!(canvas.commands()[3], text(2, 16, "Hex: #ff0000"));
}

#[test]
fn a_blend_block_holds_the_mean_of_the_alphas() {
    let backdrop = Color::from_rgba(200, 17, 128, Alpha::from_bits(0.5f64.to_bits()).unwrap());
    let source = Color::from_rgba(100, 195, 0, Alpha::from_bits(0.25f64.to_bits()).unwrap());
    let block = Blend::new(BlendFunction::Screen, backdrop, source);
    assert_eq!(f64::from_bits(block.output.alpha.to_bits()), 0.375);
    assert_eq!(f64::from_bits(block.backdrop.alpha.to_bits()), 0.5);
    assert_eq!(f64::from_bits(block.source.alpha.to_bits()), 0.25);
}
