use swatch::alpha::Alpha;
use swatch::blend::{BlendMode, Multiply, Overlay, Screen};
use swatch::color::Color;
use swatch::selection::{find_blending_function, get_blending_function, BlendFunction};

#[test]
fn each_name_selects_its_mode() {
    assert_eq!(get_blending_function("multiply"), BlendFunction::Multiply);
    assert_eq!(get_blending_function("screen"), BlendFunction::Screen);
    assert_eq!(get_blending_function("overlay"), BlendFunction::Overlay);
}

#[test]
fn names_are_taken_in_any_case() {
    assert_eq!(get_blending_function("MULTIPLY"), BlendFunction::Multiply);
    assert_eq!(get_blending_function("Screen"), BlendFunction::Screen);
    assert_eq!(get_blending_function("oVeRlAy"), BlendFunction::Overlay);
    assert_eq!(find_blending_function("MultiplY"), Some(BlendFunction::Multiply));
    assert_eq!(find_blending_function("SCREEN"), Some(BlendFunction::Screen));
    assert_eq!(find_blending_function("overlaY"), Some(BlendFunction::Overlay));
}

#[test]
fn other_names_select_nothing() {
    assert_eq!(find_blending_function(""), None);
    assert_eq!(find_blending_function("multipl"), None);
    assert_eq!(find_blending_function("multiplyy"), None);
    assert_eq!(find_blending_function(" screen"), None);
    assert_eq!(find_blending_function("screen "), None);
    assert_eq!(find_blending_function("darken"), None);
    assert_eq!(find_blending_function("over-lay"), None);
    // Characters beside the letters A to Z are not folded.
    assert_eq!(find_blending_function("screeN\u{301}"), None);
    assert_eq!(find_blending_function("\u{17f}creen"), None);
    assert_eq!(find_blending_function("mu\u{4c}tiply"), Some(BlendFunction::Multiply));
    assert_eq!(find_blending_function("mu\u{2113}tiply"), None);
    // The characters next to the letters in the code table stay apart.
    assert_eq!(find_blending_function("@creen"), None);
    assert_eq!(find_blending_function("[creen"), None);
    assert_eq!(find_blending_function("s\u{43}reen"), Some(BlendFunction::Screen));
}

#[test]
fn a_selected_mode_blends_as_the_mode_does() {
    let backdrop = Color::from_rgb(200, 17, 128);
    let source = Color::from_rgb(100, 195, 0);
    assert_eq!(
        get_blending_function("multiply").call(&backdrop, &source),
        Multiply::blend(&backdrop, &source)
    );
    assert_eq!(
        get_blending_function("screen").call(&backdrop, &source),
        Screen::blend(&backdrop, &source)
    );
    assert_eq!(
        get_blending_function("overlay").call(&backdrop, &source),
        Overlay::blend(&backdrop, &source)
    );
    assert_eq!(
        BlendFunction::Multiply.call(&backdrop, &source),
        Color::from_rgb(78, 13, 0)
    );
    assert_eq!(BlendFunction::Screen.call(&backdrop, &source), Color::from_rgb(221, 198, 128));
    assert_eq!(BlendFunction::Overlay.call(&backdrop, &source), Color::from_rgb(188, 25, 0));
}

#[test]
fn a_selected_mode_takes_the_mean_of_the_alphas() {
    let backdrop =
        Color::from_rgba(200, 17, 128, Alpha::from_bits(0.5f64.to_bits()).unwrap());
    let source = Color::from_rgba(100, 195, 0, Alpha::from_bits(1.0f64.to_bits()).unwrap());
    for name in ["multiply", "screen", "overlay"] {
        let blended = get_blending_function(name).call(&backdrop, &source);
        assert_eq!(f64::from_bits(blended.alpha.to_bits()), 0.75);
    }
}
