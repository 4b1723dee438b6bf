//! Choosing a blend mode by its name.

use vstd::prelude::*;
use vstd::pervasive::unreached;
use vstd::string::StrSliceExecFns;
use crate::alpha::{mean_of, OPAQUE_BITS};
use crate::blend::{BlendMode, Multiply, Overlay, Screen};
use crate::color::Color;

verus! {

/// A blend mode chosen at run time.
#[derive(Clone, Copy, Debug, PartialEq, Eq, Structural)]
pub enum BlendFunction {
    Multiply,
    Screen,
    Overlay,
}

impl BlendFunction {
    /// The blended value of one channel under the chosen mode.
    pub open spec fn channel(self, backdrop: u8, source: u8) -> int {
        match self {
            BlendFunction::Multiply => Multiply::channel(backdrop, source),
            BlendFunction::Screen => Screen::channel(backdrop, source),
            BlendFunction::Overlay => Overlay::channel(backdrop, source),
        }
    }

    /// Blends the source onto the backdrop under the chosen mode, each
    /// channel on its own. The alpha of the blend is the mean of the two
    /// alphas.
    pub fn call(&self, backdrop: &Color, source: &Color) -> (blended: Color)
        ensures
            blended.r as int == self.channel(backdrop.r, source.r),
            blended.g as int == self.channel(backdrop.g, source.g),
            blended.b as int == self.channel(backdrop.b, source.b),
            blended.alpha.bits() <= OPAQUE_BITS,
            blended.alpha.value() == mean_of(backdrop.alpha.value(), source.alpha.value()),
    {
        match self {
            BlendFunction::Multiply => Multiply::blend(backdrop, source),
            BlendFunction::Screen => Screen::blend(backdrop, source),
            BlendFunction::Overlay => Overlay::blend(backdrop, source),
        }
    }
}

/// The lower-case form of a letter from `A` to `Z`; any other character
/// itself.
pub open spec fn folded(c: char) -> char {
    if 'A' <= c <= 'Z' {
        ((c as u8) + 32) as char
    } else {
        c
    }
}

/// The text with each of its characters folded.
pub open spec fn lowercase(text: Seq<char>) -> Seq<char> {
    text.map_values(|c: char| folded(c))
}

/// The blend mode that a name stands for: `multiply`, `screen` or
/// `overlay`, in upper or lower case or a mix of them.
pub open spec fn selected(name: Seq<char>) -> Option<BlendFunction> {
    if lowercase(name) == "multiply"@ {
        Some(BlendFunction::Multiply)
    } else if lowercase(name) == "screen"@ {
        Some(BlendFunction::Screen)
    } else if lowercase(name) == "overlay"@ {
        Some(BlendFunction::Overlay)
    } else {
        None
    }
}

fn fold(c: char) -> (f: char)
    ensures
        f == folded(c),
{
    if c >= 'A' && c <= 'Z' {
        ((c as u8) + 32) as char
    } else {
        c
    }
}

/// Whether the text, folded, is the word.
fn is_word(text: &str, word: &str) -> (same: bool)
    ensures
        same == (lowercase(text@) == word@),
{
    let n: usize = text.unicode_len();
    if n != word.unicode_len() {
        return false;
    }
    let mut i: usize = 0;
    while i < n
        invariant
            i <= n,
            n == text@.len(),
            n == word@.len(),
            forall|j: int| 0 <= j < i ==> folded(#[trigger] text@[j]) == word@[j],
        decreases n - i,
    {
        if fold(text.get_char(i)) != word.get_char(i) {
            assert(lowercase(text@)[i as int] != word@[i as int]);
            return false;
        }
        i += 1;
    }
    assert(lowercase(text@) =~= word@);
    true
}

/// The blend mode that a name stands for, if it stands for one.
pub fn find_blending_function(blend_mode: &str) -> (found: Option<BlendFunction>)
    ensures
        found == selected(blend_mode@),
{
    if is_word(blend_mode, "multiply") {
        Some(BlendFunction::Multiply)
    } else if is_word(blend_mode, "screen") {
        Some(BlendFunction::Screen)
    } else if is_word(blend_mode, "overlay") {
        Some(BlendFunction::Overlay)
    } else {
        None
    }
}

/// The blend mode that a name stands for. The name has been checked to
/// stand for one.
pub fn get_blending_function(blend_mode: &str) -> (function: BlendFunction)
    requires
        selected(blend_mode@) is Some,
    ensures
        selected(blend_mode@) == Some(function),
{
    match find_blending_function(blend_mode) {
        Some(function) => function,
        None => unreached(),
    }
}

} // verus!
