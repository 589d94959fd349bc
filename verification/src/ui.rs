//! A push button: where it is, what it looks like and when it counts as
//! clicked. Drawing it is left to whoever owns the window.

use vstd::prelude::*;
use crate::events::Event;

verus! {

/// A colour with an alpha channel.
#[derive(Clone, Copy, Debug, PartialEq, Eq, Structural)]
pub struct Color {
    pub r: u8,
    pub g: u8,
    pub b: u8,
    pub a: u8,
}

/// A colour channel at nine tenths of its brightness, rounded down.
pub open spec fn dimmed(c: u8) -> u8 {
    (c * 9 / 10) as u8
}

impl Color {
    /// Opaque white.
    pub fn white() -> (c: Color)
        ensures
            c == (Color { r: 255, g: 255, b: 255, a: 255 }),
    {
        Color { r: 255, g: 255, b: 255, a: 255 }
    }

    /// Opaque black.
    pub fn black() -> (c: Color)
        ensures
            c == (Color { r: 0, g: 0, b: 0, a: 255 }),
    {
        Color { r: 0, g: 0, b: 0, a: 255 }
    }

    /// The colour with red, green and blue dimmed and alpha as it was.
    pub open spec fn darker(self) -> Color {
        Color { r: dimmed(self.r), g: dimmed(self.g), b: dimmed(self.b), a: self.a }
    }

    /// The colour a button shows while the pointer is over it.
    pub fn darkened(&self) -> (c: Color)
        ensures
            c == self.darker(),
    {
        Color {
            r: dim(self.r),
            g: dim(self.g),
            b: dim(self.b),
            a: self.a,
        }
    }
}

/// One channel at nine tenths of its brightness.
fn dim(c: u8) -> (d: u8)
    ensures
        d == dimmed(c),
{
    let wide: u16 = c as u16;
    (wide * 9 / 10) as u8
}

/// A rectangle in whole pixels. Width and height may be negative: the
/// rectangle then extends to the left of `left` or above `top`.
#[derive(Clone, Copy, Debug, PartialEq, Eq, Structural)]
pub struct Rect {
    pub left: i32,
    pub top: i32,
    pub width: i32,
    pub height: i32,
}

/// The smaller of two numbers.
pub open spec fn lesser(a: int, b: int) -> int {
    if a <= b {
        a
    } else {
        b
    }
}

/// The larger of two numbers.
pub open spec fn greater(a: int, b: int) -> int {
    if a >= b {
        a
    } else {
        b
    }
}

impl Rect {
    /// Whether the pixel `(x, y)` lies in the rectangle. The left and top
    /// edges belong to it, the right and bottom edges do not.
    pub open spec fn covers(self, x: int, y: int) -> bool {
        &&& lesser(self.left as int, self.left + self.width) <= x < greater(
            self.left as int,
            self.left + self.width,
        )
        &&& lesser(self.top as int, self.top + self.height) <= y < greater(
            self.top as int,
            self.top + self.height,
        )
    }

    /// Whether the pixel `(x, y)` lies in the rectangle.
    pub fn contains2(&self, x: i32, y: i32) -> (inside: bool)
        ensures
            inside == self.covers(x as int, y as int),
    {
        let left: i64 = self.left as i64;
        let right: i64 = self.left as i64 + self.width as i64;
        let top: i64 = self.top as i64;
        let bottom: i64 = self.top as i64 + self.height as i64;
        let min_x: i64 = if left <= right { left } else { right };
        let max_x: i64 = if left >= right { left } else { right };
        let min_y: i64 = if top <= bottom { top } else { bottom };
        let max_y: i64 = if top >= bottom { top } else { bottom };
        let px: i64 = x as i64;
        let py: i64 = y as i64;
        px >= min_x && px < max_x && py >= min_y && py < max_y
    }
}

/// A push button.
///
/// `clicked` is set by a release of the pointer that ends a press begun on
/// the button, and stays set until [`UiButton::clicked`] reads it. `down`
/// holds while such a press lasts. `shown_fill` and `shown_border` are the
/// colours to draw with right now; they are darker while the pointer is
/// over the button.
#[derive(Debug)]
pub struct UiButton {
    pub rect: Rect,
    pub clicked: bool,
    pub down: bool,
    pub fill_color: Color,
    pub border_color: Color,
    pub border_thickness: i32,
    pub label: String,
    pub char_size: u32,
    pub text_color: Color,
    pub shown_fill: Color,
    pub shown_border: Color,
}

/// What a button is, with its label as the characters it holds.
pub struct ButtonModel {
    pub rect: Rect,
    pub clicked: bool,
    pub down: bool,
    pub fill_color: Color,
    pub border_color: Color,
    pub border_thickness: i32,
    pub label: Seq<char>,
    pub char_size: u32,
    pub text_color: Color,
    pub shown_fill: Color,
    pub shown_border: Color,
}

impl View for UiButton {
    type V = ButtonModel;

    open spec fn view(&self) -> ButtonModel {
        ButtonModel {
            rect: self.rect,
            clicked: self.clicked,
            down: self.down,
            fill_color: self.fill_color,
            border_color: self.border_color,
            border_thickness: self.border_thickness,
            label: self.label@,
            char_size: self.char_size,
            text_color: self.text_color,
            shown_fill: self.shown_fill,
            shown_border: self.shown_border,
        }
    }
}

impl ButtonModel {
    /// A button as it is made: nowhere, without a label, white with a black
    /// border once packed, 16 pixel letters. Until it is packed it shows
    /// white on white.
    pub open spec fn blank() -> ButtonModel {
        ButtonModel {
            rect: Rect { left: 0, top: 0, width: 0, height: 0 },
            clicked: false,
            down: false,
            fill_color: Color { r: 255, g: 255, b: 255, a: 255 },
            border_color: Color { r: 0, g: 0, b: 0, a: 255 },
            border_thickness: 0,
            label: Seq::empty(),
            char_size: 16,
            text_color: Color { r: 255, g: 255, b: 255, a: 255 },
            shown_fill: Color { r: 255, g: 255, b: 255, a: 255 },
            shown_border: Color { r: 255, g: 255, b: 255, a: 255 },
        }
    }

    /// The button, finished: it shows its fill and border colours.
    pub open spec fn packed(self) -> ButtonModel {
        ButtonModel { shown_fill: self.fill_color, shown_border: self.border_color, ..self }
    }

    /// Whether the pixel `(x, y)` is on the button.
    pub open spec fn under(self, x: i32, y: i32) -> bool {
        self.rect.covers(x as int, y as int)
    }

    /// The button once its click has been read.
    pub open spec fn read(self) -> ButtonModel {
        ButtonModel { clicked: false, ..self }
    }

    /// The button after the input event `evt`.
    ///
    /// A press on the button puts it down. A release lets it up again, and
    /// counts as a click if the button was down and the pointer is still on
    /// it. A move of the pointer darkens the shown colours while the
    /// pointer is on the button and restores them when it is not. Nothing
    /// else changes the button.
    pub open spec fn after(self, evt: Event) -> ButtonModel {
        match evt {
            Event::MouseButtonPressed { x, y } => ButtonModel {
                down: self.down || self.under(x, y),
                ..self
            },
            Event::MouseButtonReleased { x, y } => ButtonModel {
                clicked: self.clicked || (self.down && self.under(x, y)),
                down: false,
                ..self
            },
            Event::MouseMoved { x, y } => if self.under(x, y) {
                ButtonModel {
                    shown_fill: self.fill_color.darker(),
                    shown_border: self.border_color.darker(),
                    ..self
                }
            } else {
                ButtonModel {
                    shown_fill: self.fill_color,
                    shown_border: self.border_color,
                    ..self
                }
            },
            _ => self,
        }
    }
}

impl UiButton {
    /// A button without a place or a label.
    pub fn new() -> (b: UiButton)
        ensures
            b@ == ButtonModel::blank(),
    {
        UiButton {
            rect: Rect { left: 0, top: 0, width: 0, height: 0 },
            clicked: false,
            down: false,
            fill_color: Color::white(),
            border_color: Color::black(),
            border_thickness: 0,
            label: String::new(),
            char_size: 16,
            text_color: Color::white(),
            shown_fill: Color::white(),
            shown_border: Color::white(),
        }
    }

    /// Puts the button at `(x, y)` with a size of `w` by `h` pixels.
    pub fn bounds(self, x: i32, y: i32, w: i32, h: i32) -> (b: UiButton)
        ensures
            b@ == (ButtonModel { rect: Rect { left: x, top: y, width: w, height: h }, ..self@ }),
    {
        let mut b = self;
        b.rect = Rect { left: x, top: y, width: w, height: h };
        b
    }

    /// Sets the fill colour that [`UiButton::pack`] will show.
    pub fn color(self, color: Color) -> (b: UiButton)
        ensures
            b@ == (ButtonModel { fill_color: color, ..self@ }),
    {
        let mut b = self;
        b.fill_color = color;
        b
    }

    /// Sets the border colour that [`UiButton::pack`] will show.
    pub fn border_color(self, color: Color) -> (b: UiButton)
        ensures
            b@ == (ButtonModel { border_color: color, ..self@ }),
    {
        let mut b = self;
        b.border_color = color;
        b
    }

    /// Sets the width of the border, in pixels.
    pub fn border_thickness(self, thickness: i32) -> (b: UiButton)
        ensures
            b@ == (ButtonModel { border_thickness: thickness, ..self@ }),
    {
        let mut b = self;
        b.border_thickness = thickness;
        b
    }

    /// Sets the label.
    pub fn text(self, text: &str) -> (b: UiButton)
        ensures
            b@ == (ButtonModel { label: text@, ..self@ }),
    {
        let mut b = self;
        b.label = text.to_owned();
        b
    }

    /// Sets the height of the label's letters, in pixels.
    pub fn char_size(self, size: u32) -> (b: UiButton)
        ensures
            b@ == (ButtonModel { char_size: size, ..self@ }),
    {
        let mut b = self;
        b.char_size = size;
        b
    }

    /// Sets the colour of the label.
    pub fn text_color(self, color: Color) -> (b: UiButton)
        ensures
            b@ == (ButtonModel { text_color: color, ..self@ }),
    {
        let mut b = self;
        b.text_color = color;
        b
    }

    /// Finishes the button: from now on it shows its fill and border
    /// colours.
    pub fn pack(self) -> (b: UiButton)
        ensures
            b@ == self@.packed(),
    {
        let mut b = self;
        b.shown_fill = b.fill_color;
        b.shown_border = b.border_color;
        b
    }

    /// Whether the button has been clicked since this was last asked. The
    /// answer is given once: asking clears it.
    pub fn clicked(&mut self) -> (was: bool)
        ensures
            was == old(self)@.clicked,
            final(self)@ == old(self)@.read(),
    {
        if self.clicked {
            self.clicked = false;
            return true;
        }
        false
    }

    /// Reacts to one input event.
    pub fn event(&mut self, evt: Event)
        ensures
            final(self)@ == old(self)@.after(evt),
    {
        match evt {
            Event::MouseButtonPressed { x, y } => {
                if self.rect.contains2(x, y) {
                    self.down = true;
                }
            },
            Event::MouseButtonReleased { x, y } => {
                if self.down && self.rect.contains2(x, y) {
                    self.clicked = true;
                }
                self.down = false;
            },
            Event::MouseMoved { x, y } => {
                if self.rect.contains2(x, y) {
                    self.shown_fill = self.fill_color.darkened();
                    self.shown_border = self.border_color.darkened();
                } else {
                    self.shown_fill = self.fill_color;
                    self.shown_border = self.border_color;
                }
            },
            _ => {},
        }
    }
}

} // verus!
