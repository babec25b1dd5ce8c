//! Text-run vocabulary of the draw-command layer and the arena spans that
//! commands use to refer to their points and strings.
use vstd::prelude::*;

verus! {

/// Logical font family. Each backend maps these to the platform UI fonts.
#[derive(Debug, Clone, Copy, PartialEq, Eq, Structural, Hash, Default)]
pub enum FontFamily {
    /// The system UI font.
    #[default]
    Ui,
    /// A monospace font for paths, command lines and hex.
    Mono,
}

#[derive(Debug, Clone, Copy, PartialEq, Eq, Structural, Hash, Default)]
pub enum FontWeight {
    #[default]
    Regular,
    SemiBold,
    Bold,
}

#[derive(Debug, Clone, Copy, PartialEq, Eq, Structural, Hash, Default)]
pub enum HAlign {
    #[default]
    Left,
    Center,
    Right,
}

#[derive(Debug, Clone, Copy, PartialEq, Eq, Structural, Hash, Default)]
pub enum VAlign {
    Top,
    #[default]
    Middle,
    Bottom,
}

/// A range into one of a display list's arenas.
#[derive(Debug, Clone, Copy, PartialEq, Eq, Structural)]
pub struct Span {
    pub start: u32,
    pub len: u32,
}

impl Span {
    /// The arena indices this span covers: `start .. start + len`.
    pub fn range(self) -> (r: core::ops::Range<usize>)
        requires
            self.start + self.len <= usize::MAX,
        ensures
            r.start == self.start,
            r.end == self.start + self.len,
    {
        let s = self.start as usize;
        s..s + self.len as usize
    }
}

} // verus!
