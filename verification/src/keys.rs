use vstd::prelude::*;

verus! {

/// Identifies one rasterised glyph: a character, a font size scaled by `N`
/// and rounded to an integer, and the hash of the font that draws it.
#[derive(Clone, Copy, PartialEq, Eq, Hash, Debug)]
pub struct GlyphKey<const N: u32> {
    char: char,
    multiplied_font_size: u32,
    font_hash: usize,
}

impl<const N: u32> GlyphKey<N> {
    pub closed spec fn spec_char(self) -> char {
        self.char
    }

    pub closed spec fn spec_multiplied_font_size(self) -> u32 {
        self.multiplied_font_size
    }

    pub closed spec fn spec_font_hash(self) -> usize {
        self.font_hash
    }

    /// Builds a key from a font size that is already multiplied by `N` and rounded.
    pub fn from_scaled_size(char: char, multiplied_font_size: u32, font_hash: usize) -> (r: Self)
        ensures
            r.spec_char() == char,
            r.spec_multiplied_font_size() == multiplied_font_size,
            r.spec_font_hash() == font_hash,
    {
        GlyphKey { char, multiplied_font_size, font_hash }
    }

    pub fn get_char(&self) -> (r: char)
        ensures
            r == self.spec_char(),
    {
        self.char
    }

    pub fn get_font_hash(&self) -> (r: usize)
        ensures
            r == self.spec_font_hash(),
    {
        self.font_hash
    }

    /// Field-by-field equality of two keys.
    pub fn same_key(&self, other: &Self) -> (r: bool)
        ensures
            r == (*self == *other),
    {
        self.char == other.char && self.multiplied_font_size == other.multiplied_font_size
            && self.font_hash == other.font_hash
    }

    /// The font size multiplied by `N`, as stored.
    pub fn get_multiplied_font_size(&self) -> (r: u32)
        ensures
            r == self.spec_multiplied_font_size(),
    {
        self.multiplied_font_size
    }
}

} // verus!
