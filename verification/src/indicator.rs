//! The run indicator: a secondary glyph that records how many characters a
//! single symbol consumed. One character needs no indicator; counts two
//! through seven each take a distinct heart of an ordered palette; every
//! larger count collapses onto one overflow heart.

use vstd::prelude::*;

verus! {

/// The glyph the emoji table answers a Unicode-value query with, when it
/// knows one: the fully qualified form of the queried emoji. A fixed table
/// lookup, a function of the query alone.
pub uninterp spec fn canonical_glyph(s: Seq<char>) -> Option<Seq<char>>;

/// Looks a glyph up by its Unicode value.
///
/// Relies on `emojis::get`: it looks the value up in the crate's fixed
/// table and returns the emoji's fully qualified glyph, or nothing when the
/// value names no emoji.
#[verifier::external_body]
fn glyph_lookup(s: &str) -> (r: Option<String>)
    ensures
        match r {
            Some(g) => canonical_glyph(s@) == Some(g@),
            None => canonical_glyph(s@) is None,
        },
{
    emojis::get(s).map(|e| e.as_str().to_owned())
}

/// The Unicode values the palette is looked up by: the hearts for counts
/// two through seven — red, orange, yellow, green, blue, purple — and then
/// the black overflow heart.
pub open spec fn palette_query(i: int) -> Seq<char> {
    if i == 0 {
        "\u{2764}"@
    } else if i == 1 {
        "\u{1f9e1}"@
    } else if i == 2 {
        "\u{1f49b}"@
    } else if i == 3 {
        "\u{1f49a}"@
    } else if i == 4 {
        "\u{1f499}"@
    } else if i == 5 {
        "\u{1f49c}"@
    } else {
        "\u{1f5a4}"@
    }
}

/// Executable counterpart of [`palette_query`].
fn palette_query_exec(i: usize) -> (r: &'static str)
    requires
        i < 7,
    ensures
        r@ == palette_query(i as int),
{
    match i {
        0 => "\u{2764}",
        1 => "\u{1f9e1}",
        2 => "\u{1f49b}",
        3 => "\u{1f49a}",
        4 => "\u{1f499}",
        5 => "\u{1f49c}",
        _ => "\u{1f5a4}",
    }
}

/// The indicator palette: seven glyphs, the hearts for counts two through
/// seven and then the overflow heart.
pub struct Palette {
    pub hearts: Vec<String>,
}

/// The glyphs of a palette, as character sequences.
pub open spec fn hearts_of(p: &Palette) -> Seq<Seq<char>> {
    p.hearts@.map_values(|h: String| h@)
}

impl Palette {
    /// Seven glyphs: counts two through seven, then overflow.
    pub open spec fn wf(&self) -> bool {
        self.hearts@.len() == 7
    }

    /// Every glyph is the table's answer to its palette query.
    pub open spec fn canonical(&self) -> bool {
        &&& self.wf()
        &&& forall|i: int|
            0 <= i < 7 ==> canonical_glyph(palette_query(i)) == Some(#[trigger] self.hearts@[i]@)
    }
}

/// Fetches the seven indicator glyphs from the emoji table. `None` exactly
/// when the table lacks one of the palette's Unicode values.
pub fn load_palette() -> (r: Option<Palette>)
    ensures
        r matches Some(p) ==> p.canonical(),
        r is None ==> exists|i: int| 0 <= i < 7 && canonical_glyph(#[trigger] palette_query(i)) is None,
{
    let mut hearts: Vec<String> = Vec::new();
    let mut i: usize = 0;
    while i < 7
        invariant
            i <= 7,
            hearts@.len() == i,
            forall|k: int|
                0 <= k < i ==> canonical_glyph(palette_query(k)) == Some(#[trigger] hearts@[k]@),
        decreases 7 - i,
    {
        let q = palette_query_exec(i);
        match glyph_lookup(q) {
            Some(g) => {
                hearts.push(g);
            },
            None => {
                return None;
            },
        }
        i = i + 1;
    }
    Some(Palette { hearts })
}

/// The indicator for a run length over a palette: none for a single
/// character, the palette glyph for counts two through seven, the overflow
/// glyph for anything larger.
pub open spec fn indicator_of(length: int, hearts: Seq<Seq<char>>) -> Option<Seq<char>> {
    if length == 1 {
        None
    } else if 2 <= length <= 7 {
        Some(hearts[length - 2])
    } else {
        Some(hearts[6])
    }
}

/// Maps a match length to its indicator glyph.
pub fn run_indicator(length: usize, palette: &Palette) -> (r: Option<String>)
    requires
        1 <= length,
        palette.wf(),
    ensures
        match r {
            Some(g) => indicator_of(length as int, hearts_of(palette)) == Some(g@),
            None => indicator_of(length as int, hearts_of(palette)) is None,
        },
        r is None <==> length == 1,
{
    if length == 1 {
        None
    } else if length <= 7 {
        Some(palette.hearts[length - 2].clone())
    } else {
        Some(palette.hearts[6].clone())
    }
}

/// Indicator mapping boundaries: a single character takes no indicator;
/// counts two through seven take the six palette glyphs in order, distinct
/// whenever the palette's glyphs are; and all counts of eight or more take
/// the one overflow glyph.
pub proof fn lemma_indicator_boundaries(hearts: Seq<Seq<char>>)
    ensures
        indicator_of(1, hearts) is None,
        forall|l: int| 2 <= l <= 7 ==> indicator_of(l, hearts) == Some(hearts[l - 2]),
        forall|l1: int, l2: int|
            l1 >= 8 && l2 >= 8 ==> indicator_of(l1, hearts) == indicator_of(l2, hearts),
        (forall|i: int, j: int| 0 <= i < j < 7 ==> hearts[i] != hearts[j]) ==> forall|
            l1: int,
            l2: int,
        |
            2 <= l1 < l2 <= 7 ==> indicator_of(l1, hearts) != indicator_of(l2, hearts),
{
}

} // verus!
