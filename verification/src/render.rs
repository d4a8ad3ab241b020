//! The colours as text: one line for each colour, and a swatch as an SVG
//! document.
//!
//! The percentage of a colour is shown with one decimal place. Writing it out
//! is floating-point formatting, which is left to the caller: what is rendered
//! here is a colour together with its percentage as text, and the functions
//! fix the layout around it.

use vstd::prelude::*;
use vstd::string::StringExecFns;
use crate::text::{decimal, push_decimal};

verus! {

/// The opening of the swatch document.
pub const SWATCH_HEAD: &'static str =
    "<?xml version=\"1.0\" encoding=\"UTF-8\" standalone=\"no\"?>\n<svg xmlns=\"http://www.w3.org/2000/svg\" viewBox=\"0 0 600 140\">";

/// The end of the swatch document.
pub const SWATCH_TAIL: &'static str = "\n</svg>";

/// A colour as it is shown: its channels, and its percentage written out,
/// without the percent sign.
#[derive(Debug, PartialEq, Eq)]
pub struct ColourLabel {
    pub rgb: [u8; 3],
    pub percentage: String,
}

/// The three channels of a colour in decimal, separated by a comma and a
/// space.
pub open spec fn channels_text(rgb: [u8; 3]) -> Seq<char> {
    decimal(rgb[0] as nat) + ", "@ + decimal(rgb[1] as nat) + ", "@ + decimal(rgb[2] as nat)
}

/// The line of text that reports one colour.
pub open spec fn line_text(label: ColourLabel) -> Seq<char> {
    "RGB: ("@ + channels_text(label.rgb) + ") - "@ + label.percentage@ + "% of image"@
}

/// The tile of the swatch for the colour of rank `i`: a square of side 100
/// filled with the colour, `100 * i` from the left, and below it, set in by 5,
/// the colour and its percentage.
pub open spec fn tile_text(label: ColourLabel, i: nat) -> Seq<char> {
    "\n    <rect x=\""@ + decimal(i * 100)
        + "\" y=\"0\" width=\"100\" height=\"100\" fill=\"rgb("@ + channels_text(label.rgb)
        + ")\"/>\n    <text x=\""@ + decimal(i * 100 + 5)
        + "\" y=\"115\" font-family=\"Arial\" font-size=\"10\" fill=\"black\">"@ + channels_text(
        label.rgb,
    ) + "</text>\n    <text x=\""@ + decimal(i * 100 + 5)
        + "\" y=\"130\" font-family=\"Arial\" font-size=\"10\" fill=\"black\">"@
        + label.percentage@ + "%</text>"@
}

/// The tiles of the colours, one after the other in the order given.
pub open spec fn tiles_text(labels: Seq<ColourLabel>) -> Seq<char>
    decreases labels.len(),
{
    if labels.len() == 0 {
        Seq::empty()
    } else {
        tiles_text(labels.drop_last()) + tile_text(labels.last(), (labels.len() - 1) as nat)
    }
}

/// The swatch document: one tile of equal width for each colour, from left to
/// right in the order given.
pub open spec fn swatch_text(labels: Seq<ColourLabel>) -> Seq<char> {
    SWATCH_HEAD@ + tiles_text(labels) + SWATCH_TAIL@
}

/// Appends the three channels of a colour.
fn push_channels(text: &mut String, rgb: [u8; 3])
    ensures
        final(text)@ == old(text)@ + channels_text(rgb),
{
    let ghost start = text@;
    push_decimal(text, rgb[0] as u128);
    text.append(", ");
    push_decimal(text, rgb[1] as u128);
    text.append(", ");
    push_decimal(text, rgb[2] as u128);
    assert(text@ =~= start + channels_text(rgb));
}

/// Writes the line that reports one colour: `RGB: (r, g, b) - p.p% of image`,
/// with the percentage as the label gives it.
pub fn colour_line(label: &ColourLabel) -> (line: String)
    ensures
        line@ == line_text(*label),
{
    let mut line = String::from_str("RGB: (");
    push_channels(&mut line, label.rgb);
    line.append(") - ");
    line.append(label.percentage.as_str());
    line.append("% of image");
    line
}

/// Writes the tile of the colour of rank `i`.
fn swatch_tile(label: &ColourLabel, i: usize) -> (tile: String)
    ensures
        tile@ == tile_text(*label, i as nat),
{
    let x: u128 = (i as u128) * 100;
    let mut tile = String::from_str("\n    <rect x=\"");
    push_decimal(&mut tile, x);
    tile.append("\" y=\"0\" width=\"100\" height=\"100\" fill=\"rgb(");
    push_channels(&mut tile, label.rgb);
    tile.append(")\"/>\n    <text x=\"");
    push_decimal(&mut tile, x + 5);
    tile.append("\" y=\"115\" font-family=\"Arial\" font-size=\"10\" fill=\"black\">");
    push_channels(&mut tile, label.rgb);
    tile.append("</text>\n    <text x=\"");
    push_decimal(&mut tile, x + 5);
    tile.append("\" y=\"130\" font-family=\"Arial\" font-size=\"10\" fill=\"black\">");
    tile.append(label.percentage.as_str());
    tile.append("%</text>");
    tile
}

/// Draws the swatch: an SVG document with one tile of equal width for each
/// colour, in the order given, each filled with its colour and labelled with
/// the colour and its percentage.
pub fn colour_swatch(labels: &Vec<ColourLabel>) -> (svg: String)
    ensures
        svg@ == swatch_text(labels@),
{
    let mut svg = String::from_str(SWATCH_HEAD);
    let mut i: usize = 0;
    while i < labels.len()
        invariant
            i <= labels.len(),
            svg@ == SWATCH_HEAD@ + tiles_text(labels@.take(i as int)),
        decreases labels.len() - i,
    {
        let tile: String = swatch_tile(&labels[i], i);
        proof {
            let grown = labels@.take(i + 1);
            assert(grown.drop_last() =~= labels@.take(i as int));
            assert(grown.last() == labels@[i as int]);
            assert(SWATCH_HEAD@ + tiles_text(grown) =~= SWATCH_HEAD@ + tiles_text(
                labels@.take(i as int),
            ) + tile@);
        }
        svg.append(tile.as_str());
        i += 1;
    }
    assert(labels@.take(labels.len() as int) =~= labels@);
    svg.append(SWATCH_TAIL);
    svg
}

} // verus!
