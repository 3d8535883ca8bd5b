//! Kinds used by text recognition and text removal: how text sits on its
//! background, which removal policy a region gets, the native shapes that
//! can be rebuilt, and the defaults of recognized text records.
use vstd::prelude::*;
use crate::text::{chars_of, owned, trim, trim_bounds};

verus! {

/// How text sits on its background.
#[derive(Clone, Copy, Debug, PartialEq, Eq, Structural)]
pub enum TextType {
    DarkOnLight,
    LightOnDark,
    Colored,
    Gradient,
}

/// How the pixels of a text region are removed.
#[derive(Clone, Copy, Debug, PartialEq, Eq, Structural)]
pub enum RegionPolicy {
    DarkTextOnLight,
    LightTextOnDarkHeader,
    ColoredLabel,
    CompositeBadge,
    ComplexVisualText,
}

/// The removal policy of a text region, from the color analysis (if any)
/// and from whether the region's box looks like a badge, a header bar or a
/// label.
pub open spec fn spec_region_policy(text_type: Option<TextType>, badge: bool, header: bool, label: bool) -> RegionPolicy {
    match text_type {
        None => RegionPolicy::DarkTextOnLight,
        Some(TextType::DarkOnLight) => if badge {
            RegionPolicy::CompositeBadge
        } else {
            RegionPolicy::DarkTextOnLight
        },
        Some(TextType::LightOnDark) => if header {
            RegionPolicy::LightTextOnDarkHeader
        } else {
            RegionPolicy::DarkTextOnLight
        },
        Some(TextType::Colored) => if label {
            RegionPolicy::ColoredLabel
        } else {
            RegionPolicy::DarkTextOnLight
        },
        Some(TextType::Gradient) => RegionPolicy::ComplexVisualText,
    }
}

/// Chooses the removal policy of a text region.
pub fn region_policy(text_type: Option<TextType>, badge: bool, header: bool, label: bool) -> (r: RegionPolicy)
    ensures
        r == spec_region_policy(text_type, badge, header, label),
{
    match text_type {
        None => RegionPolicy::DarkTextOnLight,
        Some(TextType::DarkOnLight) => {
            if badge {
                RegionPolicy::CompositeBadge
            } else {
                RegionPolicy::DarkTextOnLight
            }
        },
        Some(TextType::LightOnDark) => {
            if header {
                RegionPolicy::LightTextOnDarkHeader
            } else {
                RegionPolicy::DarkTextOnLight
            }
        },
        Some(TextType::Colored) => {
            if label {
                RegionPolicy::ColoredLabel
            } else {
                RegionPolicy::DarkTextOnLight
            }
        },
        Some(TextType::Gradient) => RegionPolicy::ComplexVisualText,
    }
}

/// A shape that can be rebuilt as a native slide shape.
#[derive(Clone, Copy, Debug, PartialEq, Eq, Structural)]
pub enum ShapeType {
    Rectangle,
    RoundedRectangle,
    Circle,
    Ellipse,
    Line,
    Arrow,
    Badge,
    Card,
}

pub const SHAPE_RECTANGLE: &'static str = "Rectangle";
pub const SHAPE_ROUNDED_RECTANGLE: &'static str = "RoundedRectangle";
pub const SHAPE_CIRCLE: &'static str = "Circle";
pub const SHAPE_ELLIPSE: &'static str = "Ellipse";
pub const SHAPE_LINE: &'static str = "Line";
pub const SHAPE_ARROW: &'static str = "Arrow";
pub const SHAPE_BADGE: &'static str = "Badge";
pub const SHAPE_CARD: &'static str = "Card";

pub open spec fn spec_shape_name(t: ShapeType) -> Seq<char> {
    match t {
        ShapeType::Rectangle => SHAPE_RECTANGLE@,
        ShapeType::RoundedRectangle => SHAPE_ROUNDED_RECTANGLE@,
        ShapeType::Circle => SHAPE_CIRCLE@,
        ShapeType::Ellipse => SHAPE_ELLIPSE@,
        ShapeType::Line => SHAPE_LINE@,
        ShapeType::Arrow => SHAPE_ARROW@,
        ShapeType::Badge => SHAPE_BADGE@,
        ShapeType::Card => SHAPE_CARD@,
    }
}

impl ShapeType {
    /// The variant's name.
    pub fn as_str(&self) -> (r: &'static str)
        ensures
            r@ == spec_shape_name(*self),
    {
        match self {
            ShapeType::Rectangle => SHAPE_RECTANGLE,
            ShapeType::RoundedRectangle => SHAPE_ROUNDED_RECTANGLE,
            ShapeType::Circle => SHAPE_CIRCLE,
            ShapeType::Ellipse => SHAPE_ELLIPSE,
            ShapeType::Line => SHAPE_LINE,
            ShapeType::Arrow => SHAPE_ARROW,
            ShapeType::Badge => SHAPE_BADGE,
            ShapeType::Card => SHAPE_CARD,
        }
    }
}

pub const REVIEW_PENDING: &'static str = "pending";
pub const UNITS_INCHES: &'static str = "inches";
pub const TRACE_LINE: &'static str = "line";

/// Review status of a freshly recognized text record.
pub fn default_review_status() -> (r: String)
    ensures
        r@ == REVIEW_PENDING@,
{
    owned(REVIEW_PENDING)
}

/// Units of a text layout manifest.
pub fn default_units() -> (r: String)
    ensures
        r@ == UNITS_INCHES@,
{
    owned(UNITS_INCHES)
}

/// Trace level of a text box.
pub fn default_trace_level() -> (r: String)
    ensures
        r@ == TRACE_LINE@,
{
    owned(TRACE_LINE)
}

/// Text boxes do not wrap unless told to.
pub fn default_no_wrap() -> (r: bool)
    ensures
        r,
{
    true
}

/// The decorative symbols that a text record may consist of.
pub open spec fn decorative_symbols() -> Seq<char> {
    seq!['●', '○', '■', '□', '▲', '△', '◆', '◇', '★', '☆', '→', '←', '↑', '↓', '•', '·', '►', '▶', '◀', '▼']
}

/// Whether a text, trimmed, is one decorative symbol.
pub open spec fn spec_is_special_symbol(text: Seq<char>) -> bool {
    trim(text).len() == 1 && decorative_symbols().contains(trim(text)[0])
}

fn is_decorative(c: char) -> (r: bool)
    ensures
        r == decorative_symbols().contains(c),
{
    let syms = ['●', '○', '■', '□', '▲', '△', '◆', '◇', '★', '☆', '→', '←', '↑', '↓', '•', '·', '►', '▶', '◀', '▼'];
    let mut i: usize = 0;
    while i < 20
        invariant
            0 <= i <= 20,
            syms@ == decorative_symbols(),
            forall|j: int| 0 <= j < i ==> syms@[j] != c,
        decreases 20 - i,
    {
        if syms[i] == c {
            return true;
        }
        i = i + 1;
    }
    proof {
        assert forall|j: int| 0 <= j < decorative_symbols().len() implies decorative_symbols()[j] != c by {
            assert(syms@[j] != c);
        }
    }
    false
}

/// Whether a recognized text is just a decorative symbol.
pub fn is_special_symbol(text: &str) -> (r: bool)
    ensures
        r == spec_is_special_symbol(text@),
{
    let cs = chars_of(text);
    let (a, b) = trim_bounds(cs.as_slice(), 0, cs.len());
    proof {
        assert(cs@.subrange(0, cs@.len() as int) =~= cs@);
    }
    if b - a != 1 {
        return false;
    }
    is_decorative(cs[a])
}

} // verus!
