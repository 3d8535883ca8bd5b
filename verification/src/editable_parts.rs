//! The XML parts of an editable presentation: a clean background picture
//! per slide, with text boxes over it. The package parts other than the
//! slides and the theme are those of a picture-per-slide presentation.
use vstd::prelude::*;
use crate::ooxml::{dec, escape_text, push_decimal, spec_escape};
use crate::simple_parts;
use crate::text::owned;

verus! {

pub const BACKGROUND_RELS_HEAD: &'static str = r##"<?xml version="1.0" encoding="UTF-8" standalone="yes"?>
<Relationships xmlns="http://schemas.openxmlformats.org/package/2006/relationships">
<Relationship Id="rId1" Type="http://schemas.openxmlformats.org/officeDocument/2006/relationships/image" Target="../media/image"##;
pub const BACKGROUND_RELS_TAIL: &'static str = r##".png"/>
<Relationship Id="rId2" Type="http://schemas.openxmlformats.org/officeDocument/2006/relationships/slideLayout" Target="../slideLayouts/slideLayout1.xml"/>
</Relationships>"##;
pub const COMPACT_THEME: &'static str = r##"<?xml version="1.0" encoding="UTF-8" standalone="yes"?>
<a:theme xmlns:a="http://schemas.openxmlformats.org/drawingml/2006/main" name="Office Theme">
<a:themeElements>
<a:clrScheme name="Office">
<a:dk1>
<a:sysClr val="windowText" lastClr="000000"/>
</a:dk1>
<a:lt1>
<a:sysClr val="window" lastClr="FFFFFF"/>
</a:lt1>
<a:dk2>
<a:srgbClr val="1F497D"/>
</a:dk2>
<a:lt2>
<a:srgbClr val="EEECE1"/>
</a:lt2>
<a:accent1>
<a:srgbClr val="4F81BD"/>
</a:accent1>
<a:accent2>
<a:srgbClr val="C0504D"/>
</a:accent2>
<a:accent3>
<a:srgbClr val="9BBB59"/>
</a:accent3>
<a:accent4>
<a:srgbClr val="8064A2"/>
</a:accent4>
<a:accent5>
<a:srgbClr val="4BACC6"/>
</a:accent5>
<a:accent6>
<a:srgbClr val="F79646"/>
</a:accent6>
<a:hlink>
<a:srgbClr val="0000FF"/>
</a:hlink>
<a:folHlink>
<a:srgbClr val="800080"/>
</a:folHlink>
</a:clrScheme>
<a:fontScheme name="Office">
<a:majorFont>
<a:latin typeface="Calibri"/>
<a:ea typeface=""/>
<a:cs typeface=""/>
</a:majorFont>
<a:minorFont>
<a:latin typeface="Calibri"/>
<a:ea typeface=""/>
<a:cs typeface=""/>
</a:minorFont>
</a:fontScheme>
<a:fmtScheme name="Office">
<a:fillStyleLst>
<a:solidFill>
<a:schemeClr val="phClr"/>
</a:solidFill>
</a:fillStyleLst>
<a:lnStyleLst>
<a:ln w="9525" cap="flat" cmpd="sng" algn="ctr">
<a:solidFill>
<a:schemeClr val="phClr"/>
</a:solidFill>
<a:prstDash val="solid"/>
</a:ln>
</a:lnStyleLst>
<a:effectStyleLst>
<a:effectStyle>
<a:effectLst/>
</a:effectStyle>
</a:effectStyleLst>
<a:bgFillStyleLst>
<a:solidFill>
<a:schemeClr val="phClr"/>
</a:solidFill>
</a:bgFillStyleLst>
</a:fmtScheme>
</a:themeElements>
</a:theme>"##;

/// The relationships of slide `slide_num`: its background picture and the
/// blank layout.
pub open spec fn spec_slide_rels_with_background(slide_num: nat) -> Seq<char> {
    BACKGROUND_RELS_HEAD@ + dec(slide_num) + BACKGROUND_RELS_TAIL@
}

pub fn generate_slide_rels_with_background(slide_num: usize) -> (r: String)
    ensures
        r@ == spec_slide_rels_with_background(slide_num as nat),
{
    let mut s = owned(BACKGROUND_RELS_HEAD);
    push_decimal(&mut s, slide_num as u64);
    s.append(BACKGROUND_RELS_TAIL);
    s
}

/// Escapes text for a text run.
pub fn escape_xml_text(text: &str) -> (r: String)
    ensures
        r@ == spec_escape(text@),
{
    escape_text(text)
}

pub fn generate_content_types(slide_count: usize) -> (r: String)
    ensures
        r@ == simple_parts::spec_content_types(slide_count as nat),
{
    simple_parts::generate_content_types(slide_count)
}

pub fn generate_rels() -> (r: String)
    ensures
        r@ == simple_parts::PACKAGE_RELS@,
{
    simple_parts::generate_rels()
}

pub fn generate_presentation(slide_count: usize) -> (r: String)
    requires
        slide_count + 255 <= usize::MAX,
    ensures
        r@ == simple_parts::spec_presentation(slide_count as nat),
{
    simple_parts::generate_presentation(slide_count)
}

pub fn generate_presentation_rels(slide_count: usize) -> (r: String)
    ensures
        r@ == simple_parts::spec_presentation_rels(slide_count as nat),
{
    simple_parts::generate_presentation_rels(slide_count)
}

pub fn generate_slide_layout() -> (r: String)
    ensures
        r@ == simple_parts::SLIDE_LAYOUT@,
{
    simple_parts::generate_slide_layout()
}

pub fn generate_slide_layout_rels() -> (r: String)
    ensures
        r@ == simple_parts::SLIDE_LAYOUT_RELS@,
{
    simple_parts::generate_slide_layout_rels()
}

pub fn generate_slide_master() -> (r: String)
    ensures
        r@ == simple_parts::SLIDE_MASTER@,
{
    simple_parts::generate_slide_master()
}

pub fn generate_slide_master_rels() -> (r: String)
    ensures
        r@ == simple_parts::SLIDE_MASTER_RELS@,
{
    simple_parts::generate_slide_master_rels()
}

/// The theme of an editable presentation (colors and fonts only).
pub fn generate_theme() -> (r: String)
    ensures
        r@ == COMPACT_THEME@,
{
    owned(COMPACT_THEME)
}

} // verus!
