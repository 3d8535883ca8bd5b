//! The XML parts of a presentation built on a template: slides made of
//! picture slices, and the package parts that list them.
use vstd::prelude::*;
use crate::ooxml::{
    dec, dec_signed, escape_text, numbered, numbered_offset, numbered_twice, push_decimal, push_numbered,
    push_numbered_offset, push_numbered_twice, push_signed, spec_escape,
};
use crate::text::owned;

verus! {

pub const IMAGE_REL_HEAD: &'static str = r##"<Relationship Id=""##;
pub const IMAGE_REL_MID: &'static str = r##"" Type="http://schemas.openxmlformats.org/officeDocument/2006/relationships/image" Target="../media/image"##;
pub const IMAGE_REL_TAIL: &'static str = r##".png"/>"##;
pub const LAYOUT_REL_HEAD: &'static str = r##"<Relationship Id=""##;
pub const LAYOUT_REL_MID: &'static str = r##"" Type="http://schemas.openxmlformats.org/officeDocument/2006/relationships/slideLayout" Target="../slideLayouts/slideLayout"##;
pub const LAYOUT_REL_TAIL: &'static str = r##".xml"/>"##;
pub const SLICED_RELS_HEAD: &'static str = r##"<?xml version="1.0" encoding="UTF-8"?><Relationships xmlns="http://schemas.openxmlformats.org/package/2006/relationships">"##;
pub const SLICED_RELS_TAIL: &'static str = r##"</Relationships>"##;
pub const T_SLIDE_ID_HEAD: &'static str = r##"<p:sldId id=""##;
pub const T_SLIDE_ID_MID: &'static str = r##"" r:id="rId"##;
pub const T_SLIDE_ID_TAIL: &'static str = r##""/>"##;
pub const T_PRESENTATION_HEAD: &'static str = r##"<?xml version="1.0" encoding="UTF-8"?><p:presentation xmlns:a="http://schemas.openxmlformats.org/drawingml/2006/main" xmlns:r="http://schemas.openxmlformats.org/officeDocument/2006/relationships" xmlns:p="http://schemas.openxmlformats.org/presentationml/2006/main"><p:sldMasterIdLst><p:sldMasterId id="2147483648" r:id="rId1000"/></p:sldMasterIdLst><p:sldIdLst>"##;
pub const T_PRESENTATION_CX: &'static str = r##"</p:sldIdLst><p:sldSz cx=""##;
pub const T_PRESENTATION_CY: &'static str = r##"" cy=""##;
pub const T_PRESENTATION_TAIL: &'static str = r##"" type="screen16x9"/><p:notesSz cx="6858000" cy="9144000"/></p:presentation>"##;
pub const T_SLIDE_REL_HEAD: &'static str = r##"<Relationship Id="rId"##;
pub const T_SLIDE_REL_MID: &'static str = r##"" Type="http://schemas.openxmlformats.org/officeDocument/2006/relationships/slide" Target="slides/slide"##;
pub const T_SLIDE_REL_TAIL: &'static str = r##".xml"/>"##;
pub const T_MASTER_REL: &'static str = r##"<Relationship Id="rId1000" Type="http://schemas.openxmlformats.org/officeDocument/2006/relationships/slideMaster" Target="slideMasters/slideMaster1.xml"/>"##;
pub const T_PRESENTATION_RELS_HEAD: &'static str = r##"<?xml version="1.0" encoding="UTF-8"?><Relationships xmlns="http://schemas.openxmlformats.org/package/2006/relationships">"##;
pub const T_PRESENTATION_RELS_TAIL: &'static str = r##"</Relationships>"##;
pub const T_SLIDE_OVERRIDE_HEAD: &'static str = r##"<Override PartName="/ppt/slides/slide"##;
pub const T_SLIDE_OVERRIDE_TAIL: &'static str = r##".xml" ContentType="application/vnd.openxmlformats-officedocument.presentationml.slide+xml"/>"##;
pub const T_LAYOUT_OVERRIDE_HEAD: &'static str = r##"<Override PartName="/ppt/slideLayouts/slideLayout"##;
pub const T_LAYOUT_OVERRIDE_TAIL: &'static str = r##".xml" ContentType="application/vnd.openxmlformats-officedocument.presentationml.slideLayout+xml"/>"##;
pub const T_CONTENT_TYPES_HEAD: &'static str = r##"<?xml version="1.0" encoding="UTF-8"?><Types xmlns="http://schemas.openxmlformats.org/package/2006/content-types"><Default Extension="rels" ContentType="application/vnd.openxmlformats-package.relationships+xml"/><Default Extension="xml" ContentType="application/xml"/><Default Extension="png" ContentType="image/png"/><Default Extension="jpg" ContentType="image/jpeg"/><Override PartName="/ppt/presentation.xml" ContentType="application/vnd.openxmlformats-officedocument.presentationml.presentation.main+xml"/><Override PartName="/ppt/slideMasters/slideMaster1.xml" ContentType="application/vnd.openxmlformats-officedocument.presentationml.slideMaster+xml"/>"##;
pub const T_CONTENT_TYPES_MID: &'static str = r##"<Override PartName="/ppt/theme/theme1.xml" ContentType="application/vnd.openxmlformats-officedocument.theme+xml"/>"##;
pub const T_CONTENT_TYPES_TAIL: &'static str = r##"</Types>"##;

/// One relationship to a picture: id `rid`, file `image{num}.png`.
pub open spec fn image_rel(rid: Seq<char>, num: nat) -> Seq<char> {
    IMAGE_REL_HEAD@ + rid + IMAGE_REL_MID@ + dec(num) + IMAGE_REL_TAIL@
}

/// The picture relationships of slices `0..k` of slide `slide_num`; slice
/// `i` is picture `slide_num * 100 + i + 1`.
pub open spec fn slice_rels(rids: Seq<Seq<char>>, slide_num: nat, k: nat) -> Seq<char>
    decreases k,
{
    if k == 0 {
        seq![]
    } else {
        slice_rels(rids, slide_num, (k - 1) as nat) + image_rel(rids[k - 1], slide_num * 100 + k)
    }
}

/// The ids of a list of slices.
pub open spec fn slice_ids(slices: Seq<(String, i64, i64, i64, i64)>) -> Seq<Seq<char>> {
    slices.map_values(|t: (String, i64, i64, i64, i64)| t.0@)
}

/// The relationships of a slide made of slices: one slice placed at the
/// origin (zero x and y) is the whole picture `image{slide_num}.png`; otherwise
/// each slice is its own picture. The layout relationship comes last, with
/// the id after the slices'.
pub open spec fn spec_slice_rels_part(slide_num: nat, layout_index: nat, slices: Seq<(String, i64, i64, i64, i64)>) -> Seq<char> {
    let pics = if slices.len() == 1 && slices[0].1 == 0 && slices[0].2 == 0 {
        image_rel(slices[0].0@, slide_num)
    } else {
        slice_rels(slice_ids(slices), slide_num, slices.len())
    };
    SLICED_RELS_HEAD@ + pics + LAYOUT_REL_HEAD@ + "rId"@ + dec(slices.len() + 1) + LAYOUT_REL_MID@ + dec(layout_index)
        + LAYOUT_REL_TAIL@ + SLICED_RELS_TAIL@
}

fn push_image_rel(s: &mut String, rid: &str, num: u64)
    ensures
        final(s)@ == old(s)@ + image_rel(rid@, num as nat),
{
    s.append(IMAGE_REL_HEAD);
    s.append(rid);
    s.append(IMAGE_REL_MID);
    push_decimal(s, num);
    s.append(IMAGE_REL_TAIL);
    proof {
        assert(s@ =~= old(s)@ + image_rel(rid@, num as nat));
    }
}

pub fn generate_slide_rels_for_sliced_images(slide_num: usize, layout_index: u32, sliced_images: &[(String, i64, i64, i64, i64)]) -> (r: String)
    requires
        sliced_images@.len() < usize::MAX,
        !(sliced_images@.len() == 1 && sliced_images@[0].1 == 0 && sliced_images@[0].2 == 0) ==> slide_num * 100
            + sliced_images@.len() <= usize::MAX,
    ensures
        r@ == spec_slice_rels_part(slide_num as nat, layout_index as nat, sliced_images@),
{
    let mut s = owned(SLICED_RELS_HEAD);
    let ghost start = s@;
    let n = sliced_images.len();
    if n == 1 && sliced_images[0].1 == 0 && sliced_images[0].2 == 0 {
        push_image_rel(&mut s, sliced_images[0].0.as_str(), slide_num as u64);
    } else {
        let mut idx: usize = 0;
        while idx < n
            invariant
                0 <= idx <= n,
                n == sliced_images@.len(),
                slide_num * 100 + n <= usize::MAX,
                s@ == start + slice_rels(slice_ids(sliced_images@), slide_num as nat, idx as nat),
            decreases n - idx,
        {
            let image_num = slide_num * 100 + idx + 1;
            proof {
                assert(slice_ids(sliced_images@)[idx as int] == sliced_images@[idx as int].0@);
            }
            push_image_rel(&mut s, sliced_images[idx].0.as_str(), image_num as u64);
            idx = idx + 1;
        }
    }
    s.append(LAYOUT_REL_HEAD);
    s.append("rId");
    push_decimal(&mut s, (n as u64) + 1);
    s.append(LAYOUT_REL_MID);
    push_decimal(&mut s, layout_index as u64);
    s.append(LAYOUT_REL_TAIL);
    s.append(SLICED_RELS_TAIL);
    proof {
        assert(s@ =~= spec_slice_rels_part(slide_num as nat, layout_index as nat, sliced_images@));
    }
    s
}

/// The presentation part of a template-based deck with `n` slides, sized
/// `slide_width` by `slide_height`.
pub open spec fn spec_presentation_xml(n: nat, slide_width: int, slide_height: int) -> Seq<char> {
    T_PRESENTATION_HEAD@ + numbered_offset(n, 255, T_SLIDE_ID_HEAD@, T_SLIDE_ID_MID@, T_SLIDE_ID_TAIL@) + T_PRESENTATION_CX@
        + dec_signed(slide_width) + T_PRESENTATION_CY@ + dec_signed(slide_height) + T_PRESENTATION_TAIL@
}

/// The presentation part, with the template's slide size.
pub fn generate_presentation_xml(slide_count: usize, slide_width: i64, slide_height: i64) -> (r: String)
    requires
        slide_count + 255 <= usize::MAX,
    ensures
        r@ == spec_presentation_xml(slide_count as nat, slide_width as int, slide_height as int),
{
    let mut s = owned(T_PRESENTATION_HEAD);
    push_numbered_offset(&mut s, slide_count as u64, 255, T_SLIDE_ID_HEAD, T_SLIDE_ID_MID, T_SLIDE_ID_TAIL);
    s.append(T_PRESENTATION_CX);
    push_signed(&mut s, slide_width);
    s.append(T_PRESENTATION_CY);
    push_signed(&mut s, slide_height);
    s.append(T_PRESENTATION_TAIL);
    s
}

pub open spec fn spec_presentation_rels(n: nat) -> Seq<char> {
    T_PRESENTATION_RELS_HEAD@ + numbered_twice(n, T_SLIDE_REL_HEAD@, T_SLIDE_REL_MID@, T_SLIDE_REL_TAIL@) + T_MASTER_REL@
        + T_PRESENTATION_RELS_TAIL@
}

pub fn generate_presentation_rels(slide_count: usize) -> (r: String)
    ensures
        r@ == spec_presentation_rels(slide_count as nat),
{
    let mut s = owned(T_PRESENTATION_RELS_HEAD);
    push_numbered_twice(&mut s, slide_count as u64, T_SLIDE_REL_HEAD, T_SLIDE_REL_MID, T_SLIDE_REL_TAIL);
    s.append(T_MASTER_REL);
    s.append(T_PRESENTATION_RELS_TAIL);
    s
}

/// The content types of a template-based deck: ten layouts, then `n` slides.
pub open spec fn spec_content_types(n: nat) -> Seq<char> {
    T_CONTENT_TYPES_HEAD@ + numbered(10, T_LAYOUT_OVERRIDE_HEAD@, T_LAYOUT_OVERRIDE_TAIL@) + T_CONTENT_TYPES_MID@ + numbered(
        n,
        T_SLIDE_OVERRIDE_HEAD@,
        T_SLIDE_OVERRIDE_TAIL@,
    ) + T_CONTENT_TYPES_TAIL@
}

pub fn generate_content_types(slide_count: usize) -> (r: String)
    ensures
        r@ == spec_content_types(slide_count as nat),
{
    let mut s = owned(T_CONTENT_TYPES_HEAD);
    push_numbered(&mut s, 10, T_LAYOUT_OVERRIDE_HEAD, T_LAYOUT_OVERRIDE_TAIL);
    s.append(T_CONTENT_TYPES_MID);
    push_numbered(&mut s, slide_count as u64, T_SLIDE_OVERRIDE_HEAD, T_SLIDE_OVERRIDE_TAIL);
    s.append(T_CONTENT_TYPES_TAIL);
    s
}

/// Escapes text for XML.
pub fn escape_xml(text: &str) -> (r: String)
    ensures
        r@ == spec_escape(text@),
{
    escape_text(text)
}

} // verus!
