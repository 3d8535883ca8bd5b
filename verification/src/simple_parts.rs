//! The XML parts of a presentation whose slides each show one full-slide
//! picture.
use vstd::prelude::*;
use crate::ooxml::{dec, numbered, numbered_offset, numbered_twice, push_decimal, push_numbered, push_numbered_offset, push_numbered_twice};
use crate::text::owned;

verus! {

pub const SLIDE_IMAGE_HEAD: &'static str = r##"<?xml version="1.0" encoding="UTF-8" standalone="yes"?>
<p:sld xmlns:a="http://schemas.openxmlformats.org/drawingml/2006/main" xmlns:r="http://schemas.openxmlformats.org/officeDocument/2006/relationships" xmlns:p="http://schemas.openxmlformats.org/presentationml/2006/main">
<p:cSld>
<p:spTree>
<p:nvGrpSpPr>
<p:cNvPr id="1" name=""/>
<p:nvPr/>
</p:nvGrpSpPr>
<p:grpSpPr>
<a:xfrm>
<a:off x="0" y="0"/>
<a:ext cx="0" cy="0"/>
<a:chOff x="0" y="0"/>
<a:chExt cx="0" cy="0"/>
</a:xfrm>
</p:grpSpPr>
<p:pic>
<p:nvPicPr>
<p:cNvPr id="2" name="Image "##;
pub const SLIDE_IMAGE_TAIL: &'static str = r##""/>
<p:cNvPicPr/>
<p:nvPr/>
</p:nvPicPr>
<p:blipFill>
<a:blip r:embed="rId1"/>
<a:stretch>
<a:fillRect/>
</a:stretch>
</p:blipFill>
<p:spPr>
<a:xfrm>
<a:off x="0" y="0"/>
<a:ext cx="12192000" cy="6858000"/>
</a:xfrm>
<a:prstGeom prst="rect">
<a:avLst/>
</a:prstGeom>
</p:spPr>
</p:pic>
</p:spTree>
</p:cSld>
<p:clrMapOvr>
<a:masterClrMapping/>
</p:clrMapOvr>
</p:sld>"##;
pub const SLIDE_RELS_HEAD: &'static str = r##"<?xml version="1.0" encoding="UTF-8" standalone="yes"?>
<Relationships xmlns="http://schemas.openxmlformats.org/package/2006/relationships">
<Relationship Id="rId1" Type="http://schemas.openxmlformats.org/officeDocument/2006/relationships/image" Target="../media/image"##;
pub const SLIDE_RELS_DOT: &'static str = r##"."##;
pub const SLIDE_RELS_TAIL: &'static str = r##""/>
<Relationship Id="rId2" Type="http://schemas.openxmlformats.org/officeDocument/2006/relationships/slideLayout" Target="../slideLayouts/slideLayout1.xml"/>
</Relationships>"##;
pub const SLIDE_OVERRIDE_HEAD: &'static str = r##"<Override PartName="/ppt/slides/slide"##;
pub const SLIDE_OVERRIDE_TAIL: &'static str = r##".xml" ContentType="application/vnd.openxmlformats-officedocument.presentationml.slide+xml"/>"##;
pub const CONTENT_TYPES_HEAD: &'static str = r##"<?xml version="1.0" encoding="UTF-8" standalone="yes"?>
<Types xmlns="http://schemas.openxmlformats.org/package/2006/content-types">
<Default Extension="rels" ContentType="application/vnd.openxmlformats-package.relationships+xml"/>
<Default Extension="xml" ContentType="application/xml"/>
<Default Extension="png" ContentType="image/png"/>
<Default Extension="jpg" ContentType="image/jpeg"/>
<Default Extension="webp" ContentType="image/webp"/>
<Override PartName="/ppt/presentation.xml" ContentType="application/vnd.openxmlformats-officedocument.presentationml.presentation.main+xml"/>
<Override PartName="/ppt/slideMasters/slideMaster1.xml" ContentType="application/vnd.openxmlformats-officedocument.presentationml.slideMaster+xml"/>
<Override PartName="/ppt/slideLayouts/slideLayout1.xml" ContentType="application/vnd.openxmlformats-officedocument.presentationml.slideLayout+xml"/>
<Override PartName="/ppt/theme/theme1.xml" ContentType="application/vnd.openxmlformats-officedocument.theme+xml"/>
"##;
pub const CONTENT_TYPES_TAIL: &'static str = r##"
</Types>"##;
pub const PACKAGE_RELS: &'static str = r##"<?xml version="1.0" encoding="UTF-8" standalone="yes"?>
<Relationships xmlns="http://schemas.openxmlformats.org/package/2006/relationships">
<Relationship Id="rId1" Type="http://schemas.openxmlformats.org/officeDocument/2006/relationships/officeDocument" Target="ppt/presentation.xml"/>
</Relationships>"##;
pub const SLIDE_ID_HEAD: &'static str = r##"<p:sldId id=""##;
pub const SLIDE_ID_MID: &'static str = r##"" r:id="rId"##;
pub const SLIDE_ID_TAIL: &'static str = r##""/>"##;
pub const PRESENTATION_HEAD: &'static str = r##"<?xml version="1.0" encoding="UTF-8" standalone="yes"?>
<p:presentation xmlns:a="http://schemas.openxmlformats.org/drawingml/2006/main" xmlns:r="http://schemas.openxmlformats.org/officeDocument/2006/relationships" xmlns:p="http://schemas.openxmlformats.org/presentationml/2006/main">
<p:sldMasterIdLst>
<p:sldMasterId id="2147483648" r:id="rId1000"/>
</p:sldMasterIdLst>
<p:sldIdLst>
"##;
pub const PRESENTATION_TAIL: &'static str = r##"
</p:sldIdLst>
<p:sldSz cx="12192000" cy="6858000" type="screen16x9"/>
<p:notesSz cx="6858000" cy="9144000"/>
</p:presentation>"##;
pub const SLIDE_REL_HEAD: &'static str = r##"<Relationship Id="rId"##;
pub const SLIDE_REL_MID: &'static str = r##"" Type="http://schemas.openxmlformats.org/officeDocument/2006/relationships/slide" Target="slides/slide"##;
pub const SLIDE_REL_TAIL: &'static str = r##".xml"/>"##;
pub const MASTER_REL: &'static str = r##"<Relationship Id="rId1000" Type="http://schemas.openxmlformats.org/officeDocument/2006/relationships/slideMaster" Target="slideMasters/slideMaster1.xml"/>"##;
pub const PRESENTATION_RELS_HEAD: &'static str = r##"<?xml version="1.0" encoding="UTF-8" standalone="yes"?>
<Relationships xmlns="http://schemas.openxmlformats.org/package/2006/relationships">
"##;
pub const PRESENTATION_RELS_TAIL: &'static str = r##"
</Relationships>"##;
pub const SLIDE_LAYOUT: &'static str = r##"<?xml version="1.0" encoding="UTF-8" standalone="yes"?>
<p:sldLayout xmlns:a="http://schemas.openxmlformats.org/drawingml/2006/main" xmlns:r="http://schemas.openxmlformats.org/officeDocument/2006/relationships" xmlns:p="http://schemas.openxmlformats.org/presentationml/2006/main" type="blank">
<p:cSld>
<p:spTree>
<p:nvGrpSpPr>
<p:cNvPr id="1" name=""/>
<p:nvPr/>
</p:nvGrpSpPr>
<p:grpSpPr>
<a:xfrm>
<a:off x="0" y="0"/>
<a:ext cx="0" cy="0"/>
<a:chOff x="0" y="0"/>
<a:chExt cx="0" cy="0"/>
</a:xfrm>
</p:grpSpPr>
</p:spTree>
</p:cSld>
<p:clrMapOvr>
<a:masterClrMapping/>
</p:clrMapOvr>
</p:sldLayout>"##;
pub const SLIDE_LAYOUT_RELS: &'static str = r##"<?xml version="1.0" encoding="UTF-8" standalone="yes"?>
<Relationships xmlns="http://schemas.openxmlformats.org/package/2006/relationships">
<Relationship Id="rId1" Type="http://schemas.openxmlformats.org/officeDocument/2006/relationships/slideMaster" Target="../slideMasters/slideMaster1.xml"/>
</Relationships>"##;
pub const SLIDE_MASTER_RELS: &'static str = r##"<?xml version="1.0" encoding="UTF-8" standalone="yes"?>
<Relationships xmlns="http://schemas.openxmlformats.org/package/2006/relationships">
<Relationship Id="rId1" Type="http://schemas.openxmlformats.org/officeDocument/2006/relationships/theme" Target="../theme/theme1.xml"/>
</Relationships>"##;
pub const THEME: &'static str = r##"<?xml version="1.0" encoding="UTF-8" standalone="yes"?>
<a:theme xmlns:a="http://schemas.openxmlformats.org/drawingml/2006/main" name="Office Theme">
<a:themeElements>
<a:clrScheme name="Office">
<a:dk1>
<a:sysClr val="windowText" lastClr="000000"/>
</a:dk1>
<a:lt1>
<a:sysClr val="window" lastClr="FFFFFF"/>
</a:lt1>
<a:dk2>
<a:srgbClr val="1F497D"/>
</a:dk2>
<a:lt2>
<a:srgbClr val="EEECE1"/>
</a:lt2>
<a:accent1>
<a:srgbClr val="4F81BD"/>
</a:accent1>
<a:accent2>
<a:srgbClr val="C0504D"/>
</a:accent2>
<a:accent3>
<a:srgbClr val="9BBB59"/>
</a:accent3>
<a:accent4>
<a:srgbClr val="8064A2"/>
</a:accent4>
<a:accent5>
<a:srgbClr val="4BACC6"/>
</a:accent5>
<a:accent6>
<a:srgbClr val="F79646"/>
</a:accent6>
<a:hlink>
<a:srgbClr val="0000FF"/>
</a:hlink>
<a:folHlink>
<a:srgbClr val="800080"/>
</a:folHlink>
</a:clrScheme>
<a:fontScheme name="Office">
<a:majorFont>
<a:latin typeface="Calibri"/>
<a:ea typeface=""/>
<a:cs typeface=""/>
</a:majorFont>
<a:minorFont>
<a:latin typeface="Calibri"/>
<a:ea typeface=""/>
<a:cs typeface=""/>
</a:minorFont>
</a:fontScheme>
<a:fmtScheme name="Office">
<a:fillStyleLst>
<a:solidFill>
<a:schemeClr val="phClr"/>
</a:solidFill>
<a:gradFill rotWithShape="1">
<a:gsLst>
<a:gs pos="0">
<a:schemeClr val="phClr">
<a:tint val="50000"/>
<a:satMod val="300000"/>
</a:schemeClr>
</a:gs>
<a:gs pos="35000">
<a:schemeClr val="phClr">
<a:tint val="37000"/>
<a:satMod val="300000"/>
</a:schemeClr>
</a:gs>
<a:gs pos="100000">
<a:schemeClr val="phClr">
<a:tint val="15000"/>
<a:satMod val="350000"/>
</a:schemeClr>
</a:gs>
</a:gsLst>
<a:lin ang="16200000" scaled="1"/>
</a:gradFill>
<a:gradFill rotWithShape="1">
<a:gsLst>
<a:gs pos="0">
<a:schemeClr val="phClr">
<a:shade val="51000"/>
<a:satMod val="130000"/>
</a:schemeClr>
</a:gs>
<a:gs pos="80000">
<a:schemeClr val="phClr">
<a:shade val="93000"/>
<a:satMod val="130000"/>
</a:schemeClr>
</a:gs>
<a:gs pos="100000">
<a:schemeClr val="phClr">
<a:shade val="94000"/>
<a:satMod val="135000"/>
</a:schemeClr>
</a:gs>
</a:gsLst>
<a:lin ang="16200000" scaled="0"/>
</a:gradFill>
</a:fillStyleLst>
<a:lnStyleLst>
<a:ln w="9525" cap="flat" cmpd="sng" algn="ctr">
<a:solidFill>
<a:schemeClr val="phClr">
<a:shade val="95000"/>
<a:satMod val="105000"/>
</a:schemeClr>
</a:solidFill>
<a:prstDash val="solid"/>
</a:ln>
<a:ln w="25400" cap="flat" cmpd="sng" algn="ctr">
<a:solidFill>
<a:schemeClr val="phClr"/>
</a:solidFill>
<a:prstDash val="solid"/>
</a:ln>
<a:ln w="38100" cap="flat" cmpd="sng" algn="ctr">
<a:solidFill>
<a:schemeClr val="phClr"/>
</a:solidFill>
<a:prstDash val="solid"/>
</a:ln>
</a:lnStyleLst>
<a:effectStyleLst>
<a:effectStyle>
<a:effectLst/>
</a:effectStyle>
<a:effectStyle>
<a:effectLst/>
</a:effectStyle>
<a:effectStyle>
<a:effectLst>
<a:outerShdw blurRad="40000" dist="20000" dir="5400000" algn="ctr">
<a:srgbClr val="000000">
<a:alpha val="38000"/>
</a:srgbClr>
</a:outerShdw>
</a:effectLst>
</a:effectStyle>
</a:effectStyleLst>
<a:bgFillStyleLst>
<a:solidFill>
<a:schemeClr val="phClr"/>
</a:solidFill>
<a:gradFill rotWithShape="1">
<a:gsLst>
<a:gs pos="0">
<a:schemeClr val="phClr">
<a:tint val="40000"/>
<a:satMod val="350000"/>
</a:schemeClr>
</a:gs>
<a:gs pos="40000">
<a:schemeClr val="phClr">
<a:tint val="45000"/>
<a:shade val="99000"/>
<a:satMod val="350000"/>
</a:schemeClr>
</a:gs>
<a:gs pos="100000">
<a:schemeClr val="phClr">
<a:shade val="20000"/>
<a:satMod val="255000"/>
</a:schemeClr>
</a:gs>
</a:gsLst>
<a:lin ang="16200000" scaled="1"/>
</a:gradFill>
<a:gradFill rotWithShape="1">
<a:gsLst>
<a:gs pos="0">
<a:schemeClr val="phClr">
<a:tint val="80000"/>
<a:satMod val="300000"/>
</a:schemeClr>
</a:gs>
<a:gs pos="100000">
<a:schemeClr val="phClr">
<a:shade val="30000"/>
<a:satMod val="200000"/>
</a:schemeClr>
</a:gs>
</a:gsLst>
<a:lin ang="16200000" scaled="0"/>
</a:gradFill>
</a:bgFillStyleLst>
</a:fmtScheme>
</a:themeElements>
</a:theme>"##;
pub const SLIDE_MASTER: &'static str = r##"<?xml version="1.0" encoding="UTF-8" standalone="yes"?>
<p:sldMaster xmlns:a="http://schemas.openxmlformats.org/drawingml/2006/main" xmlns:r="http://schemas.openxmlformats.org/officeDocument/2006/relationships" xmlns:p="http://schemas.openxmlformats.org/presentationml/2006/main">
<p:cSld>
<p:bg>
<p:bgRef idx="1001">
<a:scrgbClr r="100%" g="100%" b="100%"/>
</p:bgRef>
</p:bg>
<p:spTree>
<p:nvGrpSpPr>
<p:cNvPr id="1" name=""/>
<p:nvPr/>
</p:nvGrpSpPr>
<p:grpSpPr>
<a:xfrm>
<a:off x="0" y="0"/>
<a:ext cx="0" cy="0"/>
<a:chOff x="0" y="0"/>
<a:chExt cx="0" cy="0"/>
</a:xfrm>
</p:grpSpPr>
</p:spTree>
</p:cSld>
<p:clrMap>
<a:clrMap bg1="lt1" tx1="dk1" bg2="lt2" tx2="dk2" accent1="accent1" accent2="accent2" accent3="accent3" accent4="accent4" accent5="accent5" accent6="accent6" hlink="hlink" folHlink="folHlink"/>
</p:clrMap>
</p:sldMaster>"##;

/// A slide showing picture `slide_num` over the whole slide.
pub open spec fn spec_slide_with_image(slide_num: nat) -> Seq<char> {
    SLIDE_IMAGE_HEAD@ + dec(slide_num) + SLIDE_IMAGE_TAIL@
}

/// The relationships of slide `slide_num`: its picture `image{n}.{ext}` and
/// the blank layout.
pub open spec fn spec_slide_rels(slide_num: nat, ext: Seq<char>) -> Seq<char> {
    SLIDE_RELS_HEAD@ + dec(slide_num) + SLIDE_RELS_DOT@ + ext + SLIDE_RELS_TAIL@
}

/// The content types of a package with `n` slides.
pub open spec fn spec_content_types(n: nat) -> Seq<char> {
    CONTENT_TYPES_HEAD@ + numbered(n, SLIDE_OVERRIDE_HEAD@, SLIDE_OVERRIDE_TAIL@) + CONTENT_TYPES_TAIL@
}

/// The presentation part listing `n` slides, with ids from 256.
pub open spec fn spec_presentation(n: nat) -> Seq<char> {
    PRESENTATION_HEAD@ + numbered_offset(n, 255, SLIDE_ID_HEAD@, SLIDE_ID_MID@, SLIDE_ID_TAIL@) + PRESENTATION_TAIL@
}

/// The relationships of the presentation: `n` slides, then the master.
pub open spec fn spec_presentation_rels(n: nat) -> Seq<char> {
    PRESENTATION_RELS_HEAD@ + numbered_twice(n, SLIDE_REL_HEAD@, SLIDE_REL_MID@, SLIDE_REL_TAIL@) + MASTER_REL@
        + PRESENTATION_RELS_TAIL@
}

pub fn generate_slide_with_image(slide_num: usize, _ext: &str) -> (r: String)
    ensures
        r@ == spec_slide_with_image(slide_num as nat),
{
    let mut s = owned(SLIDE_IMAGE_HEAD);
    push_decimal(&mut s, slide_num as u64);
    s.append(SLIDE_IMAGE_TAIL);
    s
}

pub fn generate_slide_rels(slide_num: usize, ext: &str) -> (r: String)
    ensures
        r@ == spec_slide_rels(slide_num as nat, ext@),
{
    let mut s = owned(SLIDE_RELS_HEAD);
    push_decimal(&mut s, slide_num as u64);
    s.append(SLIDE_RELS_DOT);
    s.append(ext);
    s.append(SLIDE_RELS_TAIL);
    s
}

pub fn generate_content_types(slide_count: usize) -> (r: String)
    ensures
        r@ == spec_content_types(slide_count as nat),
{
    let mut s = owned(CONTENT_TYPES_HEAD);
    push_numbered(&mut s, slide_count as u64, SLIDE_OVERRIDE_HEAD, SLIDE_OVERRIDE_TAIL);
    s.append(CONTENT_TYPES_TAIL);
    s
}

pub fn generate_rels() -> (r: String)
    ensures
        r@ == PACKAGE_RELS@,
{
    owned(PACKAGE_RELS)
}

pub fn generate_presentation(slide_count: usize) -> (r: String)
    requires
        slide_count + 255 <= usize::MAX,
    ensures
        r@ == spec_presentation(slide_count as nat),
{
    let mut s = owned(PRESENTATION_HEAD);
    push_numbered_offset(&mut s, slide_count as u64, 255, SLIDE_ID_HEAD, SLIDE_ID_MID, SLIDE_ID_TAIL);
    s.append(PRESENTATION_TAIL);
    s
}

pub fn generate_presentation_rels(slide_count: usize) -> (r: String)
    ensures
        r@ == spec_presentation_rels(slide_count as nat),
{
    let mut s = owned(PRESENTATION_RELS_HEAD);
    push_numbered_twice(&mut s, slide_count as u64, SLIDE_REL_HEAD, SLIDE_REL_MID, SLIDE_REL_TAIL);
    s.append(MASTER_REL);
    s.append(PRESENTATION_RELS_TAIL);
    s
}

pub fn generate_slide_layout() -> (r: String)
    ensures
        r@ == SLIDE_LAYOUT@,
{
    owned(SLIDE_LAYOUT)
}

pub fn generate_slide_layout_rels() -> (r: String)
    ensures
        r@ == SLIDE_LAYOUT_RELS@,
{
    owned(SLIDE_LAYOUT_RELS)
}

pub fn generate_slide_master_rels() -> (r: String)
    ensures
        r@ == SLIDE_MASTER_RELS@,
{
    owned(SLIDE_MASTER_RELS)
}

pub fn generate_theme() -> (r: String)
    ensures
        r@ == THEME@,
{
    owned(THEME)
}

pub fn generate_slide_master() -> (r: String)
    ensures
        r@ == SLIDE_MASTER@,
{
    owned(SLIDE_MASTER)
}

} // verus!
