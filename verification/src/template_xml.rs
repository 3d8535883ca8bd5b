//! Reading a template presentation's parts: slide size, theme colors and
//! fonts, and its layouts with the kind of page each serves and the fixed
//! regions it holds.
use vstd::prelude::*;
use crate::numbers::{parse_i64, spec_parse_i64};
use crate::pptx_colors::{pairs_insert, pairs_view, spec_to_uppercase, to_uppercase};
use crate::style_guide::{spec_to_lowercase, to_lowercase};
use crate::template_pages::{contains_any, mentions_any, FixedRegion, PageType, TemplateLayout};
use crate::text::{chars_of, owned, str_eq};
use crate::xml::{
    attr, attribute, has_tag, has_tag_name, is_child, lemma_subtree_end, parse_xml_nodes, spec_xml_nodes, nodes_view,
    subtree_end, subtree_end_of, XmlNode,
};

verus! {

/// The first index in `lo..hi` of a node tagged `tag`, or `hi`.
pub open spec fn find_tag(nodes: Seq<XmlNode>, tag: Seq<char>, lo: int, hi: int) -> int
    decreases hi - lo,
{
    if lo < 0 || lo >= hi || lo >= nodes.len() {
        hi
    } else if has_tag(nodes[lo], tag) {
        lo
    } else {
        find_tag(nodes, tag, lo + 1, hi)
    }
}

proof fn lemma_find_tag(nodes: Seq<XmlNode>, tag: Seq<char>, lo: int, hi: int)
    requires
        0 <= lo <= hi <= nodes.len(),
    ensures
        lo <= find_tag(nodes, tag, lo, hi) <= hi,
        find_tag(nodes, tag, lo, hi) < hi ==> has_tag(nodes[find_tag(nodes, tag, lo, hi)], tag),
    decreases hi - lo,
{
    if lo < hi && !has_tag(nodes[lo], tag) {
        lemma_find_tag(nodes, tag, lo + 1, hi);
    }
}

/// Finds the first node in `lo..hi` tagged `tag`.
fn find_tag_in(nodes: &[XmlNode], tag: &str, lo: usize, hi: usize) -> (r: usize)
    requires
        lo <= hi <= nodes@.len(),
    ensures
        r == find_tag(nodes@, tag@, lo as int, hi as int),
        lo <= r <= hi,
{
    let mut i = lo;
    while i < hi && !has_tag_name(&nodes[i], tag)
        invariant
            lo <= i <= hi <= nodes@.len(),
            find_tag(nodes@, tag@, lo as int, hi as int) == find_tag(nodes@, tag@, i as int, hi as int),
        decreases hi - i,
    {
        i = i + 1;
    }
    i
}

pub const DEFAULT_SLIDE_WIDTH: i64 = 12192000;
pub const DEFAULT_SLIDE_HEIGHT: i64 = 6858000;

/// A number attribute, or the default when it is absent or no number.
pub open spec fn number_attr(n: XmlNode, key: Seq<char>, default: i64) -> i64 {
    match attr(n, key) {
        Some(v) => match spec_parse_i64(v) {
            Some(x) => x,
            None => default,
        },
        None => default,
    }
}

fn number_attribute(n: &XmlNode, key: &str, default: i64) -> (r: i64)
    ensures
        r == number_attr(*n, key@, default),
{
    match attribute(n, key) {
        Some(v) => match parse_i64(v.as_str()) {
            Some(x) => x,
            None => default,
        },
        None => default,
    }
}

/// The slide size of a presentation part: the `cx` and `cy` of its first
/// `p:sldSz` node, each kept at the 16:9 default when absent or no number.
pub open spec fn spec_slide_dimensions(nodes: Seq<XmlNode>) -> (i64, i64) {
    let k = find_tag(nodes, "p:sldSz"@, 0, nodes.len() as int);
    if k < nodes.len() {
        (number_attr(nodes[k], "cx"@, DEFAULT_SLIDE_WIDTH), number_attr(nodes[k], "cy"@, DEFAULT_SLIDE_HEIGHT))
    } else {
        (DEFAULT_SLIDE_WIDTH, DEFAULT_SLIDE_HEIGHT)
    }
}

/// The slide size read from the parsed presentation part.
pub fn slide_dimensions_from_nodes(nodes: &[XmlNode]) -> (r: (i64, i64))
    ensures
        r == spec_slide_dimensions(nodes@),
{
    let k = find_tag_in(nodes, "p:sldSz", 0, nodes.len());
    if k < nodes.len() {
        (number_attribute(&nodes[k], "cx", DEFAULT_SLIDE_WIDTH), number_attribute(&nodes[k], "cy", DEFAULT_SLIDE_HEIGHT))
    } else {
        (DEFAULT_SLIDE_WIDTH, DEFAULT_SLIDE_HEIGHT)
    }
}

/// The slide size of a presentation part's XML: the default when the text
/// does not parse.
pub fn read_slide_dimensions(xml: &str) -> (r: (i64, i64))
    ensures
        match spec_xml_nodes(xml@) {
            Some(v) => exists|nodes: Seq<XmlNode>| nodes_view(nodes) == v && r == spec_slide_dimensions(nodes),
            None => r == (DEFAULT_SLIDE_WIDTH, DEFAULT_SLIDE_HEIGHT),
        },
{
    match parse_xml_nodes(xml) {
        Ok(nodes) => slide_dimensions_from_nodes(nodes.as_slice()),
        Err(_) => (DEFAULT_SLIDE_WIDTH, DEFAULT_SLIDE_HEIGHT),
    }
}

pub const DEFAULT_FONT: &'static str = "Aptos Display";
pub const DEFAULT_EAST_ASIAN_FONT: &'static str = "Microsoft YaHei";

/// Walks the subtree `j..end` of a font scheme: the `typeface` of each
/// `a:latin` node sets the font, that of each `a:ea` node the East Asian
/// font.
pub open spec fn fonts_from(nodes: Seq<XmlNode>, j: int, end: int, latin: Seq<char>, ea: Seq<char>) -> (Seq<char>, Seq<char>)
    decreases end - j,
{
    if j < 0 || j >= end || j >= nodes.len() {
        (latin, ea)
    } else {
        let n = nodes[j];
        let latin2 = if has_tag(n, "a:latin"@) && attr(n, "typeface"@) is Some {
            attr(n, "typeface"@)->0
        } else {
            latin
        };
        let ea2 = if has_tag(n, "a:ea"@) && attr(n, "typeface"@) is Some {
            attr(n, "typeface"@)->0
        } else {
            ea
        };
        fonts_from(nodes, j + 1, end, latin2, ea2)
    }
}

/// The default fonts of a theme: from its first `a:fontScheme` node and
/// everything under it.
pub open spec fn spec_default_fonts(nodes: Seq<XmlNode>) -> (Seq<char>, Seq<char>) {
    let k = find_tag(nodes, "a:fontScheme"@, 0, nodes.len() as int);
    if k < nodes.len() {
        fonts_from(nodes, k, subtree_end(nodes, k, k + 1), DEFAULT_FONT@, DEFAULT_EAST_ASIAN_FONT@)
    } else {
        (DEFAULT_FONT@, DEFAULT_EAST_ASIAN_FONT@)
    }
}

/// The default fonts read from a parsed theme.
pub fn default_fonts_from_nodes(nodes: &[XmlNode]) -> (r: (String, String))
    ensures
        (r.0@, r.1@) == spec_default_fonts(nodes@),
{
    let mut latin = owned(DEFAULT_FONT);
    let mut ea = owned(DEFAULT_EAST_ASIAN_FONT);
    let k = find_tag_in(nodes, "a:fontScheme", 0, nodes.len());
    if k < nodes.len() {
        let end = subtree_end_of(nodes, k);
        let mut j = k;
        while j < end
            invariant
                k <= j <= end <= nodes@.len(),
                end == subtree_end(nodes@, k as int, k + 1),
                spec_default_fonts(nodes@) == fonts_from(nodes@, j as int, end as int, latin@, ea@),
            decreases end - j,
        {
            if has_tag_name(&nodes[j], "a:latin") {
                match attribute(&nodes[j], "typeface") {
                    Some(t) => {
                        latin = owned(t.as_str());
                    },
                    None => {},
                }
            }
            if has_tag_name(&nodes[j], "a:ea") {
                match attribute(&nodes[j], "typeface") {
                    Some(t) => {
                        ea = owned(t.as_str());
                    },
                    None => {},
                }
            }
            j = j + 1;
        }
    }
    (latin, ea)
}

/// The default fonts of a theme's XML, if it could be read: the defaults
/// when it could not, or does not parse.
pub fn read_default_fonts(xml: Option<&str>) -> (r: (String, String))
    ensures
        match xml {
            Some(x) => match spec_xml_nodes(x@) {
                Some(v) => exists|nodes: Seq<XmlNode>| nodes_view(nodes) == v && (r.0@, r.1@) == spec_default_fonts(nodes),
                None => (r.0@, r.1@) == (DEFAULT_FONT@, DEFAULT_EAST_ASIAN_FONT@),
            },
            None => (r.0@, r.1@) == (DEFAULT_FONT@, DEFAULT_EAST_ASIAN_FONT@),
        },
{
    match xml {
        Some(x) => match parse_xml_nodes(x) {
            Ok(nodes) => default_fonts_from_nodes(nodes.as_slice()),
            Err(_) => (owned(DEFAULT_FONT), owned(DEFAULT_EAST_ASIAN_FONT)),
        },
        None => (owned(DEFAULT_FONT), owned(DEFAULT_EAST_ASIAN_FONT)),
    }
}

/// The short name of a scheme slot, by its tag.
pub open spec fn spec_short_slot(tag: Seq<char>) -> Option<Seq<char>> {
    if tag == "a:dk1"@ {
        Some("dk1"@)
    } else if tag == "a:lt1"@ {
        Some("lt1"@)
    } else if tag == "a:dk2"@ {
        Some("dk2"@)
    } else if tag == "a:lt2"@ {
        Some("lt2"@)
    } else if tag == "a:accent1"@ {
        Some("accent1"@)
    } else if tag == "a:accent2"@ {
        Some("accent2"@)
    } else if tag == "a:accent3"@ {
        Some("accent3"@)
    } else if tag == "a:accent4"@ {
        Some("accent4"@)
    } else if tag == "a:accent5"@ {
        Some("accent5"@)
    } else if tag == "a:accent6"@ {
        Some("accent6"@)
    } else if tag == "a:hlink"@ {
        Some("hlink"@)
    } else if tag == "a:folHlink"@ {
        Some("folHlink"@)
    } else {
        None
    }
}

fn short_slot(tag: &str) -> (r: Option<&'static str>)
    ensures
        match r {
            Some(s) => spec_short_slot(tag@) == Some(s@),
            None => spec_short_slot(tag@) is None,
        },
{
    if str_eq(tag, "a:dk1") {
        Some("dk1")
    } else if str_eq(tag, "a:lt1") {
        Some("lt1")
    } else if str_eq(tag, "a:dk2") {
        Some("dk2")
    } else if str_eq(tag, "a:lt2") {
        Some("lt2")
    } else if str_eq(tag, "a:accent1") {
        Some("accent1")
    } else if str_eq(tag, "a:accent2") {
        Some("accent2")
    } else if str_eq(tag, "a:accent3") {
        Some("accent3")
    } else if str_eq(tag, "a:accent4") {
        Some("accent4")
    } else if str_eq(tag, "a:accent5") {
        Some("accent5")
    } else if str_eq(tag, "a:accent6") {
        Some("accent6")
    } else if str_eq(tag, "a:hlink") {
        Some("hlink")
    } else if str_eq(tag, "a:folHlink") {
        Some("folHlink")
    } else {
        None
    }
}

/// The colors that the children `j..` of the slot node `c` set for `name`:
/// each `a:srgbClr` with a `val` and each `a:sysClr` with a `lastClr`
/// sets it, upper-cased.
pub open spec fn slot_colors(nodes: Seq<XmlNode>, c: int, j: int, name: Seq<char>, acc: Seq<(Seq<char>, Seq<char>)>) -> Seq<(Seq<char>, Seq<char>)>
    decreases nodes.len() - j,
{
    if j < 0 || j >= subtree_end(nodes, c, c + 1) || j >= nodes.len() {
        acc
    } else {
        let n = nodes[j];
        let acc2 = if !is_child(nodes, c, j) {
            acc
        } else if has_tag(n, "a:srgbClr"@) {
            match attr(n, "val"@) {
                Some(v) => pairs_insert(acc, name, spec_to_uppercase(v)),
                None => acc,
            }
        } else if has_tag(n, "a:sysClr"@) {
            match attr(n, "lastClr"@) {
                Some(v) => pairs_insert(acc, name, spec_to_uppercase(v)),
                None => acc,
            }
        } else {
            acc
        };
        slot_colors(nodes, c, j + 1, name, acc2)
    }
}

/// The colors that the children `j..` of the scheme node `s` set.
pub open spec fn theme_colors_from(nodes: Seq<XmlNode>, s: int, j: int, acc: Seq<(Seq<char>, Seq<char>)>) -> Seq<(Seq<char>, Seq<char>)>
    decreases nodes.len() - j,
{
    if j < 0 || j >= subtree_end(nodes, s, s + 1) || j >= nodes.len() {
        acc
    } else {
        let acc2 = if is_child(nodes, s, j) && spec_short_slot(nodes[j].name@) is Some {
            slot_colors(nodes, j, j + 1, spec_short_slot(nodes[j].name@)->0, acc)
        } else {
            acc
        };
        theme_colors_from(nodes, s, j + 1, acc2)
    }
}

/// The theme colors, by slot short name, of the first `a:clrScheme` node.
pub open spec fn spec_theme_colors(nodes: Seq<XmlNode>) -> Seq<(Seq<char>, Seq<char>)> {
    let k = find_tag(nodes, "a:clrScheme"@, 0, nodes.len() as int);
    if k < nodes.len() {
        theme_colors_from(nodes, k, k + 1, seq![])
    } else {
        seq![]
    }
}

fn insert_color(ps: &mut Vec<(String, String)>, k: &str, v: String)
    ensures
        pairs_view(final(ps)@) == pairs_insert(pairs_view(old(ps)@), k@, v@),
{
    let ghost pv = pairs_view(ps@);
    let mut i: usize = 0;
    while i < ps.len()
        invariant
            0 <= i <= ps@.len(),
            pv == pairs_view(ps@),
            ps@ == old(ps)@,
            crate::pptx_colors::key_index(pv, k@, 0) == crate::pptx_colors::key_index(pv, k@, i as int),
        decreases ps@.len() - i,
    {
        if str_eq(ps[i].0.as_str(), k) {
            ps.set(i, (owned(k), v));
            proof {
                assert(pairs_view(ps@) =~= pv.update(i as int, (k@, v@)));
            }
            return;
        }
        i = i + 1;
    }
    ps.push((owned(k), v));
    proof {
        assert(pairs_view(ps@) =~= pv.push((k@, v@)));
    }
}

/// The theme colors read from a parsed theme.
pub fn theme_colors_from_nodes(nodes: &[XmlNode]) -> (r: Vec<(String, String)>)
    ensures
        pairs_view(r@) == spec_theme_colors(nodes@),
{
    let mut colors: Vec<(String, String)> = Vec::new();
    proof {
        assert(pairs_view(colors@) =~= Seq::<(Seq<char>, Seq<char>)>::empty());
    }
    let k = find_tag_in(nodes, "a:clrScheme", 0, nodes.len());
    if k < nodes.len() {
        let end = subtree_end_of(nodes, k);
        let mut j = k + 1;
        while j < end
            invariant
                k < j <= end <= nodes@.len(),
                end == subtree_end(nodes@, k as int, k + 1),
                spec_theme_colors(nodes@) == theme_colors_from(nodes@, k as int, j as int, pairs_view(colors@)),
            decreases end - j,
        {
            if nodes[j].depth == nodes[k].depth + 1 {
                match short_slot(nodes[j].name.as_str()) {
                    Some(name) => {
                        let cend = subtree_end_of(nodes, j);
                        let ghost start = pairs_view(colors@);
                        let mut m = j + 1;
                        while m < cend
                            invariant
                                j < m <= cend <= nodes@.len(),
                                cend == subtree_end(nodes@, j as int, j + 1),
                                slot_colors(nodes@, j as int, j + 1, name@, start) == slot_colors(
                                    nodes@,
                                    j as int,
                                    m as int,
                                    name@,
                                    pairs_view(colors@),
                                ),
                            decreases cend - m,
                        {
                            let n = &nodes[m];
                            if n.depth == nodes[j].depth + 1 {
                                if has_tag_name(n, "a:srgbClr") {
                                    match attribute(n, "val") {
                                        Some(v) => {
                                            insert_color(&mut colors, name, to_uppercase(v.as_str()));
                                        },
                                        None => {},
                                    }
                                } else if has_tag_name(n, "a:sysClr") {
                                    match attribute(n, "lastClr") {
                                        Some(v) => {
                                            insert_color(&mut colors, name, to_uppercase(v.as_str()));
                                        },
                                        None => {},
                                    }
                                }
                            }
                            m = m + 1;
                        }
                    },
                    None => {},
                }
            }
            j = j + 1;
        }
    }
    colors
}


/// The theme colors of a theme's XML, if it could be read: none when it
/// could not, or does not parse.
pub fn read_theme_colors(xml: Option<&str>) -> (r: Vec<(String, String)>)
    ensures
        match xml {
            Some(x) => match spec_xml_nodes(x@) {
                Some(v) => exists|nodes: Seq<XmlNode>| nodes_view(nodes) == v && pairs_view(r@) == spec_theme_colors(nodes),
                None => r@.len() == 0,
            },
            None => r@.len() == 0,
        },
{
    match xml {
        Some(x) => match parse_xml_nodes(x) {
            Ok(nodes) => theme_colors_from_nodes(nodes.as_slice()),
            Err(_) => Vec::new(),
        },
        None => Vec::new(),
    }
}

/// A placeholder type that marks a fixed region (slide number, footer,
/// header, date).
pub open spec fn fixed_placeholder(t: Seq<char>) -> bool {
    t == "sldNum"@ || t == "ftr"@ || t == "hdr"@ || t == "dt"@
}

/// A placeholder type that holds page content (body, titles).
pub open spec fn content_placeholder(t: Seq<char>) -> bool {
    t == "body"@ || t == "title"@ || t == "ctrTitle"@ || t == "subTitle"@
}

/// The fixed region of the shape or picture at node `i`, if it is one: a
/// placeholder for a slide number, footer, header or date, or a picture
/// that is no content placeholder, with the offset and size of its first
/// transform (absent values read as 0), at least 10000 EMU each way.
pub open spec fn spec_fixed_element(nodes: Seq<XmlNode>, i: int) -> Option<FixedRegion> {
    let end = subtree_end(nodes, i, i + 1);
    let ph = find_tag(nodes, "p:ph"@, i, end);
    let ph_type = if ph < end { attr(nodes[ph], "type"@) } else { None };
    let is_fixed = match ph_type {
        Some(t) => if fixed_placeholder(t) {
            true
        } else if content_placeholder(t) {
            false
        } else {
            has_tag(nodes[i], "p:pic"@)
        },
        None => has_tag(nodes[i], "p:pic"@),
    };
    let xf = find_tag(nodes, "a:xfrm"@, i, end);
    let xend = subtree_end(nodes, xf, xf + 1);
    let off = find_tag(nodes, "a:off"@, xf, xend);
    let ext = find_tag(nodes, "a:ext"@, xf, xend);
    let x: i64 = if xf < end && off < xend { number_attr(nodes[off], "x"@, 0) } else { 0 };
    let y: i64 = if xf < end && off < xend { number_attr(nodes[off], "y"@, 0) } else { 0 };
    let w: i64 = if xf < end && ext < xend { number_attr(nodes[ext], "cx"@, 0) } else { 0 };
    let h: i64 = if xf < end && ext < xend { number_attr(nodes[ext], "cy"@, 0) } else { 0 };
    if !is_fixed || w < 10000 || h < 10000 {
        None
    } else {
        Some(FixedRegion { x, y, width: w, height: h })
    }
}

fn is_one_of(t: &str, a: &str, b: &str, c: &str, d: &str) -> (r: bool)
    ensures
        r == (t@ == a@ || t@ == b@ || t@ == c@ || t@ == d@),
{
    str_eq(t, a) || str_eq(t, b) || str_eq(t, c) || str_eq(t, d)
}

/// The fixed region of the node at `i`, if it is one.
pub fn parse_fixed_element(nodes: &[XmlNode], i: usize) -> (r: Option<FixedRegion>)
    requires
        i < nodes@.len(),
    ensures
        r == spec_fixed_element(nodes@, i as int),
{
    let end = subtree_end_of(nodes, i);
    let ph = find_tag_in(nodes, "p:ph", i, end);
    let ph_type: Option<&String> = if ph < end {
        attribute(&nodes[ph], "type")
    } else {
        None
    };
    let is_pic = has_tag_name(&nodes[i], "p:pic");
    let is_fixed = match ph_type {
        Some(t) => {
            if is_one_of(t.as_str(), "sldNum", "ftr", "hdr", "dt") {
                true
            } else if is_one_of(t.as_str(), "body", "title", "ctrTitle", "subTitle") {
                false
            } else {
                is_pic
            }
        },
        None => is_pic,
    };
    let xf = find_tag_in(nodes, "a:xfrm", i, end);
    let (x, y, w, h) = if xf < end {
        let xend = subtree_end_of(nodes, xf);
        proof {
            lemma_subtree_end(nodes@, xf as int, xf + 1);
        }
        let off = find_tag_in(nodes, "a:off", xf, xend);
        let ext = find_tag_in(nodes, "a:ext", xf, xend);
        let x: i64 = if off < xend { number_attribute(&nodes[off], "x", 0) } else { 0 };
        let y: i64 = if off < xend { number_attribute(&nodes[off], "y", 0) } else { 0 };
        let w: i64 = if ext < xend { number_attribute(&nodes[ext], "cx", 0) } else { 0 };
        let h: i64 = if ext < xend { number_attribute(&nodes[ext], "cy", 0) } else { 0 };
        (x, y, w, h)
    } else {
        (0i64, 0i64, 0i64, 0i64)
    };
    if !is_fixed || w < 10000 || h < 10000 {
        None
    } else {
        Some(FixedRegion { x, y, width: w, height: h })
    }
}

pub open spec fn layout_front_keywords() -> Seq<Seq<char>> {
    seq!["title"@, "cover"@, "front"@, "封面"@, "首页"@]
}

pub open spec fn layout_back_keywords() -> Seq<Seq<char>> {
    seq!["back"@, "end"@, "closing"@, "section"@, "封底"@, "尾页"@, "结束"@]
}

/// The kind of page a layout serves, from its lower-cased name.
pub open spec fn spec_layout_kind(lower: Seq<char>) -> PageType {
    if mentions_any(lower, layout_front_keywords()) {
        PageType::FrontCover
    } else if mentions_any(lower, layout_back_keywords()) {
        PageType::BackCover
    } else {
        PageType::Content
    }
}

fn layout_kind(name: &str) -> (r: PageType)
    ensures
        r == spec_layout_kind(spec_to_lowercase(name@)),
{
    let lower = to_lowercase(name);
    let t = chars_of(lower.as_str());
    let front = ["title", "cover", "front", "封面", "首页"];
    proof {
        reveal_strlit("title");
        reveal_strlit("cover");
        reveal_strlit("front");
        reveal_strlit("封面");
        reveal_strlit("首页");
        assert forall|k: int| 0 <= k < front@.len() implies #[trigger] front@[k]@ == layout_front_keywords()[k] by {}
    }
    if contains_any(&t, &front, Ghost(layout_front_keywords())) {
        return PageType::FrontCover;
    }
    let back = ["back", "end", "closing", "section", "封底", "尾页", "结束"];
    proof {
        reveal_strlit("back");
        reveal_strlit("end");
        reveal_strlit("closing");
        reveal_strlit("section");
        reveal_strlit("封底");
        reveal_strlit("尾页");
        reveal_strlit("结束");
        assert forall|k: int| 0 <= k < back@.len() implies #[trigger] back@[k]@ == layout_back_keywords()[k] by {}
    }
    if contains_any(&t, &back, Ghost(layout_back_keywords())) {
        return PageType::BackCover;
    }
    PageType::Content
}

/// Walking the nodes from `j`: the kind named by the last `p:cNvPr` with a
/// `name`, and the fixed regions of the shapes and pictures, in order.
pub open spec fn layout_scan(nodes: Seq<XmlNode>, j: int, kind: PageType, regions: Seq<FixedRegion>) -> (PageType, Seq<FixedRegion>)
    decreases nodes.len() - j,
{
    if j < 0 || j >= nodes.len() {
        (kind, regions)
    } else {
        let n = nodes[j];
        let kind2 = if has_tag(n, "p:cNvPr"@) && attr(n, "name"@) is Some {
            spec_layout_kind(spec_to_lowercase(attr(n, "name"@)->0))
        } else {
            kind
        };
        let regions2 = if (has_tag(n, "p:sp"@) || has_tag(n, "p:pic"@)) && spec_fixed_element(nodes, j) is Some {
            regions.push(spec_fixed_element(nodes, j)->0)
        } else {
            regions
        };
        layout_scan(nodes, j + 1, kind2, regions2)
    }
}

/// A layout as plain values.
pub open spec fn layout_view(l: TemplateLayout) -> (u32, PageType, Seq<FixedRegion>) {
    (l.layout_index, l.page_type, l.fixed_regions@)
}

/// The layout read from the parsed part of layout `index`.
pub open spec fn spec_parsed_layout(index: u32, nodes: Seq<XmlNode>) -> (u32, PageType, Seq<FixedRegion>) {
    let (kind, regions) = layout_scan(nodes, 0, PageType::Content, seq![]);
    (index, kind, regions)
}

/// Reads one parsed layout part.
pub fn layout_from_nodes(index: u32, nodes: &[XmlNode]) -> (r: TemplateLayout)
    ensures
        layout_view(r) == spec_parsed_layout(index, nodes@),
{
    let mut kind = PageType::Content;
    let mut regions: Vec<FixedRegion> = Vec::new();
    let mut j: usize = 0;
    while j < nodes.len()
        invariant
            0 <= j <= nodes@.len(),
            layout_scan(nodes@, 0, PageType::Content, seq![]) == layout_scan(nodes@, j as int, kind, regions@),
        decreases nodes@.len() - j,
    {
        if has_tag_name(&nodes[j], "p:cNvPr") {
            match attribute(&nodes[j], "name") {
                Some(name) => {
                    kind = layout_kind(name.as_str());
                },
                None => {},
            }
        }
        if has_tag_name(&nodes[j], "p:sp") || has_tag_name(&nodes[j], "p:pic") {
            match parse_fixed_element(nodes, j) {
                Some(region) => {
                    regions.push(region);
                },
                None => {},
            }
        }
        j = j + 1;
    }
    TemplateLayout { layout_index: index, page_type: kind, fixed_regions: regions }
}

/// The default kind of layouts 1 to 3 (title, content, closing).
pub open spec fn default_kind(index: int) -> PageType {
    if index == 1 {
        PageType::FrontCover
    } else if index == 2 {
        PageType::Content
    } else {
        PageType::BackCover
    }
}

/// Layouts `1..=k` before the fix-ups: a parsed part gives its layout;
/// layouts 1 to 3 are there by default otherwise.
pub open spec fn layouts_upto(parsed: Seq<Option<Seq<XmlNode>>>, k: int) -> Seq<(u32, PageType, Seq<FixedRegion>)>
    decreases k,
{
    if k <= 0 {
        seq![]
    } else {
        let rest = layouts_upto(parsed, k - 1);
        if k - 1 < parsed.len() && parsed[k - 1] is Some {
            rest.push(spec_parsed_layout(k as u32, parsed[k - 1]->0))
        } else if k <= 3 {
            rest.push((k as u32, default_kind(k), seq![]))
        } else {
            rest
        }
    }
}

pub open spec fn any_kind(ls: Seq<(u32, PageType, Seq<FixedRegion>)>, t: PageType) -> bool {
    exists|i: int| 0 <= i < ls.len() && (#[trigger] ls[i]).1 == t
}

pub open spec fn set_kind(ls: Seq<(u32, PageType, Seq<FixedRegion>)>, i: int, t: PageType) -> Seq<(u32, PageType, Seq<FixedRegion>)> {
    ls.update(i, (ls[i].0, t, ls[i].2))
}

/// The layouts of a template from the parsed parts of layouts 1 to 10, in
/// order of index; when no layout serves covers, content or closing pages,
/// the first, second or third layout serves them.
pub open spec fn spec_layouts(parsed: Seq<Option<Seq<XmlNode>>>) -> Seq<(u32, PageType, Seq<FixedRegion>)> {
    let ls = layouts_upto(parsed, 10);
    let has_front = any_kind(ls, PageType::FrontCover);
    let has_content = any_kind(ls, PageType::Content);
    let has_back = any_kind(ls, PageType::BackCover);
    let a = if !has_front && ls.len() >= 1 { set_kind(ls, 0, PageType::FrontCover) } else { ls };
    let b = if !has_content && a.len() >= 2 { set_kind(a, 1, PageType::Content) } else { a };
    if !has_back && b.len() >= 3 { set_kind(b, 2, PageType::BackCover) } else { b }
}

pub open spec fn layouts_view(v: Seq<TemplateLayout>) -> Seq<(u32, PageType, Seq<FixedRegion>)> {
    v.map_values(|l: TemplateLayout| layout_view(l))
}

fn has_kind(ls: &Vec<TemplateLayout>, t: PageType) -> (r: bool)
    ensures
        r == any_kind(layouts_view(ls@), t),
{
    let mut i: usize = 0;
    while i < ls.len()
        invariant
            0 <= i <= ls@.len(),
            forall|j: int| 0 <= j < i ==> ls@[j].page_type != t,
        decreases ls@.len() - i,
    {
        if ls[i].page_type == t {
            proof {
                assert(layouts_view(ls@)[i as int].1 == t);
            }
            return true;
        }
        i = i + 1;
    }
    proof {
        assert forall|j: int| 0 <= j < layouts_view(ls@).len() implies (#[trigger] layouts_view(ls@)[j]).1 != t by {
            assert(layouts_view(ls@)[j].1 == ls@[j].page_type);
        }
    }
    false
}

fn set_page_type(ls: &mut Vec<TemplateLayout>, i: usize, t: PageType)
    requires
        i < old(ls)@.len(),
    ensures
        layouts_view(final(ls)@) == set_kind(layouts_view(old(ls)@), i as int, t),
{
    let ghost before = layouts_view(ls@);
    let index = ls[i].layout_index;
    let mut regions: Vec<FixedRegion> = Vec::new();
    let mut k: usize = 0;
    while k < ls[i].fixed_regions.len()
        invariant
            0 <= k <= ls@[i as int].fixed_regions@.len(),
            i < ls@.len(),
            ls@ == old(ls)@,
            regions@ == ls@[i as int].fixed_regions@.take(k as int),
        decreases ls@[i as int].fixed_regions@.len() - k,
    {
        let f = ls[i].fixed_regions[k];
        regions.push(f);
        proof {
            assert(ls@[i as int].fixed_regions@.take(k + 1) =~= ls@[i as int].fixed_regions@.take(k as int).push(f));
        }
        k = k + 1;
    }
    proof {
        assert(ls@[i as int].fixed_regions@.take(ls@[i as int].fixed_regions@.len() as int) =~= ls@[i as int].fixed_regions@);
    }
    ls.set(i, TemplateLayout { layout_index: index, page_type: t, fixed_regions: regions });
    proof {
        assert(layouts_view(ls@) =~= set_kind(before, i as int, t));
    }
}

/// The layouts of a template, from the parsed parts of its layouts 1 to 10
/// (none where a part is missing or does not parse).
pub fn layouts_from_parsed(parsed: &[Option<Vec<XmlNode>>]) -> (r: Vec<TemplateLayout>)
    ensures
        layouts_view(r@) == spec_layouts(parsed@.map_values(|o: Option<Vec<XmlNode>>| match o {
            Some(v) => Some(v@),
            None => None,
        })),
{
    let ghost pv = parsed@.map_values(|o: Option<Vec<XmlNode>>| match o {
        Some(v) => Some(v@),
        None => None,
    });
    let mut ls: Vec<TemplateLayout> = Vec::new();
    let mut k: u32 = 1;
    proof {
        assert(layouts_view(ls@) =~= layouts_upto(pv, 0));
    }
    while k <= 10
        invariant
            1 <= k <= 11,
            pv.len() == parsed@.len(),
            forall|j: int| 0 <= j < parsed@.len() ==> #[trigger] pv[j] == match parsed@[j] {
                Some(v) => Some(v@),
                None => None::<Seq<XmlNode>>,
            },
            layouts_view(ls@) == layouts_upto(pv, k - 1),
        decreases 11 - k,
    {
        let i = (k - 1) as usize;
        let ghost before = layouts_view(ls@);
        if i < parsed.len() && parsed[i].is_some() {
            match &parsed[i] {
                Some(nodes) => {
                    let l = layout_from_nodes(k, nodes.as_slice());
                    ls.push(l);
                },
                None => {},
            }
            proof {
                assert(layouts_view(ls@) =~= before.push(spec_parsed_layout(k, pv[i as int]->0)));
            }
        } else if k <= 3 {
            let kind = if k == 1 {
                PageType::FrontCover
            } else if k == 2 {
                PageType::Content
            } else {
                PageType::BackCover
            };
            ls.push(TemplateLayout { layout_index: k, page_type: kind, fixed_regions: Vec::new() });
            proof {
                assert(layouts_view(ls@) =~= before.push((k, default_kind(k as int), seq![])));
            }
        }
        k = k + 1;
    }
    let has_front = has_kind(&ls, PageType::FrontCover);
    let has_content = has_kind(&ls, PageType::Content);
    let has_back = has_kind(&ls, PageType::BackCover);
    if !has_front && ls.len() >= 1 {
        set_page_type(&mut ls, 0, PageType::FrontCover);
    }
    if !has_content && ls.len() >= 2 {
        set_page_type(&mut ls, 1, PageType::Content);
    }
    if !has_back && ls.len() >= 3 {
        set_page_type(&mut ls, 2, PageType::BackCover);
    }
    ls
}

/// The parsed part `p` agrees with what `roxmltree` makes of the text
/// `t`, if any.
pub open spec fn parsed_from(t: Option<String>, p: Option<Seq<XmlNode>>) -> bool {
    match t {
        Some(x) => match spec_xml_nodes(x@) {
            Some(v) => p is Some && nodes_view(p->0) == v,
            None => p is None,
        },
        None => p is None,
    }
}

/// The layouts of a template from the texts of its layout parts 1 to 10
/// (none where a part could not be read).
pub fn analyze_layouts(texts: &[Option<String>]) -> (r: Vec<TemplateLayout>)
    ensures
        exists|parsed: Seq<Option<Seq<XmlNode>>>|
            parsed.len() == texts@.len() && (forall|j: int| 0 <= j < texts@.len() ==> parsed_from(texts@[j], #[trigger] parsed[j]))
                && layouts_view(r@) == spec_layouts(parsed),
{
    let mut parsed: Vec<Option<Vec<XmlNode>>> = Vec::new();
    let mut i: usize = 0;
    while i < texts.len()
        invariant
            0 <= i <= texts@.len(),
            parsed@.len() == i,
            forall|j: int| 0 <= j < i ==> parsed_from(texts@[j], match #[trigger] parsed@[j] {
                Some(v) => Some(v@),
                None => None,
            }),
        decreases texts@.len() - i,
    {
        let p = match &texts[i] {
            Some(t) => match parse_xml_nodes(t.as_str()) {
                Ok(nodes) => Some(nodes),
                Err(_) => None,
            },
            None => None,
        };
        parsed.push(p);
        i = i + 1;
    }
    let r = layouts_from_parsed(parsed.as_slice());
    proof {
        let pv = parsed@.map_values(|o: Option<Vec<XmlNode>>| match o {
            Some(v) => Some(v@),
            None => None,
        });
        assert forall|j: int| 0 <= j < texts@.len() implies parsed_from(texts@[j], #[trigger] pv[j]) by {
            assert(pv[j] == match parsed@[j] {
                Some(v) => Some(v@),
                None => None::<Seq<XmlNode>>,
            });
        }
    }
    r
}

} // verus!
