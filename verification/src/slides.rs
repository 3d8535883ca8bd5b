//! What a presentation package says of its slides: how many slide parts it
//! holds, and a rough kind of layout for each slide from its shapes.
use vstd::prelude::*;
use crate::page_files::{ends_with, has_suffix, starts_with};
use crate::text::has_prefix;
use crate::xml::{has_tag, has_tag_name, is_child, subtree_end, subtree_end_of, XmlNode};

verus! {

pub const SLIDE_PART_PREFIX: &'static str = "ppt/slides/slide";
pub const SLIDE_PART_SUFFIX: &'static str = ".xml";

/// A slide part of a package: a name under `ppt/slides/slide` ending
/// `.xml`.
pub open spec fn is_slide_part(name: Seq<char>) -> bool {
    has_prefix(name, SLIDE_PART_PREFIX@) && has_suffix(name, SLIDE_PART_SUFFIX@)
}

/// The number of slide parts among the first `n` names.
pub open spec fn slide_parts_upto(names: Seq<Seq<char>>, n: int) -> nat
    decreases n,
{
    if n <= 0 {
        0
    } else {
        slide_parts_upto(names, n - 1) + if is_slide_part(names[n - 1]) {
            1nat
        } else {
            0nat
        }
    }
}

proof fn lemma_slide_parts_bounded(names: Seq<Seq<char>>, n: int)
    requires
        0 <= n,
    ensures
        slide_parts_upto(names, n) <= n,
    decreases n,
{
    if n > 0 {
        lemma_slide_parts_bounded(names, n - 1);
    }
}

/// Counts the slide parts among the entry names of a package.
pub fn count_slide_parts(names: &[String]) -> (r: usize)
    ensures
        r == slide_parts_upto(names@.map_values(|s: String| s@), names@.len() as int),
{
    let ghost all = names@.map_values(|s: String| s@);
    let mut count: usize = 0;
    let mut i: usize = 0;
    while i < names.len()
        invariant
            0 <= i <= names@.len(),
            all == names@.map_values(|s: String| s@),
            count == slide_parts_upto(all, i as int),
        decreases names@.len() - i,
    {
        proof {
            lemma_slide_parts_bounded(all, i as int);
            assert(all[i as int] == names@[i as int]@);
        }
        if starts_with(names[i].as_str(), SLIDE_PART_PREFIX) && ends_with(names[i].as_str(), SLIDE_PART_SUFFIX) {
            count = count + 1;
        }
        i = i + 1;
    }
    count
}

/// Some child of node `s` among nodes `j..end` is tagged `tag`.
pub open spec fn child_tagged_from(nodes: Seq<XmlNode>, s: int, j: int, end: int, tag: Seq<char>) -> bool
    decreases end - j,
{
    if j < 0 || j >= end || j >= nodes.len() {
        false
    } else {
        (is_child(nodes, s, j) && has_tag(nodes[j], tag)) || child_tagged_from(nodes, s, j + 1, end, tag)
    }
}

/// Node `s` has a child tagged `tag`.
pub open spec fn has_child_tagged(nodes: Seq<XmlNode>, s: int, tag: Seq<char>) -> bool {
    child_tagged_from(nodes, s, s + 1, subtree_end(nodes, s, s + 1), tag)
}

/// A shape or a picture.
pub open spec fn is_drawing(n: XmlNode) -> bool {
    has_tag(n, "p:sp"@) || has_tag(n, "p:pic"@)
}

/// The entries that node `i` adds to a slide's list of shape kinds: one
/// for a drawing with non-visual shape properties, one more for a picture.
pub open spec fn entries_at(nodes: Seq<XmlNode>, i: int) -> nat {
    if is_drawing(nodes[i]) {
        (if has_child_tagged(nodes, i, "p:nvSpPr"@) {
            1nat
        } else {
            0nat
        }) + if has_tag(nodes[i], "p:pic"@) {
            1nat
        } else {
            0nat
        }
    } else {
        0
    }
}

/// The entries of the first `n` nodes.
pub open spec fn entries_upto(nodes: Seq<XmlNode>, n: int) -> nat
    decreases n,
{
    if n <= 0 {
        0
    } else {
        entries_upto(nodes, n - 1) + entries_at(nodes, n - 1)
    }
}

/// Some node among the first `n` is a picture.
pub open spec fn picture_upto(nodes: Seq<XmlNode>, n: int) -> bool
    decreases n,
{
    if n <= 0 {
        false
    } else {
        picture_upto(nodes, n - 1) || has_tag(nodes[n - 1], "p:pic"@)
    }
}

pub const MIXED_LAYOUT: &'static str = "图文混排";
pub const BUSY_LAYOUT: &'static str = "多元素布局";
pub const MEDIUM_LAYOUT: &'static str = "中等布局";
pub const PLAIN_LAYOUT: &'static str = "简洁布局";

/// The kind of a slide's layout: with a picture, mixed; else by the number
/// of shape entries, busy above 5, medium above 2, plain otherwise.
pub open spec fn spec_slide_layout_kind(nodes: Seq<XmlNode>) -> Seq<char> {
    if picture_upto(nodes, nodes.len() as int) {
        MIXED_LAYOUT@
    } else if entries_upto(nodes, nodes.len() as int) > 5 {
        BUSY_LAYOUT@
    } else if entries_upto(nodes, nodes.len() as int) > 2 {
        MEDIUM_LAYOUT@
    } else {
        PLAIN_LAYOUT@
    }
}

fn has_child_tagged_exec(nodes: &[XmlNode], s: usize, tag: &str) -> (r: bool)
    requires
        s < nodes@.len(),
    ensures
        r == has_child_tagged(nodes@, s as int, tag@),
{
    let end = subtree_end_of(nodes, s);
    let mut j = s + 1;
    while j < end
        invariant
            s < j <= end <= nodes@.len(),
            end == subtree_end(nodes@, s as int, s + 1),
            has_child_tagged(nodes@, s as int, tag@) == child_tagged_from(nodes@, s as int, j as int, end as int, tag@),
        decreases end - j,
    {
        if nodes[j].depth == nodes[s].depth + 1 && has_tag_name(&nodes[j], tag) {
            return true;
        }
        j = j + 1;
    }
    false
}

/// The kind of a slide's layout, from its parsed part (counting shape
/// entries only as far as the kinds tell apart).
pub fn slide_layout_kind(nodes: &[XmlNode]) -> (r: &'static str)
    ensures
        r@ == spec_slide_layout_kind(nodes@),
{
    let mut entries: usize = 0;
    let mut picture = false;
    let mut i: usize = 0;
    while i < nodes.len()
        invariant
            0 <= i <= nodes@.len(),
            entries == if entries_upto(nodes@, i as int) < 6 { entries_upto(nodes@, i as int) } else { 6 },
            picture == picture_upto(nodes@, i as int),
        decreases nodes@.len() - i,
    {
        let is_pic = has_tag_name(&nodes[i], "p:pic");
        if has_tag_name(&nodes[i], "p:sp") || is_pic {
            if has_child_tagged_exec(nodes, i, "p:nvSpPr") && entries < 6 {
                entries = entries + 1;
            }
            if is_pic && entries < 6 {
                entries = entries + 1;
            }
        }
        if is_pic {
            picture = true;
        }
        i = i + 1;
    }
    if picture {
        MIXED_LAYOUT
    } else if entries > 5 {
        BUSY_LAYOUT
    } else if entries > 2 {
        MEDIUM_LAYOUT
    } else {
        PLAIN_LAYOUT
    }
}

} // verus!
