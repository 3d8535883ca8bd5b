//! Reading the color scheme of a presentation theme: the names of the
//! scheme's color slots, and the color a slot holds.
use vstd::prelude::*;
use crate::text::{ascii_upper, is_ascii_text, owned, str_eq};
use crate::xml::{attr, attribute, has_tag, has_tag_name, is_child, parse_xml_nodes, spec_xml_nodes, nodes_view, subtree_end, subtree_end_of, XmlNode};

verus! {

/// A theme's color scheme: its name and `(slot name, #RRGGBB)` pairs, each
/// slot named once.
#[derive(Clone, Debug)]
pub struct ColorScheme {
    pub name: String,
    pub colors: Vec<(String, String)>,
}

pub const BLACK: &'static str = "#000000";
pub const WHITE: &'static str = "#FFFFFF";

/// The color of a system color name: white for the window, black for
/// window text and for any other name.
pub open spec fn spec_system_color(name: Seq<char>) -> Seq<char> {
    if name == "window"@ || name == "Window"@ {
        WHITE@
    } else {
        BLACK@
    }
}

pub fn system_color_to_hex(name: &str) -> (r: String)
    ensures
        r@ == spec_system_color(name@),
{
    proof {
        reveal_strlit("windowText");
        reveal_strlit("WindowText");
        reveal_strlit("window");
        reveal_strlit("Window");
        assert("windowText"@.len() != "window"@.len());
        assert("windowText"@.len() != "Window"@.len());
        assert("WindowText"@.len() != "window"@.len());
        assert("WindowText"@.len() != "Window"@.len());
    }
    if str_eq(name, "windowText") || str_eq(name, "WindowText") {
        owned(BLACK)
    } else if str_eq(name, "window") || str_eq(name, "Window") {
        owned(WHITE)
    } else {
        owned(BLACK)
    }
}

/// The display name of a scheme slot, by its tag.
pub open spec fn spec_slot_name(tag: Seq<char>) -> Option<Seq<char>> {
    if tag == "a:dk1"@ {
        Some("深色1"@)
    } else if tag == "a:lt1"@ {
        Some("浅色1"@)
    } else if tag == "a:dk2"@ {
        Some("深色2"@)
    } else if tag == "a:lt2"@ {
        Some("浅色2"@)
    } else if tag == "a:accent1"@ {
        Some("强调色1"@)
    } else if tag == "a:accent2"@ {
        Some("强调色2"@)
    } else if tag == "a:accent3"@ {
        Some("强调色3"@)
    } else if tag == "a:accent4"@ {
        Some("强调色4"@)
    } else if tag == "a:accent5"@ {
        Some("强调色5"@)
    } else if tag == "a:accent6"@ {
        Some("强调色6"@)
    } else if tag == "a:hlink"@ {
        Some("超链接"@)
    } else if tag == "a:folHlink"@ {
        Some("访问过的链接"@)
    } else {
        None
    }
}

/// The display name of a scheme slot; none for a tag that is no slot.
pub fn color_slot_name(tag: &str) -> (r: Option<&'static str>)
    ensures
        match r {
            Some(s) => spec_slot_name(tag@) == Some(s@),
            None => spec_slot_name(tag@) is None,
        },
{
    if str_eq(tag, "a:dk1") {
        Some("深色1")
    } else if str_eq(tag, "a:lt1") {
        Some("浅色1")
    } else if str_eq(tag, "a:dk2") {
        Some("深色2")
    } else if str_eq(tag, "a:lt2") {
        Some("浅色2")
    } else if str_eq(tag, "a:accent1") {
        Some("强调色1")
    } else if str_eq(tag, "a:accent2") {
        Some("强调色2")
    } else if str_eq(tag, "a:accent3") {
        Some("强调色3")
    } else if str_eq(tag, "a:accent4") {
        Some("强调色4")
    } else if str_eq(tag, "a:accent5") {
        Some("强调色5")
    } else if str_eq(tag, "a:accent6") {
        Some("强调色6")
    } else if str_eq(tag, "a:hlink") {
        Some("超链接")
    } else if str_eq(tag, "a:folHlink") {
        Some("访问过的链接")
    } else {
        None
    }
}

/// What `str::to_uppercase` returns for a string (Unicode case mapping).
pub uninterp spec fn spec_to_uppercase(s: Seq<char>) -> Seq<char>;

/// Upper-cases a string with `str::to_uppercase`. The Unicode case mapping
/// is not written out here: the result is only named, except on ASCII text,
/// where it makes the small letters `a`-`z` capital and keeps every other
/// character.
#[verifier::external_body]
pub(crate) fn to_uppercase(s: &str) -> (r: String)
    ensures
        r@ == spec_to_uppercase(s@),
        is_ascii_text(s@) ==> r@ == ascii_upper(s@),
{
    s.to_uppercase()
}

/// Reading the children of node `c` from index `j`: the color of the first
/// child that gives one. An RGB color `a:srgbClr` gives `#` and its `val`
/// upper-cased; a system color `a:sysClr` gives `#` and its `lastClr`
/// upper-cased, or else the color of its `val`.
pub open spec fn color_from(nodes: Seq<XmlNode>, c: int, j: int) -> Option<Seq<char>>
    decreases nodes.len() - j,
{
    if j < 0 || j >= subtree_end(nodes, c, c + 1) || j >= nodes.len() {
        None
    } else if !is_child(nodes, c, j) {
        color_from(nodes, c, j + 1)
    } else {
        let n = nodes[j];
        if n.name@ == "a:srgbClr"@ && attr(n, "val"@) is Some {
            Some("#"@ + spec_to_uppercase(attr(n, "val"@)->0))
        } else if n.name@ == "a:sysClr"@ && attr(n, "lastClr"@) is Some {
            Some("#"@ + spec_to_uppercase(attr(n, "lastClr"@)->0))
        } else if n.name@ == "a:sysClr"@ && attr(n, "val"@) is Some {
            Some(spec_system_color(attr(n, "val"@)->0))
        } else {
            color_from(nodes, c, j + 1)
        }
    }
}

fn hash_upper(s: &str) -> (r: String)
    ensures
        r@ == "#"@ + spec_to_uppercase(s@),
{
    let mut r = owned("#");
    let u = to_uppercase(s);
    r.append(u.as_str());
    r
}

/// The color that the scheme slot at node `c` holds, if any child gives one.
pub fn extract_color_value(nodes: &[XmlNode], c: usize) -> (r: Option<String>)
    requires
        c < nodes@.len(),
    ensures
        match r {
            Some(s) => color_from(nodes@, c as int, c + 1) == Some(s@),
            None => color_from(nodes@, c as int, c + 1) is None,
        },
{
    let end = subtree_end_of(nodes, c);
    let mut j = c + 1;
    while j < end
        invariant
            c < j <= end <= nodes@.len(),
            end == subtree_end(nodes@, c as int, c + 1),
            color_from(nodes@, c as int, c + 1) == color_from(nodes@, c as int, j as int),
        decreases end - j,
    {
        let n = &nodes[j];
        proof {
            reveal_strlit("a:srgbClr");
            reveal_strlit("a:sysClr");
            assert("a:srgbClr"@.len() != "a:sysClr"@.len());
        }
        if n.depth == nodes[c].depth + 1 {
            if str_eq(n.name.as_str(), "a:srgbClr") {
                match attribute(n, "val") {
                    Some(v) => {
                        return Some(hash_upper(v.as_str()));
                    },
                    None => {},
                }
            } else if str_eq(n.name.as_str(), "a:sysClr") {
                match attribute(n, "lastClr") {
                    Some(l) => {
                        return Some(hash_upper(l.as_str()));
                    },
                    None => {},
                }
                match attribute(n, "val") {
                    Some(v) => {
                        return Some(system_color_to_hex(v.as_str()));
                    },
                    None => {},
                }
            }
        }
        j = j + 1;
    }
    None
}

/// The first index from `k` of a color scheme node `a:clrScheme`, or the
/// end of the list.
pub open spec fn scheme_index(nodes: Seq<XmlNode>, k: int) -> int
    decreases nodes.len() - k,
{
    if k < 0 || k >= nodes.len() {
        nodes.len() as int
    } else if has_tag(nodes[k], "a:clrScheme"@) {
        k
    } else {
        scheme_index(nodes, k + 1)
    }
}

/// The position of key `k` in a list of pairs, or its length.
pub open spec fn key_index(ps: Seq<(Seq<char>, Seq<char>)>, k: Seq<char>, i: int) -> int
    decreases ps.len() - i,
{
    if i < 0 || i >= ps.len() {
        ps.len() as int
    } else if ps[i].0 == k {
        i
    } else {
        key_index(ps, k, i + 1)
    }
}

/// Sets key `k` to `v` in a list of pairs: in place when present, at the
/// end otherwise (`HashMap::insert` on the pairs as a map).
pub open spec fn pairs_insert(ps: Seq<(Seq<char>, Seq<char>)>, k: Seq<char>, v: Seq<char>) -> Seq<(Seq<char>, Seq<char>)> {
    let i = key_index(ps, k, 0);
    if i < ps.len() {
        ps.update(i, (k, v))
    } else {
        ps.push((k, v))
    }
}

pub open spec fn pairs_view(v: Seq<(String, String)>) -> Seq<(Seq<char>, Seq<char>)> {
    v.map_values(|p: (String, String)| (p.0@, p.1@))
}

/// The colors of the scheme at node `s`, from its children `j..` onto
/// `acc`: each child that is a slot and holds a color sets its slot.
pub open spec fn scheme_colors(nodes: Seq<XmlNode>, s: int, j: int, acc: Seq<(Seq<char>, Seq<char>)>) -> Seq<(Seq<char>, Seq<char>)>
    decreases nodes.len() - j,
{
    if j < 0 || j >= subtree_end(nodes, s, s + 1) || j >= nodes.len() {
        acc
    } else {
        let acc2 = if is_child(nodes, s, j) && spec_slot_name(nodes[j].name@) is Some && color_from(nodes, j, j + 1) is Some {
            pairs_insert(acc, spec_slot_name(nodes[j].name@)->0, color_from(nodes, j, j + 1)->0)
        } else {
            acc
        };
        scheme_colors(nodes, s, j + 1, acc2)
    }
}

pub const UNKNOWN_SCHEME: &'static str = "Unknown";

/// The scheme of a theme: the name and slot colors of its first
/// `a:clrScheme` node; `Unknown` and no colors without one.
pub open spec fn spec_scheme(nodes: Seq<XmlNode>) -> (Seq<char>, Seq<(Seq<char>, Seq<char>)>) {
    let s = scheme_index(nodes, 0);
    if s < nodes.len() {
        (
            match attr(nodes[s], "name"@) {
                Some(n) => n,
                None => UNKNOWN_SCHEME@,
            },
            scheme_colors(nodes, s, s + 1, seq![]),
        )
    } else {
        (UNKNOWN_SCHEME@, seq![])
    }
}

fn insert_pair(ps: &mut Vec<(String, String)>, k: String, v: String)
    ensures
        pairs_view(final(ps)@) == pairs_insert(pairs_view(old(ps)@), k@, v@),
{
    let ghost pv = pairs_view(ps@);
    let mut i: usize = 0;
    while i < ps.len()
        invariant
            0 <= i <= ps@.len(),
            pv == pairs_view(ps@),
            ps@ == old(ps)@,
            key_index(pv, k@, 0) == key_index(pv, k@, i as int),
        decreases ps@.len() - i,
    {
        if str_eq(ps[i].0.as_str(), k.as_str()) {
            let ghost before = ps@;
            ps.set(i, (k, v));
            proof {
                assert(pairs_view(ps@) =~= pv.update(i as int, (k@, v@)));
            }
            return;
        }
        i = i + 1;
    }
    let ghost before = ps@;
    ps.push((k, v));
    proof {
        assert(pairs_view(ps@) =~= pv.push((k@, v@)));
    }
}

/// The color scheme of a parsed theme.
pub fn color_scheme_from_nodes(nodes: &[XmlNode]) -> (r: ColorScheme)
    ensures
        (r.name@, pairs_view(r.colors@)) == spec_scheme(nodes@),
{
    let mut k: usize = 0;
    while k < nodes.len()
        invariant
            0 <= k <= nodes@.len(),
            scheme_index(nodes@, 0) == scheme_index(nodes@, k as int),
        decreases nodes@.len() - k,
    {
        if has_tag_name(&nodes[k], "a:clrScheme") {
            let name = match attribute(&nodes[k], "name") {
                Some(n) => owned(n.as_str()),
                None => owned(UNKNOWN_SCHEME),
            };
            let end = subtree_end_of(nodes, k);
            let mut colors: Vec<(String, String)> = Vec::new();
            let mut j = k + 1;
            proof {
                assert(pairs_view(colors@) =~= Seq::<(Seq<char>, Seq<char>)>::empty());
            }
            while j < end
                invariant
                    k < j <= end <= nodes@.len(),
                    end == subtree_end(nodes@, k as int, k + 1),
                    scheme_colors(nodes@, k as int, k + 1, seq![]) == scheme_colors(nodes@, k as int, j as int, pairs_view(colors@)),
                decreases end - j,
            {
                if nodes[j].depth == nodes[k].depth + 1 {
                    match color_slot_name(nodes[j].name.as_str()) {
                        Some(slot) => {
                            match extract_color_value(nodes, j) {
                                Some(hex) => {
                                    insert_pair(&mut colors, owned(slot), hex);
                                },
                                None => {},
                            }
                        },
                        None => {},
                    }
                }
                j = j + 1;
            }
            return ColorScheme { name, colors };
        }
        k = k + 1;
    }
    let colors: Vec<(String, String)> = Vec::new();
    proof {
        assert(pairs_view(colors@) =~= Seq::<(Seq<char>, Seq<char>)>::empty());
    }
    ColorScheme { name: owned(UNKNOWN_SCHEME), colors }
}

pub const THEME_PARSE_ERROR: &'static str = "解析主题XML失败: ";

/// The color scheme of a theme's XML text; an error, starting with
/// `解析主题XML失败: ` and followed by the parser's message, when the text
/// does not parse.
pub fn color_scheme_from_theme_xml(theme_content: &str) -> (r: Result<ColorScheme, String>)
    ensures
        match spec_xml_nodes(theme_content@) {
            Some(v) => r matches Ok(s) && exists|nodes: Seq<XmlNode>| nodes_view(nodes) == v && (s.name@, pairs_view(s.colors@))
                == spec_scheme(nodes),
            None => r matches Err(e) && e@.len() >= THEME_PARSE_ERROR@.len() && e@.take(THEME_PARSE_ERROR@.len() as int) == THEME_PARSE_ERROR@,
        },
{
    match parse_xml_nodes(theme_content) {
        Ok(nodes) => {
            let s = color_scheme_from_nodes(nodes.as_slice());
            Ok(s)
        },
        Err(e) => {
            let mut m = owned(THEME_PARSE_ERROR);
            m.append(e.as_str());
            proof {
                assert(m@.take(THEME_PARSE_ERROR@.len() as int) =~= THEME_PARSE_ERROR@);
            }
            Err(m)
        },
    }
}

} // verus!
