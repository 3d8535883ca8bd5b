//! Reading a style guide from its Markdown description: `## ` sections with
//! paragraph text, `- ` / `* ` lists, and a colour list under `## 配色`.
use vstd::prelude::*;
use crate::style_guide::{is_default_guide, StyleGuide};
use crate::text::{
    chars_of, find_char, first_index_of, has_prefix, lemma_first_index_of, lemma_line_end, line_end,
    line_text_end, line_text_end_exec, next_line_end, owned, push_char, starts_with_at, range_equals,
    substring, trim, trim_bounds, views,
};

verus! {

/// Trimmed text of the line that starts at `lo`.
pub open spec fn line_at(s: Seq<char>, lo: int) -> Seq<char> {
    trim(s.subrange(lo, line_text_end(s, lo, line_end(s, lo))))
}

/// Walks the lines from `lo`: after the line equal to `header`, the
/// nonempty trimmed lines up to the next line starting with `#` are joined
/// with single spaces onto `acc`.
pub open spec fn section_text_from(s: Seq<char>, lo: int, header: Seq<char>, in_sec: bool, acc: Seq<char>) -> Seq<char>
    decreases s.len() - lo,
{
    if lo < 0 || lo >= s.len() {
        acc
    } else {
        let t = line_at(s, lo);
        let end = line_end(s, lo);
        proof {
            lemma_line_end(s, lo);
        }
        if t == header {
            if end < s.len() {
                section_text_from(s, end + 1, header, true, acc)
            } else {
                acc
            }
        } else if in_sec && has_prefix(t, "#"@) {
            acc
        } else {
            let acc2 = if in_sec && t.len() > 0 {
                if acc.len() > 0 {
                    acc + " "@ + t
                } else {
                    t
                }
            } else {
                acc
            };
            if end < s.len() {
                section_text_from(s, end + 1, header, in_sec, acc2)
            } else {
                acc2
            }
        }
    }
}

/// The text of the section `## {name}`.
pub open spec fn spec_section_content(content: Seq<char>, name: Seq<char>) -> Seq<char> {
    section_text_from(content, 0, "## "@ + name, false, seq![])
}

/// Walks the lines from `lo`: after the line equal to `header`, each line
/// starting with `- ` or `* ` up to the next line starting with `#` adds its
/// text after the marker to `acc`.
pub open spec fn list_items_from(
    s: Seq<char>,
    lo: int,
    header: Seq<char>,
    in_sec: bool,
    acc: Seq<Seq<char>>,
) -> Seq<Seq<char>>
    decreases s.len() - lo,
{
    if lo < 0 || lo >= s.len() {
        acc
    } else {
        let t = line_at(s, lo);
        let end = line_end(s, lo);
        proof {
            lemma_line_end(s, lo);
        }
        if t == header {
            if end < s.len() {
                list_items_from(s, end + 1, header, true, acc)
            } else {
                acc
            }
        } else if in_sec && has_prefix(t, "#"@) {
            acc
        } else {
            let acc2 = if in_sec && (has_prefix(t, "- "@) || has_prefix(t, "* "@)) {
                acc.push(t.skip(2))
            } else {
                acc
            };
            if end < s.len() {
                list_items_from(s, end + 1, header, in_sec, acc2)
            } else {
                acc2
            }
        }
    }
}

/// The items of the list section `## {name}`.
pub open spec fn spec_list_section(content: Seq<char>, name: Seq<char>) -> Seq<Seq<char>> {
    list_items_from(content, 0, "## "@ + name, false, seq![])
}

/// Number of trailing `c` characters.
pub open spec fn trailing_count(s: Seq<char>, c: char) -> nat
    decreases s.len(),
{
    if s.len() > 0 && s.last() == c {
        1 + trailing_count(s.drop_last(), c)
    } else {
        0
    }
}

/// `s` without its trailing `c` characters (`trim_end_matches`).
pub open spec fn strip_trailing(s: Seq<char>, c: char) -> Seq<char> {
    s.take(s.len() - trailing_count(s, c))
}

/// The colour entry of a trimmed list line `- name (#code)`: the name (before
/// the parenthesis, trimmed, without trailing `:`), a space, and the code;
/// none unless the parentheses close after they open and the code starts
/// with `#`.
pub open spec fn color_entry(t: Seq<char>) -> Option<Seq<char>> {
    let p = first_index_of(t, '(');
    let e = first_index_of(t, ')');
    if has_prefix(t, "- "@) && p < t.len() && e < t.len() && e > p {
        let name = trim(strip_trailing(trim(t.subrange(2, p)), ':'));
        let code = trim(t.subrange(p + 1, e));
        if has_prefix(code, "#"@) {
            Some(name + " "@ + code)
        } else {
            None
        }
    } else {
        None
    }
}

pub const COLORS_HEADER: &'static str = "## 配色";

/// Walks the lines from `lo`, collecting the colour entries of the section
/// `## 配色` up to the next line starting with `#`.
pub open spec fn colors_from(s: Seq<char>, lo: int, in_sec: bool, acc: Seq<Seq<char>>) -> Seq<Seq<char>>
    decreases s.len() - lo,
{
    if lo < 0 || lo >= s.len() {
        acc
    } else {
        let t = line_at(s, lo);
        let end = line_end(s, lo);
        proof {
            lemma_line_end(s, lo);
        }
        if t == COLORS_HEADER@ {
            if end < s.len() {
                colors_from(s, end + 1, true, acc)
            } else {
                acc
            }
        } else if in_sec && has_prefix(t, "#"@) {
            acc
        } else {
            let acc2 = if in_sec {
                match color_entry(t) {
                    Some(e) => acc.push(e),
                    None => acc,
                }
            } else {
                acc
            };
            if end < s.len() {
                colors_from(s, end + 1, in_sec, acc2)
            } else {
                acc2
            }
        }
    }
}

/// The colour entries of the `## 配色` section.
pub open spec fn spec_colors(content: Seq<char>) -> Seq<Seq<char>> {
    colors_from(content, 0, false, seq![])
}

/// `## ` followed by the name, as characters.
fn section_header(name: &str) -> (r: Vec<char>)
    ensures
        r@ == "## "@ + name@,
{
    let mut h = chars_of("## ");
    let mut n = chars_of(name);
    h.append(&mut n);
    h
}

/// Bounds of the trimmed text of the line at `pos`, and the end of the line.
fn line_bounds(s: &[char], pos: usize) -> (r: (usize, usize, usize))
    requires
        pos < s@.len(),
    ensures
        r.2 == line_end(s@, pos as int),
        pos <= r.0 <= r.1 <= r.2 <= s@.len(),
        s@.subrange(r.0 as int, r.1 as int) == line_at(s@, pos as int),
{
    let end = next_line_end(s, pos);
    let te = line_text_end_exec(s, pos, end);
    let (a, b) = trim_bounds(s, pos, te);
    (a, b, end)
}

/// The paragraph text of the section `## {section_name}`.
pub fn extract_section_content(content: &str, section_name: &str) -> (r: String)
    ensures
        r@ == spec_section_content(content@, section_name@),
{
    let s = chars_of(content);
    let header = section_header(section_name);
    let hash = chars_of("#");
    let n = s.len();
    let mut in_section = false;
    let mut result = String::new();
    let mut pos: usize = 0;
    while pos < n
        invariant
            n == s@.len(),
            s@ == content@,
            header@ == "## "@ + section_name@,
            hash@ == "#"@,
            0 <= pos <= n,
            spec_section_content(content@, section_name@) == section_text_from(s@, pos as int, header@, in_section, result@),
        decreases n - pos,
    {
        let ghost acc0 = result@;
        let ghost in0 = in_section;
        let ghost pos0 = pos as int;
        let (a, b, end) = line_bounds(s.as_slice(), pos);
        let ghost t = s@.subrange(a as int, b as int);
        proof {
            lemma_line_end(s@, pos as int);
            reveal_strlit(" ");
            reveal_strlit("#");
        }
        let mut next = if end < n { end + 1 } else { n };
        if range_equals(s.as_slice(), a, b, header.as_slice()) {
            in_section = true;
        } else if in_section && starts_with_at(s.as_slice(), a, b, hash.as_slice()) {
            next = n;
        } else {
            if in_section && b > a {
                if !result.as_str().is_empty() {
                    push_char(&mut result, ' ');
                }
                let piece = substring(s.as_slice(), a, b);
                result.append(piece.as_str());
            }
        }
        proof {
            let tt = line_at(s@, pos0);
            assert(tt == t);
            assert(" "@ =~= seq![' ']);
            if t == header@ {
                assert(section_text_from(s@, pos0, header@, in0, acc0) == section_text_from(s@, next as int, header@, in_section, result@));
            } else if in0 && has_prefix(t, "#"@) {
                assert(section_text_from(s@, pos0, header@, in0, acc0) == acc0);
                assert(section_text_from(s@, next as int, header@, in_section, result@) == acc0);
            } else {
                let acc2 = if in0 && t.len() > 0 {
                    if acc0.len() > 0 {
                        acc0 + " "@ + t
                    } else {
                        t
                    }
                } else {
                    acc0
                };
                assert(result@ =~= acc2);
                assert(section_text_from(s@, pos0, header@, in0, acc0) == section_text_from(s@, next as int, header@, in_section, result@));
            }
        }
        pos = next;
    }
    result
}

/// Whether the trimmed line `s[a..b]` starts with a list marker.
fn is_list_line(s: &[char], a: usize, b: usize, dash: &Vec<char>, star: &Vec<char>) -> (r: bool)
    requires
        a <= b <= s@.len(),
        dash@ == "- "@,
        star@ == "* "@,
    ensures
        r == (has_prefix(s@.subrange(a as int, b as int), "- "@) || has_prefix(s@.subrange(a as int, b as int), "* "@)),
{
    starts_with_at(s, a, b, dash.as_slice()) || starts_with_at(s, a, b, star.as_slice())
}

/// The items of the list section `## {section_name}`; none when it has none.
pub fn extract_list_section(content: &str, section_name: &str) -> (r: Option<Vec<String>>)
    ensures
        match r {
            None => spec_list_section(content@, section_name@).len() == 0,
            Some(v) => spec_list_section(content@, section_name@).len() > 0 && views(v@) == spec_list_section(
                content@,
                section_name@,
            ),
        },
{
    let s = chars_of(content);
    let header = section_header(section_name);
    let hash = chars_of("#");
    let dash = chars_of("- ");
    let star = chars_of("* ");
    let n = s.len();
    let mut in_section = false;
    let mut result: Vec<String> = Vec::new();
    proof {
        assert(views(result@) =~= Seq::<Seq<char>>::empty());
    }
    let mut pos: usize = 0;
    while pos < n
        invariant
            n == s@.len(),
            s@ == content@,
            header@ == "## "@ + section_name@,
            hash@ == "#"@,
            dash@ == "- "@,
            star@ == "* "@,
            0 <= pos <= n,
            spec_list_section(content@, section_name@) == list_items_from(s@, pos as int, header@, in_section, views(result@)),
        decreases n - pos,
    {
        let ghost acc0 = views(result@);
        let ghost in0 = in_section;
        let ghost pos0 = pos as int;
        let (a, b, end) = line_bounds(s.as_slice(), pos);
        let ghost t = s@.subrange(a as int, b as int);
        proof {
            lemma_line_end(s@, pos as int);
        }
        let mut next = if end < n { end + 1 } else { n };
        if range_equals(s.as_slice(), a, b, header.as_slice()) {
            in_section = true;
        } else if in_section && starts_with_at(s.as_slice(), a, b, hash.as_slice()) {
            next = n;
        } else if in_section && is_list_line(s.as_slice(), a, b, &dash, &star) {
            proof {
                reveal_strlit("- ");
                reveal_strlit("* ");
            }
            let item = substring(s.as_slice(), a + 2, b);
            crate::text::push_string(&mut result, item);
            proof {
                assert(t.skip(2) =~= s@.subrange(a + 2, b as int));
            }
        }
        proof {
            assert(line_at(s@, pos0) == t);
            if t == header@ {
            } else if in0 && has_prefix(t, "#"@) {
                assert(list_items_from(s@, next as int, header@, in_section, views(result@)) == acc0);
            }
            assert(list_items_from(s@, pos0, header@, in0, acc0) == list_items_from(s@, next as int, header@, in_section, views(result@)));
        }
        pos = next;
    }
    if result.len() == 0 {
        None
    } else {
        Some(result)
    }
}

pub proof fn lemma_trailing_exact(s: Seq<char>, c: char, n: int)
    requires
        0 <= n <= s.len(),
        forall|i: int| s.len() - n <= i < s.len() ==> #[trigger] s[i] == c,
        n < s.len() ==> s[s.len() - n - 1] != c,
    ensures
        trailing_count(s, c) == n,
    decreases n,
{
    if n > 0 {
        assert(s[s.len() - 1] == c);
        let t = s.drop_last();
        assert forall|i: int| t.len() - (n - 1) <= i < t.len() implies #[trigger] t[i] == c by {
            assert(t[i] == s[i]);
        }
        if n - 1 < t.len() {
            assert(t[t.len() - (n - 1) - 1] == s[s.len() - n - 1]);
        }
        lemma_trailing_exact(t, c, n - 1);
    }
}

/// End of `s[lo..hi]` once its trailing `c` characters are dropped.
fn strip_trailing_end(s: &[char], lo: usize, hi: usize, c: char) -> (r: usize)
    requires
        lo <= hi <= s@.len(),
    ensures
        lo <= r <= hi,
        s@.subrange(lo as int, r as int) == strip_trailing(s@.subrange(lo as int, hi as int), c),
{
    let mut b = hi;
    while b > lo && s[b - 1] == c
        invariant
            lo <= b <= hi,
            hi <= s@.len(),
            forall|i: int| b <= i < hi ==> #[trigger] s@[i] == c,
        decreases b - lo,
    {
        b = b - 1;
    }
    proof {
        let u = s@.subrange(lo as int, hi as int);
        assert forall|i: int| u.len() - (hi - b) <= i < u.len() implies #[trigger] u[i] == c by {
            assert(u[i] == s@[lo + i]);
        }
        if hi - b < u.len() {
            assert(u[u.len() - (hi - b) - 1] == s@[b - 1]);
        }
        lemma_trailing_exact(u, c, hi - b);
        assert(strip_trailing(u, c) =~= s@.subrange(lo as int, b as int));
    }
    b
}

/// The colour entry of the trimmed line `s[a..b]`, if it is one.
fn color_entry_exec(s: &[char], a: usize, b: usize, dash: &Vec<char>, hash: &Vec<char>) -> (r: Option<String>)
    requires
        a <= b <= s@.len(),
        dash@ == "- "@,
        hash@ == "#"@,
    ensures
        match r {
            Some(x) => color_entry(s@.subrange(a as int, b as int)) == Some(x@),
            None => color_entry(s@.subrange(a as int, b as int)) is None,
        },
{
    let ghost t = s@.subrange(a as int, b as int);
    if !starts_with_at(s, a, b, dash.as_slice()) {
        return None;
    }
    proof {
        reveal_strlit("- ");
        assert(t.take(2) == "- "@);
        assert(t.take(2)[0] == t[0] && t.take(2)[1] == t[1]);
        assert(t[0] == '-' && t[1] == ' ');
    }
    let p = find_char(s, a, b, '(');
    let e = find_char(s, a, b, ')');
    proof {
        assert(s@.subrange(a as int, b as int) == t);
        lemma_first_index_of(t, '(');
        lemma_first_index_of(t, ')');
    }
    if !(p < b && e < b && e > p) {
        return None;
    }
    proof {
        assert(p - a >= 2) by {
            if p - a < 2 {
                assert(t[p - a] == '(');
            }
        }
    }
    let (na, nb) = trim_bounds(s, a + 2, p);
    let nb2 = strip_trailing_end(s, na, nb, ':');
    let (xa, xb) = trim_bounds(s, na, nb2);
    let (ca, cb) = trim_bounds(s, p + 1, e);
    proof {
        assert(t.subrange(2, p - a) =~= s@.subrange(a + 2, p as int));
        assert(t.subrange(p - a + 1, e - a) =~= s@.subrange(p + 1, e as int));
    }
    if !starts_with_at(s, ca, cb, hash.as_slice()) {
        return None;
    }
    let mut entry = substring(s, xa, xb);
    push_char(&mut entry, ' ');
    let code = substring(s, ca, cb);
    entry.append(code.as_str());
    proof {
        reveal_strlit(" ");
        assert(entry@ =~= s@.subrange(xa as int, xb as int) + " "@ + s@.subrange(ca as int, cb as int));
    }
    Some(entry)
}

/// The colour entries of the `## 配色` section; none when it has none.
pub fn extract_colors_from_markdown(content: &str) -> (r: Option<Vec<String>>)
    ensures
        match r {
            None => spec_colors(content@).len() == 0,
            Some(v) => spec_colors(content@).len() > 0 && views(v@) == spec_colors(content@),
        },
{
    let s = chars_of(content);
    let header = chars_of(COLORS_HEADER);
    let hash = chars_of("#");
    let dash = chars_of("- ");
    let n = s.len();
    let mut in_section = false;
    let mut result: Vec<String> = Vec::new();
    proof {
        assert(views(result@) =~= Seq::<Seq<char>>::empty());
    }
    let mut pos: usize = 0;
    while pos < n
        invariant
            n == s@.len(),
            s@ == content@,
            header@ == COLORS_HEADER@,
            hash@ == "#"@,
            dash@ == "- "@,
            0 <= pos <= n,
            spec_colors(content@) == colors_from(s@, pos as int, in_section, views(result@)),
        decreases n - pos,
    {
        let ghost acc0 = views(result@);
        let ghost in0 = in_section;
        let ghost pos0 = pos as int;
        let (a, b, end) = line_bounds(s.as_slice(), pos);
        let ghost t = s@.subrange(a as int, b as int);
        proof {
            lemma_line_end(s@, pos as int);
        }
        let mut next = if end < n { end + 1 } else { n };
        if range_equals(s.as_slice(), a, b, header.as_slice()) {
            in_section = true;
        } else if in_section && starts_with_at(s.as_slice(), a, b, hash.as_slice()) {
            next = n;
        } else if in_section {
            match color_entry_exec(s.as_slice(), a, b, &dash, &hash) {
                Some(entry) => {
                    crate::text::push_string(&mut result, entry);
                },
                None => {},
            }
        }
        proof {
            assert(line_at(s@, pos0) == t);
            if t == COLORS_HEADER@ {
            } else if in0 && has_prefix(t, "#"@) {
                assert(colors_from(s@, next as int, in_section, views(result@)) == acc0);
            }
            assert(colors_from(s@, pos0, in0, acc0) == colors_from(s@, next as int, in_section, views(result@)));
        }
        pos = next;
    }
    if result.len() == 0 {
        None
    } else {
        Some(result)
    }
}

/// The colour named on a line: the text in the first parentheses when it
/// starts with `#`; otherwise the trimmed text between the first and second
/// `:` (or the end), when not empty.
pub open spec fn spec_color_from_line(l: Seq<char>) -> Option<Seq<char>> {
    let p = first_index_of(l, '(');
    let e = first_index_of(l, ')');
    if p < l.len() && e < l.len() && e > p && has_prefix(l.subrange(p + 1, e), "#"@) {
        Some(l.subrange(p + 1, e))
    } else {
        let c1 = first_index_of(l, ':');
        if c1 < l.len() {
            let rest = l.skip(c1 + 1);
            let name = trim(rest.take(first_index_of(rest, ':')));
            if name.len() > 0 {
                Some(name)
            } else {
                None
            }
        } else {
            None
        }
    }
}

pub fn extract_color_from_line(line: &str) -> (r: Option<String>)
    ensures
        match r {
            Some(x) => spec_color_from_line(line@) == Some(x@),
            None => spec_color_from_line(line@) is None,
        },
{
    let s = chars_of(line);
    let n = s.len();
    let hash = chars_of("#");
    let p = find_char(s.as_slice(), 0, n, '(');
    let e = find_char(s.as_slice(), 0, n, ')');
    proof {
        assert(s@.subrange(0, n as int) =~= s@);
    }
    if p < n && e < n && e > p {
        if starts_with_at(s.as_slice(), p + 1, e, hash.as_slice()) {
            return Some(substring(s.as_slice(), p + 1, e));
        }
    }
    let c1 = find_char(s.as_slice(), 0, n, ':');
    if c1 < n {
        let c2 = find_char(s.as_slice(), c1 + 1, n, ':');
        let (a, b) = trim_bounds(s.as_slice(), c1 + 1, c2);
        proof {
            let rest = s@.skip(c1 + 1);
            assert(s@.subrange(c1 + 1, n as int) =~= rest);
            assert(rest.take(c2 - (c1 + 1)) =~= s@.subrange(c1 + 1, c2 as int));
        }
        if b > a {
            return Some(substring(s.as_slice(), a, b));
        }
    }
    None
}

pub const SECTION_ANCHOR: &'static str = "风格锚点";
pub const SECTION_BACKGROUND: &'static str = "背景基调";
pub const SECTION_TITLE: &'static str = "标题样式";
pub const SECTION_CARD: &'static str = "卡片样式";
pub const SECTION_ICON: &'static str = "图标样式";
pub const SECTION_LINE: &'static str = "线条样式";
pub const SECTION_RULES: &'static str = "禁止规则";

/// The default guide with the parts that the Markdown gives.
pub open spec fn parsed_guide(g: StyleGuide, content: Seq<char>) -> bool {
    let d = g;
    &&& g.prompt_anchor@ == spec_section_content(content, SECTION_ANCHOR@)
    &&& g.style_core.background_tone@ == spec_section_content(content, SECTION_BACKGROUND@)
    &&& g.style_core.title_style@ == spec_section_content(content, SECTION_TITLE@)
    &&& g.style_core.card_style@ == spec_section_content(content, SECTION_CARD@)
    &&& g.style_core.icon_style@ == spec_section_content(content, SECTION_ICON@)
    &&& g.style_core.line_style@ == spec_section_content(content, SECTION_LINE@)
    &&& views(g.style_core.palette@) == if spec_colors(content).len() > 0 {
        spec_colors(content)
    } else {
        seq![crate::style_guide::DEFAULT_PALETTE_1@, crate::style_guide::DEFAULT_PALETTE_2@, crate::style_guide::DEFAULT_PALETTE_3@]
    }
    &&& views(g.negative_rules@) == if spec_list_section(content, SECTION_RULES@).len() > 0 {
        spec_list_section(content, SECTION_RULES@)
    } else {
        seq![crate::style_guide::NEGATIVE_1@, crate::style_guide::NEGATIVE_2@, crate::style_guide::NEGATIVE_3@]
    }
    &&& views(g.layout_families@) == crate::style_guide::family_keys()
    &&& views(g.element_primitives@) == seq![
        crate::style_guide::PRIMITIVE_1@,
        crate::style_guide::PRIMITIVE_2@,
        crate::style_guide::PRIMITIVE_3@,
        crate::style_guide::PRIMITIVE_4@,
        crate::style_guide::PRIMITIVE_5@,
    ]
    &&& g.variation_policy == (crate::style_guide::VariationPolicy {
        same_layout_max_repeat: 1,
        min_distinct_layout_families: 3,
        allow_local_recomposition: true,
    })
    &&& g.adherence_level == crate::style_guide::AdherenceLevel::Balanced
}

/// Reads a style guide from Markdown: the default guide, with the anchor,
/// background, title, card, icon and line styles taken from their sections,
/// and the palette and rules replaced when their sections list any.
pub fn parse_style_guide_from_markdown(content: &str) -> (guide: StyleGuide)
    ensures
        parsed_guide(guide, content@),
{
    let mut guide = StyleGuide::default();
    guide.prompt_anchor = extract_section_content(content, SECTION_ANCHOR);
    match extract_colors_from_markdown(content) {
        Some(colors) => {
            guide.style_core.palette = colors;
        },
        None => {},
    }
    guide.style_core.background_tone = extract_section_content(content, SECTION_BACKGROUND);
    guide.style_core.title_style = extract_section_content(content, SECTION_TITLE);
    guide.style_core.card_style = extract_section_content(content, SECTION_CARD);
    guide.style_core.icon_style = extract_section_content(content, SECTION_ICON);
    guide.style_core.line_style = extract_section_content(content, SECTION_LINE);
    match extract_list_section(content, SECTION_RULES) {
        Some(rules) => {
            guide.negative_rules = rules;
        },
        None => {},
    }
    guide
}

/// `x` keeps the colour code of the trimmed line `t` of the form
/// `- name (#code)`: `t` starts with `- `, its first `(` comes before its
/// first `)`, the text between them, trimmed, starts with `#`, and `x` ends
/// with a space and that text, after the name: the text between `- ` and
/// the `(`, trimmed, without trailing `:`s.
pub open spec fn keeps_code_of(t: Seq<char>, x: Seq<char>) -> bool {
    let p = first_index_of(t, '(');
    let e = first_index_of(t, ')');
    let code = trim(t.subrange(p + 1, e));
    &&& has_prefix(t, "- "@)
    &&& p < e < t.len()
    &&& has_prefix(code, "#"@)
    &&& x.len() >= code.len() + 1
    &&& x.skip(x.len() - code.len() - 1) == " "@ + code
    &&& x.take(x.len() - code.len() - 1) == trim(strip_trailing(trim(t.subrange(2, p)), ':'))
}

/// `x` keeps the colour code of some line of `content`.
pub open spec fn from_color_line(content: Seq<char>, x: Seq<char>) -> bool {
    exists|lo: int| 0 <= lo < content.len() && #[trigger] keeps_code_of(line_at(content, lo), x)
}

/// A colour line `- name (#code)` gives an entry, and every entry a line
/// gives ends with a space and the line's code, the `#`-text between its
/// parentheses.
pub proof fn law_color_entry_keeps_code(t: Seq<char>)
    ensures
        color_entry(t) matches Some(x) ==> keeps_code_of(t, x),
        ({
            let p = first_index_of(t, '(');
            let e = first_index_of(t, ')');
            has_prefix(t, "- "@) && p < e < t.len() && has_prefix(trim(t.subrange(p + 1, e)), "#"@)
        }) ==> color_entry(t) is Some,
{
    reveal_strlit(" ");
    if color_entry(t) is Some {
        let p = first_index_of(t, '(');
        let e = first_index_of(t, ')');
        let name = trim(strip_trailing(trim(t.subrange(2, p)), ':'));
        let code = trim(t.subrange(p + 1, e));
        let x = name + " "@ + code;
        assert(color_entry(t) == Some(x));
        assert(x.skip(x.len() - code.len() - 1) =~= " "@ + code);
        assert(x.take(x.len() - code.len() - 1) =~= name);
    }
}

proof fn lemma_colors_keep_codes(s: Seq<char>, lo: int, in_sec: bool, acc: Seq<Seq<char>>)
    requires
        0 <= lo,
        forall|k: int| 0 <= k < acc.len() ==> from_color_line(s, #[trigger] acc[k]),
    ensures
        forall|k: int| 0 <= k < colors_from(s, lo, in_sec, acc).len() ==> from_color_line(s, #[trigger] colors_from(s, lo, in_sec, acc)[k]),
    decreases s.len() - lo,
{
    if lo < s.len() {
        let t = line_at(s, lo);
        let end = line_end(s, lo);
        lemma_line_end(s, lo);
        if t == COLORS_HEADER@ {
            if end < s.len() {
                assert(colors_from(s, lo, in_sec, acc) == colors_from(s, end + 1, true, acc));
                lemma_colors_keep_codes(s, end + 1, true, acc);
            }
        } else if in_sec && has_prefix(t, "#"@) {
            assert(colors_from(s, lo, in_sec, acc) == acc);
        } else {
            let acc2 = if in_sec {
                match color_entry(t) {
                    Some(e) => acc.push(e),
                    None => acc,
                }
            } else {
                acc
            };
            if in_sec && color_entry(t) is Some {
                law_color_entry_keeps_code(t);
                let x = color_entry(t)->0;
                assert(keeps_code_of(line_at(s, lo), x));
                assert forall|k: int| 0 <= k < acc2.len() implies from_color_line(s, #[trigger] acc2[k]) by {
                    if k < acc.len() {
                        assert(acc2[k] == acc[k]);
                    } else {
                        assert(acc2[k] == x);
                    }
                }
            }
            if end < s.len() {
                assert(colors_from(s, lo, in_sec, acc) == colors_from(s, end + 1, in_sec, acc2));
                lemma_colors_keep_codes(s, end + 1, in_sec, acc2);
            } else {
                assert(colors_from(s, lo, in_sec, acc) == acc2);
            }
        }
    }
}

/// Each palette entry that a style guide reads from its `## 配色` section
/// keeps the colour code of the line it came from: it ends with a space and
/// the `#`-text between that line's parentheses.
pub proof fn law_palette_keeps_codes(content: Seq<char>, g: StyleGuide)
    requires
        parsed_guide(g, content),
        spec_colors(content).len() > 0,
    ensures
        forall|k: int| 0 <= k < g.style_core.palette@.len() ==> from_color_line(content, #[trigger] g.style_core.palette@[k]@),
{
    lemma_colors_keep_codes(content, 0, false, seq![]);
    assert forall|k: int| 0 <= k < g.style_core.palette@.len() implies from_color_line(content, #[trigger] g.style_core.palette@[k]@) by {
        assert(views(g.style_core.palette@)[k] == g.style_core.palette@[k]@);
        assert(spec_colors(content)[k] == g.style_core.palette@[k]@);
    }
}

} // verus!
