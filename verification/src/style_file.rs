//! A style file read back: what `style_markdown` writes,
//! `parse_style_guide_from_markdown` reads as the same anchor, style core
//! texts and rules.
use vstd::prelude::*;
use crate::guide_markdown::{
    line_at, list_items_from, section_text_from, COLORS_HEADER, SECTION_ANCHOR, SECTION_BACKGROUND, SECTION_CARD, SECTION_ICON,
    SECTION_LINE, SECTION_RULES, SECTION_TITLE,
};
use crate::style_guide::StyleGuide;
use crate::text::{
    first_index_of, has_prefix, is_ws, lead_ws, lemma_first_index_of, line_end, line_text_end, trail_ws, trim, trim_end,
    trim_start, views, lemma_trail_ws,
};
use crate::guide_markdown::{parsed_guide, spec_list_section, spec_section_content};

verus! {

/// The lines, each followed by a line break.
pub open spec fn cat_lines(l: Seq<Seq<char>>) -> Seq<char>
    decreases l.len(),
{
    if l.len() == 0 {
        seq![]
    } else {
        l[0] + "\n"@ + cat_lines(l.drop_first())
    }
}

/// No line holds a line break, and none ends with a carriage return.
pub open spec fn plain_lines(l: Seq<Seq<char>>) -> bool {
    forall|k: int|
        0 <= k < l.len() ==> !(#[trigger] l[k]).contains('\n') && !(l[k].len() > 0 && l[k].last() == '\r')
}

proof fn lemma_newline()
    ensures
        "\n"@ =~= seq!['\n'],
{
    reveal_strlit("\n");
}

proof fn lemma_cat_append(a: Seq<Seq<char>>, b: Seq<Seq<char>>)
    ensures
        cat_lines(a + b) == cat_lines(a) + cat_lines(b),
    decreases a.len(),
{
    if a.len() == 0 {
        assert(a + b =~= b);
        assert(cat_lines(a) + cat_lines(b) =~= cat_lines(b));
    } else {
        lemma_cat_append(a.drop_first(), b);
        assert((a + b).drop_first() =~= a.drop_first() + b);
        assert((a + b)[0] == a[0]);
        assert(cat_lines(a + b) =~= cat_lines(a) + cat_lines(b));
    }
}

proof fn lemma_cat_one(x: Seq<char>)
    ensures
        cat_lines(seq![x]) == x + "\n"@,
{
    assert(seq![x].drop_first() =~= Seq::<Seq<char>>::empty());
    assert(cat_lines(seq![x].drop_first()) == cat_lines(Seq::<Seq<char>>::empty()));
    assert(cat_lines(Seq::<Seq<char>>::empty()) == Seq::<char>::empty());
    assert(cat_lines(seq![x]) =~= x + "\n"@);
}

/// Line `i` starts right after the lines before it.
proof fn lemma_cat_split(l: Seq<Seq<char>>, i: int)
    requires
        0 <= i < l.len(),
    ensures
        cat_lines(l) == cat_lines(l.take(i)) + l[i] + "\n"@ + cat_lines(l.skip(i + 1)),
        cat_lines(l.take(i + 1)) == cat_lines(l.take(i)) + l[i] + "\n"@,
{
    assert(l =~= l.take(i) + seq![l[i]] + l.skip(i + 1));
    lemma_cat_append(l.take(i) + seq![l[i]], l.skip(i + 1));
    lemma_cat_append(l.take(i), seq![l[i]]);
    lemma_cat_one(l[i]);
    assert(l.take(i + 1) =~= l.take(i) + seq![l[i]]);
    assert(cat_lines(l) =~= cat_lines(l.take(i)) + l[i] + "\n"@ + cat_lines(l.skip(i + 1)));
}

/// The line walk of `section_text_from`, over a list of lines.
pub open spec fn sec_lines(l: Seq<Seq<char>>, i: int, h: Seq<char>, in_sec: bool, acc: Seq<char>) -> Seq<char>
    decreases l.len() - i,
{
    if i < 0 || i >= l.len() {
        acc
    } else {
        let t = trim(l[i]);
        if t == h {
            sec_lines(l, i + 1, h, true, acc)
        } else if in_sec && has_prefix(t, "#"@) {
            acc
        } else {
            let acc2 = if in_sec && t.len() > 0 {
                if acc.len() > 0 {
                    acc + " "@ + t
                } else {
                    t
                }
            } else {
                acc
            };
            sec_lines(l, i + 1, h, in_sec, acc2)
        }
    }
}

/// The line walk of `list_items_from`, over a list of lines.
pub open spec fn item_lines(l: Seq<Seq<char>>, i: int, h: Seq<char>, in_sec: bool, acc: Seq<Seq<char>>) -> Seq<Seq<char>>
    decreases l.len() - i,
{
    if i < 0 || i >= l.len() {
        acc
    } else {
        let t = trim(l[i]);
        if t == h {
            item_lines(l, i + 1, h, true, acc)
        } else if in_sec && has_prefix(t, "#"@) {
            acc
        } else {
            let acc2 = if in_sec && (has_prefix(t, "- "@) || has_prefix(t, "* "@)) {
                acc.push(t.skip(2))
            } else {
                acc
            };
            item_lines(l, i + 1, h, in_sec, acc2)
        }
    }
}

/// In the joined text, line `i` starts at the end of the lines before it,
/// its text is its trimmed line, and the next line starts after its break.
proof fn lemma_line_facts(l: Seq<Seq<char>>, i: int)
    requires
        plain_lines(l),
        0 <= i < l.len(),
    ensures
        line_end(cat_lines(l), cat_lines(l.take(i)).len() as int) == cat_lines(l.take(i)).len() + l[i].len(),
        line_end(cat_lines(l), cat_lines(l.take(i)).len() as int) < cat_lines(l).len(),
        line_at(cat_lines(l), cat_lines(l.take(i)).len() as int) == trim(l[i]),
        line_end(cat_lines(l), cat_lines(l.take(i)).len() as int) + 1 == cat_lines(l.take(i + 1)).len(),
{
    lemma_newline();
    lemma_cat_split(l, i);
    let s = cat_lines(l);
    let lo = cat_lines(l.take(i)).len() as int;
    let x = l[i];
    let t = s.skip(lo);
    assert(t =~= x + "\n"@ + cat_lines(l.skip(i + 1)));
    lemma_first_index_of(t, '\n');
    let f = first_index_of(t, '\n');
    assert(t[x.len() as int] == '\n');
    if f < x.len() {
        assert(t[f] == x[f]);
        assert(x.contains(x[f]));
    }
    assert(f == x.len());
    let end = lo + x.len();
    assert(line_end(s, lo) == end);
    if end > lo {
        assert(s[end - 1] == x.last());
    }
    assert(line_text_end(s, lo, end) == end);
    assert(s.subrange(lo, end) =~= x);
}

proof fn lemma_bridge_sec(l: Seq<Seq<char>>, i: int, h: Seq<char>, in_sec: bool, acc: Seq<char>)
    requires
        plain_lines(l),
        0 <= i <= l.len(),
    ensures
        section_text_from(cat_lines(l), cat_lines(l.take(i)).len() as int, h, in_sec, acc) == sec_lines(l, i, h, in_sec, acc),
    decreases l.len() - i,
{
    if i == l.len() {
        assert(l.take(i) =~= l);
    } else {
        lemma_line_facts(l, i);
        let s = cat_lines(l);
        let t = trim(l[i]);
        let acc2 = if in_sec && t.len() > 0 {
            if acc.len() > 0 {
                acc + " "@ + t
            } else {
                t
            }
        } else {
            acc
        };
        lemma_bridge_sec(l, i + 1, h, true, acc);
        lemma_bridge_sec(l, i + 1, h, in_sec, acc2);
    }
}

proof fn lemma_bridge_items(l: Seq<Seq<char>>, i: int, h: Seq<char>, in_sec: bool, acc: Seq<Seq<char>>)
    requires
        plain_lines(l),
        0 <= i <= l.len(),
    ensures
        list_items_from(cat_lines(l), cat_lines(l.take(i)).len() as int, h, in_sec, acc) == item_lines(l, i, h, in_sec, acc),
    decreases l.len() - i,
{
    if i == l.len() {
        assert(l.take(i) =~= l);
    } else {
        lemma_line_facts(l, i);
        let t = trim(l[i]);
        let acc2 = if in_sec && (has_prefix(t, "- "@) || has_prefix(t, "* "@)) {
            acc.push(t.skip(2))
        } else {
            acc
        };
        lemma_bridge_items(l, i + 1, h, true, acc);
        lemma_bridge_items(l, i + 1, h, in_sec, acc2);
    }
}

pub proof fn lemma_cat_push(l: Seq<Seq<char>>, x: Seq<char>)
    ensures
        cat_lines(l.push(x)) == cat_lines(l) + x + "\n"@,
{
    lemma_cat_append(l, seq![x]);
    lemma_cat_one(x);
    assert(l.push(x) =~= l + seq![x]);
    assert(cat_lines(l) + (x + "\n"@) =~= cat_lines(l) + x + "\n"@);
}

/// A list block: a `- ` line per item, or one empty line for no items.
pub open spec fn bullet_lines(items: Seq<Seq<char>>) -> Seq<Seq<char>> {
    if items.len() == 0 {
        seq![Seq::<char>::empty()]
    } else {
        items.map_values(|s: Seq<char>| "- "@ + s)
    }
}

/// `## ` and a section name.
pub open spec fn header(name: Seq<char>) -> Seq<char> {
    "## "@ + name
}

/// The lines of the style file of a guide: `# ` and the style's name, the
/// anchor as a paragraph, then the sections for the anchor, the palette (a
/// list), the background, the title, card, icon and line styles, and the
/// rules (a list), each section after an empty line.
pub open spec fn style_lines(name: Seq<char>, g: StyleGuide) -> Seq<Seq<char>> {
    let e = Seq::<char>::empty();
    seq!["# "@ + name, e, g.prompt_anchor@, e, header(SECTION_ANCHOR@), g.prompt_anchor@, e, COLORS_HEADER@]
        + bullet_lines(views(g.style_core.palette@)) + seq![
        e,
        header(SECTION_BACKGROUND@),
        g.style_core.background_tone@,
        e,
        header(SECTION_TITLE@),
        g.style_core.title_style@,
        e,
        header(SECTION_CARD@),
        g.style_core.card_style@,
        e,
        header(SECTION_ICON@),
        g.style_core.icon_style@,
        e,
        header(SECTION_LINE@),
        g.style_core.line_style@,
        e,
        header(SECTION_RULES@),
    ] + bullet_lines(views(g.negative_rules@))
}

/// No whitespace at either end.
pub open spec fn tidy(v: Seq<char>) -> bool {
    v.len() == 0 || (!is_ws(v[0]) && !is_ws(v.last()))
}

/// A one-line text with no whitespace at either end.
pub open spec fn good_line(x: Seq<char>) -> bool {
    !x.contains('\n') && tidy(x)
}

/// A text a section can hold: one tidy line not starting with `#`.
pub open spec fn value_ok(v: Seq<char>) -> bool {
    good_line(v) && (v.len() > 0 ==> v[0] != '#')
}

/// A list item the style file can hold: a nonempty tidy line.
pub open spec fn item_ok(v: Seq<char>) -> bool {
    v.len() > 0 && good_line(v)
}

/// A style name or palette entry the style file can hold: any text without
/// a line break that does not end with a carriage return.
pub open spec fn palette_item_ok(v: Seq<char>) -> bool {
    !v.contains('\n') && !(v.len() > 0 && v.last() == '\r')
}

/// The character that tells a section header apart, or -1 for a line that
/// is no `## ` header.
pub open spec fn tag(x: Seq<char>) -> int {
    if x.len() >= 4 && x[0] == '#' && x[1] == '#' {
        x[3] as int
    } else {
        -1
    }
}

proof fn lemma_tidy_trim(v: Seq<char>)
    requires
        tidy(v),
    ensures
        trim(v) == v,
{
    assert(lead_ws(v) == 0);
    assert(trim_start(v) =~= v);
    assert(trail_ws(v) == 0);
    assert(trim_end(v) =~= v);
}

proof fn lemma_literals()
    ensures
        "# "@ =~= seq!['#', ' '],
        "## "@ =~= seq!['#', '#', ' '],
        "- "@ =~= seq!['-', ' '],
        "* "@ =~= seq!['*', ' '],
        "#"@ =~= seq!['#'],
        ""@ =~= Seq::<char>::empty(),
        SECTION_ANCHOR@ =~= seq!['风', '格', '锚', '点'],
        SECTION_BACKGROUND@ =~= seq!['背', '景', '基', '调'],
        SECTION_TITLE@ =~= seq!['标', '题', '样', '式'],
        SECTION_CARD@ =~= seq!['卡', '片', '样', '式'],
        SECTION_ICON@ =~= seq!['图', '标', '样', '式'],
        SECTION_LINE@ =~= seq!['线', '条', '样', '式'],
        SECTION_RULES@ =~= seq!['禁', '止', '规', '则'],
        COLORS_HEADER@ =~= seq!['#', '#', ' ', '配', '色'],
{
    reveal_strlit("# ");
    reveal_strlit("## ");
    reveal_strlit("- ");
    reveal_strlit("* ");
    reveal_strlit("#");
    reveal_strlit("");
    reveal_strlit("风格锚点");
    reveal_strlit("背景基调");
    reveal_strlit("标题样式");
    reveal_strlit("卡片样式");
    reveal_strlit("图标样式");
    reveal_strlit("线条样式");
    reveal_strlit("禁止规则");
    reveal_strlit("## 配色");
}

/// The tag each line of the style file has: that of its header, or -1.
pub open spec fn expected_tag(k: int, bp: int) -> int {
    if k == 4 {
        '风' as int
    } else if k == 7 {
        '配' as int
    } else if k == 9 + bp {
        '背' as int
    } else if k == 12 + bp {
        '标' as int
    } else if k == 15 + bp {
        '卡' as int
    } else if k == 18 + bp {
        '图' as int
    } else if k == 21 + bp {
        '线' as int
    } else if k == 24 + bp {
        '禁' as int
    } else {
        -1
    }
}

/// The conditions under which the style file reads back.
pub open spec fn round_trip_ok(name: Seq<char>, g: StyleGuide) -> bool {
    &&& palette_item_ok(name)
    &&& value_ok(g.prompt_anchor@)
    &&& value_ok(g.style_core.background_tone@)
    &&& value_ok(g.style_core.title_style@)
    &&& value_ok(g.style_core.card_style@)
    &&& value_ok(g.style_core.icon_style@)
    &&& value_ok(g.style_core.line_style@)
    &&& forall|i: int| 0 <= i < g.style_core.palette@.len() ==> palette_item_ok(#[trigger] g.style_core.palette@[i]@)
    &&& g.negative_rules@.len() > 0
    &&& forall|i: int| 0 <= i < g.negative_rules@.len() ==> item_ok(#[trigger] g.negative_rules@[i]@)
}

proof fn lemma_bullet_line(x: Seq<char>)
    requires
        item_ok(x),
    ensures
        good_line("- "@ + x),
        tag("- "@ + x) == -1,
        ("- "@ + x)[0] == '-',
{
    lemma_literals();
    let y = "- "@ + x;
    assert(y[0] == '-');
    assert(y.last() == x.last());
    assert(!y.contains('\n')) by {
        if y.contains('\n') {
            let i = choose|i: int| 0 <= i < y.len() && y[i] == '\n';
            assert(x[i - 2] == '\n');
            assert(x.contains('\n'));
        }
    }
}

/// A bullet line of a palette entry: one line, no header, and it trims to
/// a text that starts with `-`.
proof fn lemma_palette_line(x: Seq<char>)
    requires
        palette_item_ok(x),
    ensures
        !("- "@ + x).contains('\n'),
        !(("- "@ + x).last() == '\r'),
        tag("- "@ + x) == -1,
        trim("- "@ + x).len() > 0 && trim("- "@ + x)[0] == '-',
{
    lemma_literals();
    let y = "- "@ + x;
    assert(y[0] == '-' && y[1] == ' ');
    assert(!y.contains('\n')) by {
        if y.contains('\n') {
            let i = choose|i: int| 0 <= i < y.len() && y[i] == '\n';
            assert(x[i - 2] == '\n');
            assert(x.contains('\n'));
        }
    }
    if x.len() > 0 {
        assert(y.last() == x.last());
    }
    assert(lead_ws(y) == 0);
    assert(trim_start(y) =~= y);
    lemma_trail_ws(y);
    if trail_ws(y) == y.len() {
        assert(is_ws(y[0]));
    }
    assert(trim(y)[0] == y[0]);
}

proof fn lemma_block_lines(items: Seq<Seq<char>>, k: int)
    requires
        forall|i: int| 0 <= i < items.len() ==> item_ok(#[trigger] items[i]),
        0 <= k < bullet_lines(items).len(),
    ensures
        good_line(bullet_lines(items)[k]),
        tag(bullet_lines(items)[k]) == -1,
{
    lemma_literals();
    if items.len() == 0 {
        assert(bullet_lines(items)[k] == Seq::<char>::empty());
    } else {
        assert(item_ok(items[k]));
        lemma_bullet_line(items[k]);
    }
}

proof fn lemma_header_line(x: Seq<char>)
    requires
        x.len() == 4,
        forall|i: int| 0 <= i < 4 ==> !is_ws(#[trigger] x[i]) && x[i] != '\n',
    ensures
        good_line(header(x)),
        tag(header(x)) == x[0] as int,
{
    lemma_literals();
    let y = header(x);
    assert(y.len() == 7);
    assert(y[3] == x[0]);
    assert(y.last() == x[3]);
    assert(!y.contains('\n')) by {
        if y.contains('\n') {
            let i = choose|i: int| 0 <= i < y.len() && y[i] == '\n';
            if i >= 3 {
                assert(y[i] == x[i - 3]);
            }
        }
    }
}

/// Every line of the style file is a tidy single line, and only the section
/// headers carry a tag, each its own.
proof fn lemma_line_info(name: Seq<char>, g: StyleGuide, k: int)
    requires
        round_trip_ok(name, g),
        0 <= k < style_lines(name, g).len(),
    ensures
        !style_lines(name, g)[k].contains('\n'),
        !(style_lines(name, g)[k].len() > 0 && style_lines(name, g)[k].last() == '\r'),
        tag(style_lines(name, g)[k]) == expected_tag(k, bullet_lines(views(g.style_core.palette@)).len() as int),
        k != 0 && !(8 <= k < 8 + bullet_lines(views(g.style_core.palette@)).len() && g.style_core.palette@.len() > 0)
            ==> good_line(style_lines(name, g)[k]),
        k == 0 ==> style_lines(name, g)[k][1] == ' ' && forall|i: int|
            0 <= i < trim(style_lines(name, g)[k]).len() ==> #[trigger] trim(style_lines(name, g)[k])[i] == style_lines(
                name,
                g,
            )[k][i],
        8 <= k < 8 + bullet_lines(views(g.style_core.palette@)).len() && g.style_core.palette@.len() > 0 ==> trim(
            style_lines(name, g)[k],
        ).len() > 0 && trim(style_lines(name, g)[k])[0] == '-',
{
    lemma_literals();
    let l = style_lines(name, g);
    let pal = views(g.style_core.palette@);
    let rules = views(g.negative_rules@);
    let bp = bullet_lines(pal).len() as int;
    let e = Seq::<char>::empty();
    let a = seq!["# "@ + name, e, g.prompt_anchor@, e, header(SECTION_ANCHOR@), g.prompt_anchor@, e, COLORS_HEADER@];
    let m = seq![
        e,
        header(SECTION_BACKGROUND@),
        g.style_core.background_tone@,
        e,
        header(SECTION_TITLE@),
        g.style_core.title_style@,
        e,
        header(SECTION_CARD@),
        g.style_core.card_style@,
        e,
        header(SECTION_ICON@),
        g.style_core.icon_style@,
        e,
        header(SECTION_LINE@),
        g.style_core.line_style@,
        e,
        header(SECTION_RULES@),
    ];
    assert(l == a + bullet_lines(pal) + m + bullet_lines(rules));
    assert forall|i: int| 0 <= i < pal.len() implies palette_item_ok(#[trigger] pal[i]) by {
        assert(palette_item_ok(g.style_core.palette@[i]@));
    }
    assert forall|i: int| 0 <= i < rules.len() implies item_ok(#[trigger] rules[i]) by {
        assert(item_ok(g.negative_rules@[i]@));
    }
    if bullet_lines(pal).len() == 0 {
        assert(pal.len() > 0);
    }
    assert(bp >= 1);
    lemma_header_line(SECTION_ANCHOR@);
    lemma_header_line(SECTION_BACKGROUND@);
    lemma_header_line(SECTION_TITLE@);
    lemma_header_line(SECTION_CARD@);
    lemma_header_line(SECTION_ICON@);
    lemma_header_line(SECTION_LINE@);
    lemma_header_line(SECTION_RULES@);
    if k < 8 {
        assert(l[k] == a[k]);
        if k == 0 {
            let y = "# "@ + name;
            assert(y[0] == '#' && y[1] == ' ');
            if name.len() > 0 {
                assert(y.last() == name.last());
            }
            assert(lead_ws(y) == 0);
            assert(trim_start(y) =~= y);
            lemma_trail_ws(y);
            assert(!y.contains('\n')) by {
                if y.contains('\n') {
                    let i = choose|i: int| 0 <= i < y.len() && y[i] == '\n';
                    assert(name[i - 2] == '\n');
                    assert(name.contains('\n'));
                }
            }
        } else if k == 7 {
            assert(!COLORS_HEADER@.contains('\n')) by {
                if COLORS_HEADER@.contains('\n') {
                    let i = choose|i: int| 0 <= i < COLORS_HEADER@.len() && COLORS_HEADER@[i] == '\n';
                }
            }
        }
    } else if k < 8 + bp {
        assert(l[k] == bullet_lines(pal)[k - 8]);
        if pal.len() == 0 {
            assert(l[k] == Seq::<char>::empty());
        } else {
            assert(l[k] == "- "@ + pal[k - 8]);
            lemma_palette_line(pal[k - 8]);
        }
    } else if k < 25 + bp {
        assert(l[k] == m[k - 8 - bp]);
    } else {
        assert(l[k] == bullet_lines(rules)[k - 25 - bp]);
        lemma_block_lines(rules, k - 25 - bp);
    }
}

proof fn lemma_sec_skip(l: Seq<Seq<char>>, i: int, j: int, h: Seq<char>, acc: Seq<char>)
    requires
        0 <= i <= j <= l.len(),
        forall|k: int| i <= k < j ==> trim(#[trigger] l[k]) != h,
    ensures
        sec_lines(l, i, h, false, acc) == sec_lines(l, j, h, false, acc),
    decreases j - i,
{
    if i < j {
        assert(trim(l[i]) != h);
        lemma_sec_skip(l, i + 1, j, h, acc);
    }
}

proof fn lemma_items_skip(l: Seq<Seq<char>>, i: int, j: int, h: Seq<char>, acc: Seq<Seq<char>>)
    requires
        0 <= i <= j <= l.len(),
        forall|k: int| i <= k < j ==> trim(#[trigger] l[k]) != h,
    ensures
        item_lines(l, i, h, false, acc) == item_lines(l, j, h, false, acc),
    decreases j - i,
{
    if i < j {
        assert(trim(l[i]) != h);
        lemma_items_skip(l, i + 1, j, h, acc);
    }
}

/// A header, its one-line text, an empty line and the next header: the
/// section's text is that line.
proof fn lemma_sec_found(l: Seq<Seq<char>>, j: int, h: Seq<char>, v: Seq<char>)
    requires
        0 <= j,
        j + 3 < l.len(),
        l[j] == h,
        good_line(h),
        tag(h) != -1,
        l[j + 1] == v,
        value_ok(v),
        l[j + 2] == Seq::<char>::empty(),
        good_line(l[j + 3]),
        tag(l[j + 3]) != -1,
        tag(l[j + 3]) != tag(h),
    ensures
        sec_lines(l, j, h, false, seq![]) == v,
{
    lemma_literals();
    lemma_tidy_trim(h);
    lemma_tidy_trim(v);
    lemma_tidy_trim(l[j + 3]);
    assert(trim(Seq::<char>::empty()) =~= Seq::<char>::empty());
    assert(v != h);
    assert(!has_prefix(v, "#"@)) by {
        if has_prefix(v, "#"@) {
            assert(v.take(1)[0] == '#');
        }
    }
    assert(has_prefix(l[j + 3], "#"@)) by {
        assert(l[j + 3].take(1) =~= "#"@);
    }
    assert(l[j + 3] != h);
    let acc1 = if v.len() > 0 { v } else { seq![] };
    assert(sec_lines(l, j + 3, h, true, acc1) == acc1);
    assert(!has_prefix(Seq::<char>::empty(), "#"@));
    assert(sec_lines(l, j + 2, h, true, acc1) == acc1);
    assert(sec_lines(l, j + 1, h, true, seq![]) == acc1);
    assert(acc1 =~= v);
}

/// Inside a list section, each `- ` line adds its item.
proof fn lemma_items_block(l: Seq<Seq<char>>, s0: int, i: int, rs: Seq<Seq<char>>, h: Seq<char>, acc: Seq<Seq<char>>)
    requires
        0 <= s0 <= i <= l.len(),
        l.len() == s0 + rs.len(),
        forall|t: int| 0 <= t < rs.len() ==> l[s0 + t] == "- "@ + #[trigger] rs[t],
        forall|t: int| 0 <= t < rs.len() ==> item_ok(#[trigger] rs[t]),
        tag(h) != -1,
    ensures
        item_lines(l, i, h, true, acc) == acc + rs.skip(i - s0),
    decreases l.len() - i,
{
    lemma_literals();
    if i == l.len() {
        assert(rs.skip(i - s0) =~= Seq::<Seq<char>>::empty());
        assert(acc + rs.skip(i - s0) =~= acc);
    } else {
        let r = rs[i - s0];
        assert(item_ok(r));
        lemma_bullet_line(r);
        lemma_tidy_trim("- "@ + r);
        let t = "- "@ + r;
        assert(l[i] == t);
        assert(t != h);
        assert(!has_prefix(t, "#"@)) by {
            if has_prefix(t, "#"@) {
                assert(t.take(1)[0] == '#');
            }
        }
        assert(has_prefix(t, "- "@)) by {
            assert(t.take(2) =~= "- "@);
        }
        assert(t.skip(2) =~= r);
        lemma_items_block(l, s0, i + 1, rs, h, acc.push(r));
        assert(acc.push(r) + rs.skip(i + 1 - s0) =~= acc + rs.skip(i - s0));
    }
}

/// Before the header at `j`, no line is that header.
proof fn lemma_no_header_before(name: Seq<char>, g: StyleGuide, j: int)
    requires
        round_trip_ok(name, g),
        0 <= j < style_lines(name, g).len(),
        expected_tag(j, bullet_lines(views(g.style_core.palette@)).len() as int) != -1,
    ensures
        forall|k: int| 0 <= k < j ==> trim(#[trigger] style_lines(name, g)[k]) != style_lines(name, g)[j],
{
    let l = style_lines(name, g);
    let bp = bullet_lines(views(g.style_core.palette@)).len() as int;
    lemma_line_info(name, g, j);
    assert forall|k: int| 0 <= k < j implies trim(#[trigger] l[k]) != l[j] by {
        lemma_line_info(name, g, k);
        if 8 <= k < 8 + bp && g.style_core.palette@.len() > 0 {
            assert(l[j][0] == '#');
        } else if k == 0 {
            if trim(l[k]) == l[j] {
                assert(l[j][1] == '#');
                assert(trim(l[k])[1] == l[k][1]);
            }
        } else {
            lemma_tidy_trim(l[k]);
            assert(expected_tag(k, bp) != expected_tag(j, bp));
        }
    }
}

/// What `style_markdown` writes, `parse_style_guide_from_markdown` reads
/// back as the same anchor, background, title, card, icon and line styles
/// and the same rules, when those texts are single tidy lines not starting
/// with `#`, the rules are nonempty tidy lines, there is at least one rule,
/// and the style's name and the palette entries hold no line break (nor end
/// with a carriage return).
pub proof fn law_style_file_round_trip(name: Seq<char>, g: StyleGuide, p: StyleGuide)
    requires
        round_trip_ok(name, g),
        parsed_guide(p, crate::style_extraction::spec_style_markdown(name, g)),
    ensures
        p.prompt_anchor@ == g.prompt_anchor@,
        p.style_core.background_tone@ == g.style_core.background_tone@,
        p.style_core.title_style@ == g.style_core.title_style@,
        p.style_core.card_style@ == g.style_core.card_style@,
        p.style_core.icon_style@ == g.style_core.icon_style@,
        p.style_core.line_style@ == g.style_core.line_style@,
        views(p.negative_rules@) == views(g.negative_rules@),
{
    lemma_literals();
    let l = style_lines(name, g);
    let doc = cat_lines(l);
    let pal = views(g.style_core.palette@);
    let rules = views(g.negative_rules@);
    let bp = bullet_lines(pal).len() as int;
    let n = l.len() as int;
    assert(n == 25 + bp + bullet_lines(rules).len());
    assert(bullet_lines(rules) == rules.map_values(|x: Seq<char>| "- "@ + x));
    assert(plain_lines(l)) by {
        assert forall|k: int| 0 <= k < l.len() implies !(#[trigger] l[k]).contains('\n') && !(l[k].len() > 0 && l[k].last()
            == '\r') by {
            lemma_line_info(name, g, k);
        }
    }
    assert(l.take(0) =~= Seq::<Seq<char>>::empty());
    assert(cat_lines(l.take(0)).len() == 0);
    let heads = seq![
        header(SECTION_ANCHOR@),
        header(SECTION_BACKGROUND@),
        header(SECTION_TITLE@),
        header(SECTION_CARD@),
        header(SECTION_ICON@),
        header(SECTION_LINE@),
    ];
    let at = seq![4int, 9 + bp, 12 + bp, 15 + bp, 18 + bp, 21 + bp];
    let vals = seq![
        g.prompt_anchor@,
        g.style_core.background_tone@,
        g.style_core.title_style@,
        g.style_core.card_style@,
        g.style_core.icon_style@,
        g.style_core.line_style@,
    ];
    let names = seq![SECTION_ANCHOR@, SECTION_BACKGROUND@, SECTION_TITLE@, SECTION_CARD@, SECTION_ICON@, SECTION_LINE@];
    assert forall|q: int| 0 <= q < 6 implies spec_section_content(doc, #[trigger] names[q]) == vals[q] by {
        let h = header(names[q]);
        let j = at[q];
        assert(h == heads[q]);
        assert(l[j] == h);
        assert(l[j + 1] == vals[q]);
        assert(l[j + 2] == Seq::<char>::empty());
        lemma_line_info(name, g, j);
        lemma_line_info(name, g, j + 1);
        lemma_line_info(name, g, j + 3);
        lemma_bridge_sec(l, 0, h, false, seq![]);
        lemma_no_header_before(name, g, j);
        lemma_sec_skip(l, 0, j, h, seq![]);
        lemma_sec_found(l, j, h, vals[q]);
    }
    // The rules.
    let hr = header(SECTION_RULES@);
    let jr = 24 + bp;
    assert(l[jr] == hr);
    lemma_line_info(name, g, jr);
    lemma_tidy_trim(hr);
    lemma_bridge_items(l, 0, hr, false, seq![]);
    lemma_no_header_before(name, g, jr);
    lemma_items_skip(l, 0, jr, hr, seq![]);
    assert(item_lines(l, jr, hr, false, seq![]) == item_lines(l, jr + 1, hr, true, seq![]));
    assert forall|t: int| 0 <= t < rules.len() implies item_ok(#[trigger] rules[t]) by {
        assert(item_ok(g.negative_rules@[t]@));
    }
    assert forall|t: int| 0 <= t < rules.len() implies l[jr + 1 + t] == "- "@ + #[trigger] rules[t] by {
        assert(l[jr + 1 + t] == bullet_lines(rules)[t]);
    }
    lemma_items_block(l, jr + 1, jr + 1, rules, hr, seq![]);
    assert(rules.skip(0) =~= rules);
    assert(seq![] + rules =~= rules);
    assert(spec_list_section(doc, SECTION_RULES@) == rules);
    assert(names[0] == SECTION_ANCHOR@ && names[1] == SECTION_BACKGROUND@ && names[2] == SECTION_TITLE@);
    assert(names[3] == SECTION_CARD@ && names[4] == SECTION_ICON@ && names[5] == SECTION_LINE@);
    assert(spec_section_content(doc, names[0]) == vals[0]);
    assert(spec_section_content(doc, names[1]) == vals[1]);
    assert(spec_section_content(doc, names[2]) == vals[2]);
    assert(spec_section_content(doc, names[3]) == vals[3]);
    assert(spec_section_content(doc, names[4]) == vals[4]);
    assert(spec_section_content(doc, names[5]) == vals[5]);
    assert(spec_section_content(doc, SECTION_ANCHOR@) == vals[0]);
    assert(spec_section_content(doc, SECTION_BACKGROUND@) == vals[1]);
    assert(spec_section_content(doc, SECTION_TITLE@) == vals[2]);
    assert(spec_section_content(doc, SECTION_CARD@) == vals[3]);
    assert(spec_section_content(doc, SECTION_ICON@) == vals[4]);
    assert(spec_section_content(doc, SECTION_LINE@) == vals[5]);
}

} // verus!
