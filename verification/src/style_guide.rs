//! Style guides for a slide deck: how strictly to follow reference images,
//! the core look, the layout families and their assignment to pages, and
//! the style prompt given to the image model.
use vstd::prelude::*;
use crate::text::{ascii_lower, ascii_upper, is_ascii_text, join_prefix, join_strings, owned, push_string, spec_join, str_eq, views};

verus! {

/// How closely pages follow the reference images.
#[derive(Clone, Copy, Debug, PartialEq, Eq, Structural)]
pub enum AdherenceLevel {
    /// Keep the series look, free to reorganise.
    Loose,
    /// Shared frame, lively details.
    Balanced,
    /// Locked skeleton and colour rhythm.
    Strict,
}

impl Default for AdherenceLevel {
    fn default() -> (r: Self)
        ensures
            r == AdherenceLevel::Balanced,
    {
        AdherenceLevel::Balanced
    }
}

pub const LABEL_LOOSE: &'static str = "宽松";
pub const LABEL_BALANCED: &'static str = "适度";
pub const LABEL_STRICT: &'static str = "严格";

pub const LOOSE_LINE_1: &'static str = "优先学习原稿图的版芯比例、留白、背景纹理、线条样式、卡片层级和色彩节奏，再围绕本页内容重新设计。";
pub const LOOSE_LINE_2: &'static str = "不要照搬某一张原稿图的具体版式，只需要保持同系列视觉一致性。";
pub const BALANCED_LINE_1: &'static str = "优先解析原稿图的版芯比例、留白、背景纹理、线条样式、卡片层级与色彩节奏，将其作为设计的基准约束。";
pub const BALANCED_LINE_2: &'static str = "保留适度发挥空间，做到框架统一、细节鲜活，避免刻板套用。";
pub const STRICT_LINE_1: &'static str = "严格锁定原稿图的版芯比例、留白、背景纹理、线条样式、卡片层级和色彩节奏，然后按照这些规则将本页内容填入。";
pub const STRICT_LINE_2: &'static str = "允许按本页信息重新映射模块内容，但不要跳出这套模板的版式语法、视觉节奏与卡片组织方式。";

/// Display label of a level.
pub open spec fn spec_label(level: AdherenceLevel) -> Seq<char> {
    match level {
        AdherenceLevel::Loose => LABEL_LOOSE@,
        AdherenceLevel::Balanced => LABEL_BALANCED@,
        AdherenceLevel::Strict => LABEL_STRICT@,
    }
}

/// The level named by an already lower-cased string: English or Chinese
/// names of loose and strict, anything else balanced.
pub open spec fn spec_level_of_lowercase(s: Seq<char>) -> AdherenceLevel {
    if s == "loose"@ || s == LABEL_LOOSE@ {
        AdherenceLevel::Loose
    } else if s == "strict"@ || s == LABEL_STRICT@ {
        AdherenceLevel::Strict
    } else {
        AdherenceLevel::Balanced
    }
}

/// The name a level has in a style file: `loose`, `balanced` or `strict`.
pub open spec fn spec_serde_name(level: AdherenceLevel) -> Seq<char> {
    match level {
        AdherenceLevel::Loose => "loose"@,
        AdherenceLevel::Balanced => "balanced"@,
        AdherenceLevel::Strict => "strict"@,
    }
}

/// Every level is read back from its label and from its name, in any ASCII
/// case (small, or capitals as `to_uppercase` gives them): the names are
/// ASCII, so `from_str` compares them by `ascii_lower`.
pub proof fn law_level_names_read_back(level: AdherenceLevel)
    ensures
        spec_level_of_lowercase(spec_label(level)) == level,
        is_ascii_text(spec_serde_name(level)),
        spec_level_of_lowercase(ascii_lower(spec_serde_name(level))) == level,
        is_ascii_text(ascii_upper(spec_serde_name(level))),
        spec_level_of_lowercase(ascii_lower(ascii_upper(spec_serde_name(level)))) == level,
{
    reveal_strlit("loose");
    reveal_strlit("balanced");
    reveal_strlit("strict");
    reveal_strlit("宽松");
    reveal_strlit("适度");
    reveal_strlit("严格");
    assert(LABEL_LOOSE@ == "宽松"@ && LABEL_BALANCED@ == "适度"@ && LABEL_STRICT@ == "严格"@);
    assert("loose"@.len() == 5 && "strict"@.len() == 6 && "balanced"@.len() == 8);
    assert(LABEL_LOOSE@.len() == 2 && LABEL_BALANCED@.len() == 2 && LABEL_STRICT@.len() == 2);
    assert(LABEL_LOOSE@[0] == '宽' && LABEL_BALANCED@[0] == '适' && LABEL_STRICT@[0] == '严');
    assert(LABEL_LOOSE@ != "loose"@ && LABEL_BALANCED@ != "loose"@ && LABEL_STRICT@ != "loose"@);
    assert(LABEL_BALANCED@ != LABEL_LOOSE@ && LABEL_STRICT@ != LABEL_LOOSE@);
    assert(LABEL_BALANCED@ != "strict"@ && LABEL_STRICT@ != "strict"@ && LABEL_BALANCED@ != LABEL_STRICT@);
    assert("balanced"@ != "loose"@ && "balanced"@ != "strict"@ && "balanced"@ != LABEL_LOOSE@ && "balanced"@ != LABEL_STRICT@);
    assert("strict"@ != "loose"@ && "strict"@ != LABEL_LOOSE@);
    let n = spec_serde_name(level);
    assert(is_ascii_text(n));
    assert(ascii_lower(n) =~= n);
    assert(is_ascii_text(ascii_upper(n)));
    assert(ascii_lower(ascii_upper(n)) =~= n);
}

/// Prompt lines of a level, none without reference images.
pub open spec fn spec_prompt_lines(level: AdherenceLevel, has_reference_images: bool) -> Seq<Seq<char>> {
    if !has_reference_images {
        seq![]
    } else {
        match level {
            AdherenceLevel::Loose => seq![LOOSE_LINE_1@, LOOSE_LINE_2@],
            AdherenceLevel::Balanced => seq![BALANCED_LINE_1@, BALANCED_LINE_2@],
            AdherenceLevel::Strict => seq![STRICT_LINE_1@, STRICT_LINE_2@],
        }
    }
}

/// What `str::to_lowercase` returns for a string (Unicode case mapping).
pub uninterp spec fn spec_to_lowercase(s: Seq<char>) -> Seq<char>;

/// Lower-cases a string with `str::to_lowercase`. The Unicode case mapping
/// is not written out here: the result is only named, except on ASCII text,
/// where it makes the capital letters `A`-`Z` small and keeps every other
/// character.
#[verifier::external_body]
pub(crate) fn to_lowercase(s: &str) -> (r: String)
    ensures
        r@ == spec_to_lowercase(s@),
        is_ascii_text(s@) ==> r@ == ascii_lower(s@),
{
    s.to_lowercase()
}

impl AdherenceLevel {
    pub fn label(&self) -> (r: &'static str)
        ensures
            r@ == spec_label(*self),
    {
        match self {
            AdherenceLevel::Loose => LABEL_LOOSE,
            AdherenceLevel::Balanced => LABEL_BALANCED,
            AdherenceLevel::Strict => LABEL_STRICT,
        }
    }

    /// The level named by a lower-cased name.
    pub fn from_lowercase(s: &str) -> (r: Self)
        ensures
            r == spec_level_of_lowercase(s@),
    {
        if str_eq(s, "loose") || str_eq(s, LABEL_LOOSE) {
            AdherenceLevel::Loose
        } else if str_eq(s, "strict") || str_eq(s, LABEL_STRICT) {
            AdherenceLevel::Strict
        } else {
            AdherenceLevel::Balanced
        }
    }

    /// The level named by `s`, compared after lower-casing.
    pub fn from_str(s: &str) -> (r: Self)
        ensures
            r == spec_level_of_lowercase(spec_to_lowercase(s@)),
            is_ascii_text(s@) ==> r == spec_level_of_lowercase(ascii_lower(s@)),
    {
        let lower = to_lowercase(s);
        Self::from_lowercase(lower.as_str())
    }

    /// Style-adherence lines for the image prompt.
    pub fn prompt_lines(&self, has_reference_images: bool) -> (r: Vec<String>)
        ensures
            views(r@) == spec_prompt_lines(*self, has_reference_images),
    {
        if !has_reference_images {
            let r: Vec<String> = Vec::new();
            proof {
                assert(views(r@) =~= spec_prompt_lines(*self, has_reference_images));
            }
            return r;
        }
        let (a, b) = match self {
            AdherenceLevel::Loose => (LOOSE_LINE_1, LOOSE_LINE_2),
            AdherenceLevel::Balanced => (BALANCED_LINE_1, BALANCED_LINE_2),
            AdherenceLevel::Strict => (STRICT_LINE_1, STRICT_LINE_2),
        };
        let mut r: Vec<String> = Vec::new();
        r.push(owned(a));
        r.push(owned(b));
        proof {
            assert(views(r@) =~= spec_prompt_lines(*self, has_reference_images));
        }
        r
    }
}

pub const DEFAULT_BACKGROUND_TONE: &'static str = "按主题选择浅色或中性底色，保证正文可读";
pub const DEFAULT_PALETTE_1: &'static str = "主题主色";
pub const DEFAULT_PALETTE_2: &'static str = "辅助强调色";
pub const DEFAULT_PALETTE_3: &'static str = "中性色";
pub const DEFAULT_TITLE_STYLE: &'static str = "标题层级清楚，关键词强调方式与主题气质一致";
pub const DEFAULT_CARD_STYLE: &'static str = "信息分组方式随内容语义选择，需要容器时保持边界可辨";
pub const DEFAULT_ICON_STYLE: &'static str = "图标风格与内容领域一致，保持统一和可识别";
pub const DEFAULT_LINE_STYLE: &'static str = "连接线、箭头和编号关系清晰，样式随版式语义适配";

/// Core look of a deck.
#[derive(Clone, Debug)]
pub struct StyleCore {
    /// Background tone.
    pub background_tone: String,
    /// Colours (main, accent, ...).
    pub palette: Vec<String>,
    pub title_style: String,
    pub card_style: String,
    pub icon_style: String,
    pub line_style: String,
}

impl Default for StyleCore {
    fn default() -> (r: Self)
        ensures
            r.background_tone@ == DEFAULT_BACKGROUND_TONE@,
            views(r.palette@) == seq![DEFAULT_PALETTE_1@, DEFAULT_PALETTE_2@, DEFAULT_PALETTE_3@],
            r.title_style@ == DEFAULT_TITLE_STYLE@,
            r.card_style@ == DEFAULT_CARD_STYLE@,
            r.icon_style@ == DEFAULT_ICON_STYLE@,
            r.line_style@ == DEFAULT_LINE_STYLE@,
    {
        let mut palette: Vec<String> = Vec::new();
        palette.push(owned(DEFAULT_PALETTE_1));
        palette.push(owned(DEFAULT_PALETTE_2));
        palette.push(owned(DEFAULT_PALETTE_3));
        proof {
            assert(views(palette@) =~= seq![DEFAULT_PALETTE_1@, DEFAULT_PALETTE_2@, DEFAULT_PALETTE_3@]);
        }
        StyleCore {
            background_tone: owned(DEFAULT_BACKGROUND_TONE),
            palette,
            title_style: owned(DEFAULT_TITLE_STYLE),
            card_style: owned(DEFAULT_CARD_STYLE),
            icon_style: owned(DEFAULT_ICON_STYLE),
            line_style: owned(DEFAULT_LINE_STYLE),
        }
    }
}

/// How pages vary: at most `same_layout_max_repeat` pages in a row share a
/// layout family, and a deck should use at least
/// `min_distinct_layout_families` families.
#[derive(Clone, Copy, Debug, PartialEq, Eq, Structural)]
pub struct VariationPolicy {
    pub same_layout_max_repeat: u32,
    pub min_distinct_layout_families: u32,
    pub allow_local_recomposition: bool,
}

pub fn default_same_layout_max_repeat() -> (r: u32)
    ensures
        r == 1,
{
    1
}

pub fn default_min_distinct_layout_families() -> (r: u32)
    ensures
        r == 3,
{
    3
}

pub fn default_allow_local_recomposition() -> (r: bool)
    ensures
        r,
{
    true
}

impl Default for VariationPolicy {
    fn default() -> (r: Self)
        ensures
            r.same_layout_max_repeat == 1,
            r.min_distinct_layout_families == 3,
            r.allow_local_recomposition,
    {
        VariationPolicy {
            same_layout_max_repeat: default_same_layout_max_repeat(),
            min_distinct_layout_families: default_min_distinct_layout_families(),
            allow_local_recomposition: default_allow_local_recomposition(),
        }
    }
}

/// Keys of the built-in layout families, in order.
pub open spec fn family_keys() -> Seq<Seq<char>> {
    seq![
        "grid_n_x_m"@,
        "timeline_horizontal"@,
        "timeline_vertical"@,
        "hub_and_spoke"@,
        "split_left_right"@,
        "split_top_bottom"@,
        "compare_dual_axis"@,
        "process_horizontal"@,
        "process_vertical"@,
        "hero_with_supporting_cards"@,
    ]
}

/// Display labels of the built-in layout families, in the same order.
pub open spec fn family_labels() -> Seq<Seq<char>> {
    seq![
        "宫格卡片"@,
        "横向时间线"@,
        "纵向时间线"@,
        "中心辐射"@,
        "左右分栏"@,
        "上下分区"@,
        "双轴对比"@,
        "横向流程"@,
        "纵向流程"@,
        "主视觉卡片"@,
    ]
}

/// The built-in layout families as (key, label) pairs.
pub fn default_layout_family_table() -> (r: Vec<(&'static str, &'static str)>)
    ensures
        r@.len() == family_keys().len(),
        forall|i: int| 0 <= i < r@.len() ==> (#[trigger] r@[i]).0@ == family_keys()[i] && r@[i].1@ == family_labels()[i],
{
    let r = vec![
        ("grid_n_x_m", "宫格卡片"),
        ("timeline_horizontal", "横向时间线"),
        ("timeline_vertical", "纵向时间线"),
        ("hub_and_spoke", "中心辐射"),
        ("split_left_right", "左右分栏"),
        ("split_top_bottom", "上下分区"),
        ("compare_dual_axis", "双轴对比"),
        ("process_horizontal", "横向流程"),
        ("process_vertical", "纵向流程"),
        ("hero_with_supporting_cards", "主视觉卡片"),
    ];
    r
}

/// Label of the first built-in family from `i` on whose key is `name`;
/// `name` itself when none is.
pub open spec fn family_label_from(name: Seq<char>, i: int) -> Seq<char>
    decreases family_keys().len() - i,
{
    if i >= family_keys().len() || i < 0 {
        name
    } else if family_keys()[i] == name {
        family_labels()[i]
    } else {
        family_label_from(name, i + 1)
    }
}

/// Display label of a layout family: the built-in label of its key, or the
/// name itself.
pub open spec fn spec_family_label(name: Seq<char>) -> Seq<char> {
    family_label_from(name, 0)
}

pub fn get_layout_family_label(name: &str) -> (r: &str)
    ensures
        r@ == spec_family_label(name@),
{
    let table = default_layout_family_table();
    let mut i: usize = 0;
    while i < table.len()
        invariant
            0 <= i <= table@.len(),
            table@.len() == family_keys().len(),
            forall|j: int| 0 <= j < table@.len() ==> (#[trigger] table@[j]).0@ == family_keys()[j] && table@[j].1@ == family_labels()[j],
            spec_family_label(name@) == family_label_from(name@, i as int),
        decreases table@.len() - i,
    {
        let (key, label) = table[i];
        proof {
            assert(table@[i as int].0@ == family_keys()[i as int]);
        }
        if str_eq(key, name) {
            return label;
        }
        i = i + 1;
    }
    name
}

/// Keys of the built-in layout families, as owned strings.
pub fn default_layout_families() -> (r: Vec<String>)
    ensures
        views(r@) == family_keys(),
{
    let table = default_layout_family_table();
    let mut r: Vec<String> = Vec::new();
    let mut i: usize = 0;
    while i < table.len()
        invariant
            0 <= i <= table@.len(),
            table@.len() == family_keys().len(),
            forall|j: int| 0 <= j < table@.len() ==> (#[trigger] table@[j]).0@ == family_keys()[j] && table@[j].1@ == family_labels()[j],
            views(r@) == family_keys().take(i as int),
        decreases table@.len() - i,
    {
        let (key, _label) = table[i];
        push_string(&mut r, owned(key));
        proof {
            assert(table@[i as int].0@ == family_keys()[i as int]);
            assert(family_keys().take(i + 1) =~= family_keys().take(i as int).push(family_keys()[i as int]));
        }
        i = i + 1;
    }
    proof {
        assert(family_keys().take(i as int) =~= family_keys());
    }
    r
}

pub const PRIMITIVE_1: &'static str = "语义分组";
pub const PRIMITIVE_2: &'static str = "重点标记";
pub const PRIMITIVE_3: &'static str = "步骤或指标标记";
pub const PRIMITIVE_4: &'static str = "内容匹配图标";
pub const PRIMITIVE_5: &'static str = "关系连接";
pub const NEGATIVE_1: &'static str = "不要套用与主题无关的固定行业模板";
pub const NEGATIVE_2: &'static str = "不要使用干扰阅读的复杂背景";
pub const NEGATIVE_3: &'static str = "不要让页面之间的视觉语言突然断裂";

pub fn default_element_primitives() -> (r: Vec<String>)
    ensures
        views(r@) == seq![PRIMITIVE_1@, PRIMITIVE_2@, PRIMITIVE_3@, PRIMITIVE_4@, PRIMITIVE_5@],
{
    let mut r: Vec<String> = Vec::new();
    r.push(owned(PRIMITIVE_1));
    r.push(owned(PRIMITIVE_2));
    r.push(owned(PRIMITIVE_3));
    r.push(owned(PRIMITIVE_4));
    r.push(owned(PRIMITIVE_5));
    proof {
        assert(views(r@) =~= seq![PRIMITIVE_1@, PRIMITIVE_2@, PRIMITIVE_3@, PRIMITIVE_4@, PRIMITIVE_5@]);
    }
    r
}

pub fn default_negative_rules() -> (r: Vec<String>)
    ensures
        views(r@) == seq![NEGATIVE_1@, NEGATIVE_2@, NEGATIVE_3@],
{
    let mut r: Vec<String> = Vec::new();
    r.push(owned(NEGATIVE_1));
    r.push(owned(NEGATIVE_2));
    r.push(owned(NEGATIVE_3));
    proof {
        assert(views(r@) =~= seq![NEGATIVE_1@, NEGATIVE_2@, NEGATIVE_3@]);
    }
    r
}

/// A deck's style guide.
#[derive(Clone, Debug)]
pub struct StyleGuide {
    pub style_core: StyleCore,
    /// Layout families pages may use.
    pub layout_families: Vec<String>,
    /// Element primitives (grouping, emphasis marks, ...).
    pub element_primitives: Vec<String>,
    pub variation_policy: VariationPolicy,
    /// Things to avoid.
    pub negative_rules: Vec<String>,
    /// Style anchor injected into every page prompt.
    pub prompt_anchor: String,
    pub adherence_level: AdherenceLevel,
}

/// The default style guide.
pub open spec fn is_default_guide(g: StyleGuide) -> bool {
    default_apart_from_anchor(g) && g.prompt_anchor@ == Seq::<char>::empty()
}

/// Every part of a style guide but its anchor is the default.
pub open spec fn default_apart_from_anchor(g: StyleGuide) -> bool {
    &&& g.style_core.background_tone@ == DEFAULT_BACKGROUND_TONE@
    &&& views(g.style_core.palette@) == seq![DEFAULT_PALETTE_1@, DEFAULT_PALETTE_2@, DEFAULT_PALETTE_3@]
    &&& g.style_core.title_style@ == DEFAULT_TITLE_STYLE@
    &&& g.style_core.card_style@ == DEFAULT_CARD_STYLE@
    &&& g.style_core.icon_style@ == DEFAULT_ICON_STYLE@
    &&& g.style_core.line_style@ == DEFAULT_LINE_STYLE@
    &&& views(g.layout_families@) == family_keys()
    &&& views(g.element_primitives@) == seq![PRIMITIVE_1@, PRIMITIVE_2@, PRIMITIVE_3@, PRIMITIVE_4@, PRIMITIVE_5@]
    &&& g.variation_policy == (VariationPolicy {
        same_layout_max_repeat: 1,
        min_distinct_layout_families: 3,
        allow_local_recomposition: true,
    })
    &&& views(g.negative_rules@) == seq![NEGATIVE_1@, NEGATIVE_2@, NEGATIVE_3@]
    &&& g.adherence_level == AdherenceLevel::Balanced
}

impl Default for StyleGuide {
    fn default() -> (r: Self)
        ensures
            is_default_guide(r),
    {
        StyleGuide {
            style_core: StyleCore::default(),
            layout_families: default_layout_families(),
            element_primitives: default_element_primitives(),
            variation_policy: VariationPolicy::default(),
            negative_rules: default_negative_rules(),
            prompt_anchor: String::new(),
            adherence_level: AdherenceLevel::default(),
        }
    }
}

pub const ANCHOR_PREFIX: &'static str = "统一视觉锚点：";
pub const BACKGROUND_PREFIX: &'static str = "背景明度与底色要求：";
pub const PALETTE_PREFIX: &'static str = "建议配色：";
pub const LIST_SEPARATOR: &'static str = "、";
pub const LAYOUT_PREFIX: &'static str = "组织方式可参考 ";
pub const LABEL_OPEN: &'static str = "（";
pub const LABEL_CLOSE: &'static str = "）";
pub const ELEMENTS_PREFIX: &'static str = "元素语言要求：使用 ";
pub const ELEMENTS_SUFFIX: &'static str = "，按本页内容重新生成具体图形";
pub const RULES_PREFIX: &'static str = "禁止事项：";
pub const RULES_SEPARATOR: &'static str = "；";
pub const NEWLINE: &'static str = "\n";

/// One line when `cond` holds, none otherwise.
pub open spec fn line_if(cond: bool, line: Seq<char>) -> Seq<Seq<char>> {
    if cond {
        seq![line]
    } else {
        seq![]
    }
}

/// The lines of the style prompt of a guide.
pub open spec fn style_prompt_lines(g: StyleGuide, layout_family: Option<Seq<char>>) -> Seq<Seq<char>> {
    let rules = views(g.negative_rules@);
    let n = if rules.len() < 3 { rules.len() } else { 3 };
    line_if(g.prompt_anchor@.len() > 0, ANCHOR_PREFIX@ + g.prompt_anchor@)
        + line_if(g.style_core.background_tone@.len() > 0, BACKGROUND_PREFIX@ + g.style_core.background_tone@)
        + line_if(g.style_core.palette@.len() > 0, PALETTE_PREFIX@ + spec_join(views(g.style_core.palette@), LIST_SEPARATOR@))
        + match layout_family {
            Some(l) => seq![LAYOUT_PREFIX@ + l + LABEL_OPEN@ + spec_family_label(l) + LABEL_CLOSE@],
            None => seq![],
        }
        + line_if(g.element_primitives@.len() > 0, ELEMENTS_PREFIX@ + spec_join(views(g.element_primitives@), LIST_SEPARATOR@) + ELEMENTS_SUFFIX@)
        + line_if(rules.len() > 0, RULES_PREFIX@ + spec_join(rules.take(n as int), RULES_SEPARATOR@))
}

/// `prefix + rest` as a new string.
fn concat2(prefix: &str, rest: &str) -> (r: String)
    ensures
        r@ == prefix@ + rest@,
{
    let mut r = owned(prefix);
    r.append(rest);
    r
}

/// `prefix + middle + suffix` as a new string.
fn concat3(prefix: &str, middle: &str, suffix: &str) -> (r: String)
    ensures
        r@ == prefix@ + middle@ + suffix@,
{
    let mut r = owned(prefix);
    r.append(middle);
    r.append(suffix);
    r
}

impl StyleGuide {
    /// The compact style prompt: one line per present part, joined by
    /// newlines.
    pub fn build_style_prompt(&self, layout_family: Option<&str>) -> (r: String)
        ensures
            r@ == spec_join(style_prompt_lines(*self, match layout_family {
                Some(l) => Some(l@),
                None => None,
            }), NEWLINE@),
    {
        let ghost lf = match layout_family {
            Some(l) => Some(l@),
            None => None::<Seq<char>>,
        };
        let mut lines: Vec<String> = Vec::new();
        let ghost mut expect: Seq<Seq<char>> = seq![];
        if !self.prompt_anchor.as_str().is_empty() {
            push_string(&mut lines, concat2(ANCHOR_PREFIX, self.prompt_anchor.as_str()));
        }
        proof {
            expect = line_if(self.prompt_anchor@.len() > 0, ANCHOR_PREFIX@ + self.prompt_anchor@);
            assert(views(lines@) =~= expect);
        }
        if !self.style_core.background_tone.as_str().is_empty() {
            push_string(&mut lines, concat2(BACKGROUND_PREFIX, self.style_core.background_tone.as_str()));
        }
        proof {
            expect = expect + line_if(
                self.style_core.background_tone@.len() > 0,
                BACKGROUND_PREFIX@ + self.style_core.background_tone@,
            );
            assert(views(lines@) =~= expect);
        }
        if self.style_core.palette.len() > 0 {
            let joined = join_strings(self.style_core.palette.as_slice(), LIST_SEPARATOR);
            push_string(&mut lines, concat2(PALETTE_PREFIX, joined.as_str()));
        }
        proof {
            expect = expect + line_if(
                self.style_core.palette@.len() > 0,
                PALETTE_PREFIX@ + spec_join(views(self.style_core.palette@), LIST_SEPARATOR@),
            );
            assert(views(lines@) =~= expect);
        }
        match layout_family {
            Some(layout) => {
                let label = get_layout_family_label(layout);
                let mut line = concat3(LAYOUT_PREFIX, layout, LABEL_OPEN);
                line.append(label);
                line.append(LABEL_CLOSE);
                push_string(&mut lines, line);
            },
            None => {},
        }
        proof {
            expect = expect + match lf {
                Some(l) => seq![LAYOUT_PREFIX@ + l + LABEL_OPEN@ + spec_family_label(l) + LABEL_CLOSE@],
                None => seq![],
            };
            assert(views(lines@) =~= expect);
        }
        if self.element_primitives.len() > 0 {
            let joined = join_strings(self.element_primitives.as_slice(), LIST_SEPARATOR);
            push_string(&mut lines, concat3(ELEMENTS_PREFIX, joined.as_str(), ELEMENTS_SUFFIX));
        }
        proof {
            expect = expect + line_if(
                self.element_primitives@.len() > 0,
                ELEMENTS_PREFIX@ + spec_join(views(self.element_primitives@), LIST_SEPARATOR@) + ELEMENTS_SUFFIX@,
            );
            assert(views(lines@) =~= expect);
        }
        let nrules = self.negative_rules.len();
        if nrules > 0 {
            let n = if nrules < 3 { nrules } else { 3 };
            let joined = join_prefix(self.negative_rules.as_slice(), n, RULES_SEPARATOR);
            push_string(&mut lines, concat2(RULES_PREFIX, joined.as_str()));
        }
        proof {
            let rules = views(self.negative_rules@);
            let n = if rules.len() < 3 { rules.len() } else { 3 };
            expect = expect + line_if(rules.len() > 0, RULES_PREFIX@ + spec_join(rules.take(n as int), RULES_SEPARATOR@));
            assert(views(lines@) =~= expect);
            assert(expect =~= style_prompt_lines(*self, lf));
        }
        join_strings(lines.as_slice(), NEWLINE)
    }
}

} // verus!
