use std::collections::HashMap;
use ppt_maker::style_guide::{AdherenceLevel, StyleGuide};
use ppt_maker::layout_assigner::LayoutAssigner;
use ppt_maker::guide_markdown::parse_style_guide_from_markdown;

#[test]
fn test_adherence_level_from_str() {
    assert_eq!(AdherenceLevel::from_str("loose"), AdherenceLevel::Loose);
    assert_eq!(AdherenceLevel::from_str("宽松"), AdherenceLevel::Loose);
    assert_eq!(AdherenceLevel::from_str("balanced"), AdherenceLevel::Balanced);
    assert_eq!(AdherenceLevel::from_str("适度"), AdherenceLevel::Balanced);
    assert_eq!(AdherenceLevel::from_str("strict"), AdherenceLevel::Strict);
    assert_eq!(AdherenceLevel::from_str("严格"), AdherenceLevel::Strict);
    assert_eq!(AdherenceLevel::from_str("unknown"), AdherenceLevel::Balanced);
}

#[test]
fn test_layout_assigner() {
    let guide = StyleGuide::default();
    let assigner = LayoutAssigner::new(&guide);

    let assignments = assigner.assign(5, None);

    for i in 2..=5 {
        let prev = assignments.get(&(i - 1));
        let curr = assignments.get(&i);
        assert_ne!(prev, curr, "Page {} and {} should have different layouts", i - 1, i);
    }
}

#[test]
fn test_parse_style_guide() {
    let markdown = r#"
# 商务风格

## 配色
- 主色：深海蓝 (#1E3A5F)
- 强调色：科技青 (#00B8D9)

## 背景基调
浅灰白底色

## 风格锚点
统一使用深海蓝为主色调

## 禁止规则
- 不要使用复杂背景
- 不要突然断裂
"#;

    let guide = parse_style_guide_from_markdown(markdown);

    assert!(guide.style_core.background_tone.contains("浅灰白"));
    assert!(guide.prompt_anchor.contains("深海蓝"));
    assert_eq!(guide.negative_rules.len(), 2);
}

#[test]
fn adherence_levels_are_case_insensitive() {
    assert_eq!(AdherenceLevel::from_str("STRICT"), AdherenceLevel::Strict);
    assert_eq!(AdherenceLevel::from_str("Loose"), AdherenceLevel::Loose);
    assert_eq!(AdherenceLevel::Strict.label(), "严格");
}

#[test]
fn every_page_gets_a_family_and_neighbours_differ() {
    let guide = StyleGuide::default();
    let assigner = LayoutAssigner::new(&guide);
    let n = 12u32;
    let a = assigner.assign(n, None);
    assert_eq!(a.len(), n as usize);
    for p in 2..=n {
        assert_ne!(a.get(&p), a.get(&(p - 1)));
    }
    assert_eq!(a.get(&1), Some(&guide.layout_families[0]));
    let distinct: std::collections::HashSet<&String> = a.values().collect();
    assert!(distinct.len() >= 3);
}

#[test]
fn short_decks_follow_the_default_policy() {
    let guide = StyleGuide::default();
    let assigner = LayoutAssigner::new(&guide);
    let two = assigner.assign(2, None);
    assert_ne!(two.get(&1), two.get(&2));
    let three = assigner.assign(3, None);
    let distinct: std::collections::HashSet<&String> = three.values().collect();
    assert_eq!(distinct.len(), 3);
}

#[test]
fn the_last_page_takes_the_first_family_when_the_policy_allows() {
    let guide = StyleGuide::default();
    let a = LayoutAssigner::new(&guide).assign(5, None);
    let got: Vec<&str> = (1..=5u32).map(|p| a.get(&p).unwrap().as_str()).collect();
    assert_eq!(got, vec!["grid_n_x_m", "timeline_horizontal", "timeline_vertical", "hub_and_spoke", "grid_n_x_m"]);
}

#[test]
fn the_last_page_may_repeat_when_runs_of_two_are_allowed() {
    let mut guide = StyleGuide::default();
    guide.layout_families = vec!["a".to_string(), "b".to_string()];
    guide.variation_policy.same_layout_max_repeat = 2;
    let a = LayoutAssigner::new(&guide).assign(3, None);
    assert_eq!(a.get(&1).unwrap(), "a");
    assert_eq!(a.get(&2).unwrap(), "b");
    assert_eq!(a.get(&3).unwrap(), "a");
    let a = LayoutAssigner::new(&guide).assign(2, None);
    assert_eq!(a.get(&2).unwrap(), "b");
    guide.variation_policy.min_distinct_layout_families = 1;
    let a = LayoutAssigner::new(&guide).assign(2, None);
    assert_eq!(a.get(&1).unwrap(), "a");
    assert_eq!(a.get(&2).unwrap(), "a");
}

#[test]
fn two_families_alternate() {
    let mut guide = StyleGuide::default();
    guide.layout_families = vec!["a".to_string(), "b".to_string()];
    let a = LayoutAssigner::new(&guide).assign(4, None);
    assert_eq!(a.get(&1).unwrap(), "a");
    assert_eq!(a.get(&2).unwrap(), "b");
    assert_eq!(a.get(&3).unwrap(), "a");
    assert_eq!(a.get(&4).unwrap(), "b");
}

#[test]
fn existing_assignments_are_kept_until_a_run_is_too_long() {
    let mut guide = StyleGuide::default();
    guide.layout_families = vec!["a".to_string(), "b".to_string(), "c".to_string()];
    guide.variation_policy.min_distinct_layout_families = 0;
    let mut existing = HashMap::new();
    existing.insert(1u32, "c".to_string());
    existing.insert(2u32, "c".to_string());
    existing.insert(9u32, "z".to_string());
    let a = LayoutAssigner::new(&guide).assign(3, Some(&existing));
    assert_eq!(a.get(&1).unwrap(), "c");
    // the second "c" makes a run of two, longer than one allows
    assert_eq!(a.get(&2).unwrap(), "a");
    assert_eq!(a.get(&9).unwrap(), "z");
    assert_eq!(a.len(), 4);
}

#[test]
fn without_families_pages_fall_back_to_grid() {
    let mut guide = StyleGuide::default();
    guide.layout_families = Vec::new();
    let a = LayoutAssigner::new(&guide).assign(2, None);
    assert_eq!(a.get(&1).unwrap(), "grid_n_x_m");
    assert_eq!(a.get(&2).unwrap(), "grid_n_x_m");
}

#[test]
fn style_prompt_mentions_anchor_and_palette() {
    let mut guide = StyleGuide::default();
    guide.prompt_anchor = "蓝色基调".to_string();
    let prompt = guide.build_style_prompt(None);
    assert!(prompt.contains("统一视觉锚点：蓝色基调"));
    assert!(prompt.contains("建议配色："));
}
