use icarus_editor::browser::{
    click_action, confirm_message, effect_tier, filtered_items, passes_filters, progress_pct, rank_badge,
    requirement_names, requirement_text, starts_open, tree_icon_file, tree_sections, unlocked_count,
    ClickAction,
};
use icarus_editor::catalog::Catalog;
use icarus_editor::json::JsonValue;
use icarus_editor::model::{
    Category, CharacterSave, RequirementRef, ResolvedTalent, ResolvedTree, RewardInfo, TalentEntry,
};

fn talent(name: &str, display: &str, tree: &str, category: Category, reqs: &[&str], ranks: usize) -> ResolvedTalent {
    ResolvedTalent {
        name: name.to_string(),
        display_name: display.to_string(),
        description: format!("About {display}"),
        icon: None,
        icon_file: None,
        tree: tree.to_string(),
        tree_display_name: tree.to_string(),
        archetype: String::new(),
        archetype_display_name: String::new(),
        category,
        position: (0, 0),
        size: (64, 64),
        required_talents: reqs.iter().map(|r| r.to_string()).collect(),
        required_rank: None,
        required_level: 0,
        required_flags: vec![],
        forbidden_flags: vec![],
        rewards: (0..ranks).map(|_| RewardInfo { granted_stats: vec![], granted_flags: vec![] }).collect(),
        default_unlocked: false,
        draw_method: "Unspecified".to_string(),
        source_table: "D_Talents".to_string(),
    }
}

fn catalog() -> Catalog {
    Catalog::new(
        vec![
            talent("Base", "Base Skill", "Bows", Category::Talent, &[], 1),
            talent("Link", "", "Bows", Category::Connector, &["Base", "Other"], 1),
            talent("Other", "Another Skill", "Bows", Category::Talent, &[], 1),
            talent("Top", "Top Skill", "Bows", Category::Talent, &["Link", "Base", "Blueprint_T1_Ghost"], 3),
            talent("Axe", "Stone Axe", "Blueprint_T1_Tools", Category::Blueprint, &[], 1),
            talent("Bench", "Workbench", "Workshop_Gear", Category::Workshop, &[], 1),
        ],
        vec![],
        vec![],
    )
}

fn character(talents: &[(&str, i64)]) -> CharacterSave {
    CharacterSave {
        character_name: "Ana".to_string(),
        chr_slot: 0,
        xp: 0,
        xp_debt: 0,
        is_dead: false,
        is_abandoned: false,
        last_prospect_id: None,
        location: None,
        unlocked_flags: vec![],
        meta_resources: vec![],
        cosmetic: JsonValue::Null,
        talents: talents.iter().map(|(n, r)| TalentEntry { row_name: n.to_string(), rank: *r }).collect(),
        time_last_played: 0,
        extra: vec![],
    }
}

#[test]
fn requirement_names_expand_connectors_sorted_and_unique() {
    let c = catalog();
    assert_eq!(
        requirement_names(&c, 3),
        vec!["Another Skill".to_string(), "Base Skill".to_string(), "Tier 1 Ghost".to_string()]
    );
    assert!(requirement_names(&c, 0).is_empty());
}

#[test]
fn requirement_line_joins_present_parts() {
    let names = vec!["A".to_string(), "B".to_string()];
    let rank = Some(RequirementRef { row: "Rank_2".to_string(), display_name: "Veteran".to_string() });
    assert_eq!(requirement_text(&rank, 12, &names), "Rank: Veteran  \u{b7}  Level 12  \u{b7}  Requires: A, B");
    assert_eq!(requirement_text(&None, 0, &[]), "");
    assert_eq!(requirement_text(&None, 3, &[]), "Level 3");
}

#[test]
fn confirmation_lists_at_most_six_names() {
    let few: Vec<String> = ["A", "B"].iter().map(|s| s.to_string()).collect();
    assert_eq!(confirm_message(true, &few), "This needs 2 locked prerequisite(s): A, B");
    let many: Vec<String> = (1..=8).map(|i| format!("N{i}")).collect();
    assert_eq!(
        confirm_message(false, &many),
        "8 unlocked item(s) depend on this: N1, N2, N3, N4, N5, N6, \u{2026} and 2 more"
    );
}

#[test]
fn clicks_walk_the_rank_cycle() {
    let c = catalog();
    let locked = character(&[("Base", 1), ("Other", 1), ("Link", 1)]);
    assert!(matches!(click_action(&locked, &c, 3, true), ClickAction::Dismiss));
    assert!(matches!(click_action(&locked, &c, 3, false), ClickAction::Unlock));
    let rank1 = character(&[("Base", 1), ("Other", 1), ("Top", 1)]);
    assert!(matches!(click_action(&rank1, &c, 3, false), ClickAction::RaiseRank(2)));
    let top = character(&[("Base", 1), ("Other", 1), ("Top", 3)]);
    assert!(matches!(click_action(&top, &c, 3, false), ClickAction::Lock));
}

#[test]
fn clicks_ask_before_touching_other_talents() {
    let c = catalog();
    let empty = character(&[]);
    match click_action(&empty, &c, 3, false) {
        ClickAction::ConfirmUnlock(mut names) => {
            names.sort();
            assert_eq!(names, vec!["Another Skill".to_string(), "Base Skill".to_string()]);
        }
        _ => panic!("expected a question"),
    }
    let held = character(&[("Base", 1), ("Other", 1), ("Top", 1)]);
    match click_action(&held, &c, 0, false) {
        ClickAction::ConfirmLock(names) => assert_eq!(names, vec!["Top Skill".to_string()]),
        _ => panic!("expected a question"),
    }
}

#[test]
fn filters_and_sections_agree() {
    let c = catalog();
    assert!(passes_filters::<CharacterSave>(c.talent(0), None, "base"));
    assert!(passes_filters::<CharacterSave>(c.talent(0), Some(Category::Talent), "about base"));
    assert!(!passes_filters::<CharacterSave>(c.talent(0), Some(Category::Blueprint), ""));
    assert!(!passes_filters::<CharacterSave>(c.talent(5), None, ""));
    assert_eq!(filtered_items::<CharacterSave>(&c, "Bows", None, "skill"), vec![0, 2, 3]);
    let sections = tree_sections::<CharacterSave>(&c, None, "");
    assert_eq!(
        sections,
        vec![
            ("Blueprint_T1_Tools".to_string(), "Tier 1 Tools".to_string()),
            ("Bows".to_string(), "Bows".to_string()),
        ]
    );
    assert!(tree_sections::<CharacterSave>(&c, Some(Category::Workshop), "").is_empty());
}

#[test]
fn section_progress() {
    let c = catalog();
    let ch = character(&[("Base", 1), ("Top", 2)]);
    let items = filtered_items::<CharacterSave>(&c, "Bows", None, "");
    assert_eq!(unlocked_count(&ch, &c, &items), 2);
    assert_eq!(items.len(), 3);
    assert_eq!(progress_pct(2, items.len()), 66);
    assert_eq!(progress_pct(1, 3), 33);
    assert_eq!(progress_pct(0, 0), 0);
    assert!(starts_open(12));
    assert!(!starts_open(13));
}

#[test]
fn card_tier_and_badge() {
    assert_eq!(effect_tier(None, 3), 0);
    assert_eq!(effect_tier(Some(2), 3), 1);
    assert_eq!(effect_tier(Some(9), 3), 2);
    assert_eq!(effect_tier(Some(-4), 3), 0);
    assert_eq!(rank_badge(Some(2), 3), "2 / 3");
    assert_eq!(rank_badge(None, 3), "0 / 3");
}

#[test]
fn shared_tree_icons_fall_back_to_a_row_icon() {
    let mut c_talents = vec![
        talent("A", "A", "Workshop_A", Category::Workshop, &[], 1),
        talent("B", "B", "Workshop_A", Category::Workshop, &[], 1),
    ];
    c_talents[1].icon_file = Some("b.png".to_string());
    let c = Catalog::new(c_talents, vec![], vec![]);
    let tree = |name: &str, file: Option<&str>| ResolvedTree {
        name: name.to_string(),
        display_name: name.to_string(),
        icon: None,
        icon_file: file.map(|f| f.to_string()),
        archetype: String::new(),
    };
    let trees = vec![
        tree("Workshop_A", Some("pick.png")),
        tree("Workshop_B", Some("pick.png")),
        tree("Workshop_C", Some("pick.png")),
        tree("Bows", Some("bow.png")),
    ];
    assert_eq!(tree_icon_file(&trees, &c, "Workshop_A", &[0, 1]), Some("b.png".to_string()));
    assert_eq!(tree_icon_file(&trees, &c, "Bows", &[0, 1]), Some("bow.png".to_string()));
    assert_eq!(tree_icon_file(&trees, &c, "Unknown", &[0]), None);
}
