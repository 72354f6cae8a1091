use icarus_editor::catalog::Catalog;
use icarus_editor::json::JsonValue;
use icarus_editor::levels::{check_points, spent_points, spent_points_checked, LevelEstimate, SpentPoints};
use icarus_editor::model::{Category, CharacterSave, ResolvedTalent, RewardInfo, TalentEntry};
use icarus_editor::sync::rewards_ready;
use icarus_editor::unlock::{
    lock_all, lock_all_ready, lock_ready, locked_prerequisites, requirements_met, set_talent_cascading,
    unlock_all_ready, unlock_ready, unlocked_dependents,
};

fn talent(name: &str, category: Category, reqs: &[&str], tiers: usize, archetype: &str) -> ResolvedTalent {
    ResolvedTalent {
        name: name.to_string(),
        display_name: name.to_string(),
        description: String::new(),
        icon: None,
        icon_file: None,
        tree: "Tree".to_string(),
        tree_display_name: "Tree".to_string(),
        archetype: archetype.to_string(),
        archetype_display_name: String::new(),
        category,
        position: (0, 0),
        size: (64, 64),
        required_talents: reqs.iter().map(|r| r.to_string()).collect(),
        required_rank: None,
        required_level: 0,
        required_flags: vec![],
        forbidden_flags: vec![],
        rewards: (0..tiers).map(|_| RewardInfo { granted_stats: vec![], granted_flags: vec![] }).collect(),
        default_unlocked: false,
        draw_method: "Unspecified".to_string(),
        source_table: "D_Talents".to_string(),
    }
}

/// `Empty` has no reward tier; `Needs` requires it; `Free` stands alone.
fn catalog() -> Catalog {
    Catalog::new(
        vec![
            talent("Empty", Category::Talent, &[], 0, ""),
            talent("Needs", Category::Talent, &["Empty"], 1, ""),
            talent("Free", Category::Talent, &[], 2, ""),
            talent("Lone", Category::Talent, &[], 1, "Solo"),
            talent("Plan", Category::Blueprint, &[], 1, ""),
        ],
        vec![],
        vec![],
    )
}

fn character(talents: &[(&str, i64)]) -> CharacterSave {
    CharacterSave {
        character_name: "Ana".to_string(),
        chr_slot: 0,
        xp: 0,
        xp_debt: 0,
        is_dead: false,
        is_abandoned: false,
        last_prospect_id: None,
        location: None,
        unlocked_flags: vec![],
        meta_resources: vec![],
        cosmetic: JsonValue::Null,
        talents: talents.iter().map(|(n, r)| TalentEntry { row_name: n.to_string(), rank: *r }).collect(),
        time_last_played: 0,
        extra: vec![],
    }
}

fn names(c: &CharacterSave) -> Vec<String> {
    c.talents.iter().map(|e| e.row_name.clone()).collect()
}

#[test]
fn held_rows_without_tiers_are_not_ready() {
    let cat = catalog();
    assert!(rewards_ready(&character(&[("Free", 1), ("Unknown", 3)]), &cat));
    assert!(!rewards_ready(&character(&[("Free", 1), ("Empty", 1)]), &cat));
}

#[test]
fn unlocking_through_a_row_without_tiers_is_not_ready() {
    let cat = catalog();
    let c = character(&[]);
    assert!(unlock_ready(&c, &cat, "Free"));
    assert!(!unlock_ready(&c, &cat, "Needs"));
    assert!(!unlock_ready(&c, &cat, "Empty"));
    assert!(unlock_all_ready(&c, &cat, &[2]));
    assert!(!unlock_all_ready(&c, &cat, &[1, 2]));
}

#[test]
fn locking_away_a_row_without_tiers_is_ready() {
    let cat = catalog();
    let c = character(&[("Empty", 1), ("Needs", 1), ("Free", 1)]);
    assert!(lock_ready(&c, &cat, "Empty"));
    assert!(!lock_ready(&c, &cat, "Free"));
    assert!(lock_all_ready(&c, &cat, &[0]));
    assert!(!lock_all_ready(&c, &cat, &[2]));
}

#[test]
fn locking_removes_the_row_without_tiers_and_its_dependents() {
    let cat = catalog();
    let mut c = character(&[("Empty", 1), ("Needs", 1), ("Free", 1)]);
    set_talent_cascading(&mut c, &cat, "Empty", false);
    assert_eq!(names(&c), vec!["Free".to_string()]);
    let mut d = character(&[("Empty", 1), ("Needs", 1), ("Free", 2)]);
    lock_all(&mut d, &cat, &[0]);
    assert_eq!(names(&d), vec!["Free".to_string()]);
}

#[test]
fn spent_points_per_pool() {
    let cat = catalog();
    let talents = character(&[("Free", 2), ("Lone", 0), ("Plan", 5), ("Unknown", 9)]).talents;
    let p = spent_points(&cat, &talents);
    assert_eq!((p.talent, p.solo, p.blueprint), (2, 1, 1));
    let q = spent_points_checked(&cat, &talents).expect("fits");
    assert_eq!((q.talent, q.solo, q.blueprint), (2, 1, 1));
}

#[test]
fn spent_points_that_overflow_are_refused() {
    let cat = catalog();
    let talents = character(&[("Free", i64::MAX), ("Needs", 1)]).talents;
    assert!(spent_points_checked(&cat, &talents).is_none());
    let talents = character(&[("Free", i64::MAX)]).talents;
    assert!(spent_points_checked(&cat, &talents).is_some());
}

#[test]
fn edits_keep_the_other_fields() {
    let cat = catalog();
    let mut c = character(&[("Free", 1)]);
    c.xp = 1234;
    c.location = Some("Olympus".to_string());
    c.extra = vec![("Keep".to_string(), JsonValue::Bool(true))];
    set_talent_cascading(&mut c, &cat, "Free", false);
    lock_all(&mut c, &cat, &[2]);
    assert_eq!(c.character_name, "Ana");
    assert_eq!(c.xp, 1234);
    assert_eq!(c.location.as_deref(), Some("Olympus"));
    assert_eq!(c.extra.len(), 1);
    assert_eq!(c.extra[0].0, "Keep");
    assert!(matches!(c.extra[0].1, JsonValue::Bool(true)));
}

#[test]
fn a_cascading_lock_leaves_no_dependents() {
    let cat = catalog();
    let mut c = character(&[("Empty", 1), ("Needs", 1), ("Free", 1)]);
    set_talent_cascading(&mut c, &cat, "Empty", false);
    assert!(unlocked_dependents(&c, &cat, "Empty").is_empty());
    let mut d = character(&[("Empty", 1), ("Needs", 1)]);
    lock_all(&mut d, &cat, &[0, 2]);
    assert!(unlocked_dependents(&d, &cat, "Empty").is_empty());
    assert!(unlocked_dependents(&d, &cat, "Free").is_empty());
}

#[test]
fn no_locked_prerequisites_means_requirements_met() {
    let cat = catalog();
    let without = character(&[]);
    assert!(!locked_prerequisites(&without, &cat, 1).is_empty());
    assert!(!requirements_met(&without, &cat, 1));
    let with = character(&[("Empty", 1)]);
    assert!(locked_prerequisites(&with, &cat, 1).is_empty());
    assert!(requirements_met(&with, &cat, 1));
}

#[test]
fn spent_points_ignore_entry_order() {
    let cat = catalog();
    let a = character(&[("Free", 2), ("Lone", 3), ("Plan", 1)]).talents;
    let b = character(&[("Plan", 1), ("Free", 2), ("Lone", 3)]).talents;
    let (p, q) = (spent_points(&cat, &a), spent_points(&cat, &b));
    assert_eq!((p.talent, p.solo, p.blueprint), (q.talent, q.solo, q.blueprint));
    assert_eq!((p.talent, p.solo, p.blueprint), (2, 3, 1));
}

/// `Top` requires `B` then `A`; `B` requires `C`.
fn chain() -> Catalog {
    Catalog::new(
        vec![
            talent("A", Category::Talent, &[], 1, ""),
            talent("C", Category::Talent, &[], 1, ""),
            talent("B", Category::Talent, &["C"], 1, ""),
            talent("Top", Category::Talent, &["B", "A"], 1, ""),
        ],
        vec![],
        vec![],
    )
}

#[test]
fn prerequisites_come_depth_first() {
    let cat = chain();
    let c = character(&[]);
    assert_eq!(locked_prerequisites(&c, &cat, 3), vec![2, 1, 0]);
    let mut d = character(&[]);
    set_talent_cascading(&mut d, &cat, "Top", true);
    assert_eq!(names(&d), vec!["Top".to_string(), "B".to_string(), "C".to_string(), "A".to_string()]);
}

#[test]
fn dependents_come_depth_first() {
    let cat = chain();
    let c = character(&[("A", 1), ("B", 1), ("C", 1), ("Top", 1)]);
    assert_eq!(unlocked_dependents(&c, &cat, "C"), vec![2, 3]);
}

#[test]
fn spent_points_are_checked_against_the_level() {
    let est = LevelEstimate { level: 20, talent_points: 30, blueprint_points: 10, solo_points: 2 };
    let within = check_points(&est, &SpentPoints { talent: 30, solo: 2, blueprint: 10 });
    assert!(!within.talent_over && !within.talent_bonus && !within.solo_over && !within.blueprint_over);
    let bonus = check_points(&est, &SpentPoints { talent: 50, solo: 3, blueprint: 11 });
    assert!(!bonus.talent_over && bonus.talent_bonus && bonus.solo_over && bonus.blueprint_over);
    let over = check_points(&est, &SpentPoints { talent: 51, solo: 0, blueprint: 0 });
    assert!(over.talent_over && !over.talent_bonus);
}
