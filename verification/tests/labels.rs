use icarus_editor::labels::{prettify_row_name, replace_all, stat_label};

#[test]
fn prettify_spells_out_tiers() {
    assert_eq!(prettify_row_name("Blueprint_T1_Player"), "Tier 1 Player");
    assert_eq!(prettify_row_name("GrantedBlueprint_T5_Rifle"), "Tier 5 Rifle");
}

#[test]
fn prettify_splits_camel_case_and_underscores() {
    assert_eq!(prettify_row_name("Talent_BowReloadSpeed"), "Bow Reload Speed");
    assert_eq!(prettify_row_name("Mission__Double__Gap"), "Double Gap");
    assert_eq!(prettify_row_name("Level2Boost"), "Level2 Boost");
    assert_eq!(prettify_row_name("_Leading"), "Leading");
    assert_eq!(prettify_row_name("ABC"), "ABC");
}

#[test]
fn prettify_strips_one_prefix_and_every_tooltip_suffix() {
    assert_eq!(prettify_row_name("GrantedTalent_Talent_Foo"), "Talent Foo");
    assert_eq!(prettify_row_name("NPC_Trader_TooltipOnly_TooltipOnly"), "Trader");
    assert_eq!(prettify_row_name(""), "");
}

#[test]
fn stat_labels_drop_percent_suffix_and_base_prefix() {
    assert_eq!(stat_label("BaseBowReloadSpeed_+%"), ("Bow Reload Speed".to_string(), true));
    assert_eq!(stat_label("BaseStamina_%"), ("Stamina".to_string(), true));
    assert_eq!(stat_label("MaxHealth"), ("Max Health".to_string(), false));
}

#[test]
fn replace_all_is_left_to_right_and_not_overlapping() {
    assert_eq!(replace_all("aaaa", "aa", "b"), "bb");
    assert_eq!(replace_all("T1T1x", "T1", "Tier 1"), "Tier 1Tier 1x");
    assert_eq!(replace_all("none here", "zz", "y"), "none here");
}
