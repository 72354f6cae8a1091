use icarus_editor::json::{JsonNumber, JsonValue};
use icarus_editor::model::Category;
use icarus_editor::resolve::{
    classify, icon_file_for, icon_paths, non_empty, resolve_account_flags, resolve_all_talents,
    resolve_currencies, resolve_ranks, resolve_talent, resolve_trees, Tables,
};
use icarus_editor::table::{
    bool_field, handle_row_name, i64_field, nsloctext, opt_str, sanitize, stat_key, text_field,
    unescape_text_literal, DataTable,
};

fn s(v: &str) -> JsonValue {
    JsonValue::String(v.to_string())
}

fn n(v: i64) -> JsonValue {
    if v >= 0 {
        JsonValue::Number(JsonNumber::PosInt(v as u64))
    } else {
        JsonValue::Number(JsonNumber::NegInt(v))
    }
}

fn obj(members: Vec<(&str, JsonValue)>) -> JsonValue {
    JsonValue::Object(members.into_iter().map(|(k, v)| (k.to_string(), v)).collect())
}

fn handle(row: &str, table: &str) -> JsonValue {
    obj(vec![("RowName", s(row)), ("DataTableName", s(table))])
}

fn table(defaults: JsonValue, rows: Vec<JsonValue>) -> DataTable {
    DataTable::from_document(&obj(vec![("Defaults", defaults), ("Rows", JsonValue::Array(rows))]))
}

fn empty_table() -> DataTable {
    table(JsonValue::Null, vec![])
}

fn empty_tables() -> Tables {
    Tables {
        talents: empty_table(),
        trees: empty_table(),
        archetypes: empty_table(),
        ranks: empty_table(),
        itemable: empty_table(),
        workshop_items: empty_table(),
        item_template: empty_table(),
        items_static: empty_table(),
        outposts: empty_table(),
        prospect_list: empty_table(),
        great_hunts: empty_table(),
        settlement_buildings: empty_table(),
        character_flags: empty_table(),
        session_flags: empty_table(),
        account_flags: empty_table(),
        currencies: empty_table(),
    }
}

#[test]
fn sanitize_repairs_bogus_apostrophe_escapes() {
    assert_eq!(sanitize(r#"{"a": "It\'s"}"#), r#"{"a": "It's"}"#);
}

#[test]
fn sanitize_keeps_escaped_backslash_before_apostrophe() {
    assert_eq!(sanitize(r#""C:\\'dir""#), r#""C:\\'dir""#);
}

#[test]
fn sanitize_keeps_valid_escapes_and_unicode() {
    assert_eq!(sanitize(r#""\n\t\"\/\u00e9x""#), r#""\n\t\"\/\u00e9x""#);
    assert_eq!(sanitize(r"\x"), "x");
    assert_eq!(sanitize("end\\"), "end\\");
    assert_eq!(sanitize(r"\u12"), r"\u12");
}

#[test]
fn unescape_resolves_c_escapes() {
    assert_eq!(unescape_text_literal(r#"say \"hi\"\nnow\tok \'x\' \\"#), "say \"hi\"\nnow\tok 'x' \\");
    assert_eq!(unescape_text_literal("tail\\"), "tail\\");
}

#[test]
fn nsloctext_extracts_the_text() {
    assert_eq!(
        nsloctext(r#"NSLOCTEXT("Talents", "Key_1", "Bow Damage \"Up\"")"#),
        "Bow Damage \"Up\""
    );
    assert_eq!(nsloctext(r#"  INVTEXT("[DNT] Internal")  "#), "Internal");
    assert_eq!(nsloctext("Plain text"), "Plain text");
    assert_eq!(nsloctext("None"), "None");
    assert_eq!(nsloctext(""), "");
}

#[test]
fn stat_key_unwraps_value_keys() {
    assert_eq!(stat_key(r#"(Value="BaseBowDamage_+%")"#), "BaseBowDamage_+%");
    assert_eq!(stat_key("BaseBowDamage_+%"), "BaseBowDamage_+%");
}

#[test]
fn find_merges_the_row_over_defaults() {
    let t = table(
        obj(vec![("Icon", s("")), ("RequiredLevel", n(3)), ("bDefaultUnlocked", JsonValue::Bool(false))]),
        vec![
            obj(vec![("Name", s("A")), ("RequiredLevel", n(7))]),
            obj(vec![("Name", s("B")), ("Icon", s("Texture2D'/Game/Icons/B.B'"))]),
        ],
    );
    let a = t.find("A").expect("row A");
    assert_eq!(i64_field(&a, "RequiredLevel"), 7);
    assert!(!bool_field(&a, "bDefaultUnlocked"));
    assert_eq!(opt_str(&a, "Icon"), None);
    let b = t.find("B").expect("row B");
    assert_eq!(i64_field(&b, "RequiredLevel"), 3);
    assert_eq!(opt_str(&b, "Icon"), Some("/Game/Icons/B.B".to_string()));
    assert!(t.find("C").is_none());
}

#[test]
fn find_returns_the_first_row_of_a_name() {
    let t = table(
        JsonValue::Null,
        vec![obj(vec![("Name", s("A")), ("X", n(1))]), obj(vec![("Name", s("A")), ("X", n(2))])],
    );
    let a = t.find("A").expect("row A");
    assert_eq!(i64_field(&a, "X"), 1);
}

#[test]
fn field_readers_fall_back() {
    let row = obj(vec![
        ("Text", s(r#"INVTEXT("Hello")"#)),
        ("Handle", handle("None", "D_Talents")),
        ("Other", handle("Row_1", "D_Talents")),
        ("Big", JsonValue::Number(JsonNumber::PosInt(u64::MAX))),
        ("Neg", n(-5)),
        ("Flag", JsonValue::Bool(true)),
    ]);
    assert_eq!(text_field(&row, "Text"), "Hello");
    assert_eq!(text_field(&row, "Missing"), "");
    assert_eq!(handle_row_name(&row, "Handle"), None);
    assert_eq!(handle_row_name(&row, "Other"), Some("Row_1".to_string()));
    assert_eq!(i64_field(&row, "Big"), 0);
    assert_eq!(i64_field(&row, "Neg"), -5);
    assert!(bool_field(&row, "Flag"));
    assert!(!bool_field(&row, "Text"));
}

#[test]
fn classify_goes_by_archetype() {
    assert_eq!(classify("Blueprint_Tier1", true), Category::Blueprint);
    assert_eq!(classify("Workshop_Armor", true), Category::Workshop);
    assert_eq!(classify("Outpost", true), Category::Mission);
    assert_eq!(classify("GreatHunt_Quarrite", true), Category::Mission);
    assert_eq!(classify("Creature_Wolf", true), Category::Creature);
    assert_eq!(classify("Survival", true), Category::Talent);
    assert_eq!(classify("Blueprint_Tier1", false), Category::Connector);
}

#[test]
fn non_empty_drops_empty_text() {
    assert_eq!(non_empty(String::new()), None);
    assert_eq!(non_empty("x".to_string()), Some("x".to_string()));
}

fn sample_tables() -> Tables {
    let mut t = empty_tables();
    t.talents = table(
        obj(vec![("Icon", s("None"))]),
        vec![
            obj(vec![
                ("Name", s("Bow_Damage")),
                ("DisplayName", s(r#"NSLOCTEXT("T", "K", "Bow Damage")"#)),
                ("Description", s("More damage")),
                ("Icon", s("/Game/Icons/Bow.Bow")),
                ("TalentTree", handle("Bows", "D_TalentTrees")),
                ("RequiredTalents", JsonValue::Array(vec![handle("Bow_Base", "D_Talents")])),
                ("RequiredRank", handle("Rank_2", "D_TalentRanks")),
                ("RequiredLevel", n(5)),
                (
                    "RequiredFlags",
                    JsonValue::Array(vec![
                        handle("Flag_A", "D_CharacterFlags"),
                        obj(vec![("RowName", s("Flag_B")), ("DataTableName", s("D_AccountFlags"))]),
                    ]),
                ),
                (
                    "Rewards",
                    JsonValue::Array(vec![obj(vec![
                        ("GrantedStats", obj(vec![("(Value=\"BaseBowDamage_+%\")", n(5))])),
                        ("GrantedFlags", JsonValue::Array(vec![handle("Flag_A", "D_CharacterFlags")])),
                    ])]),
                ),
                ("Position", obj(vec![("X", n(10)), ("Y", n(-20))])),
                ("DrawMethodOverride", s("Circle")),
            ]),
            obj(vec![
                ("Name", s("Item_Node")),
                ("TalentTree", handle("Blueprint_T1_Player", "D_TalentTrees")),
                ("ExtraData", handle("Axe", "D_Itemable")),
            ]),
            obj(vec![("Name", s("Connector_1")), ("TalentTree", handle("Bows", "D_TalentTrees"))]),
            obj(vec![("NoName", n(1))]),
        ],
    );
    t.trees = table(
        JsonValue::Null,
        vec![
            obj(vec![
                ("Name", s("Bows")),
                ("DisplayName", s(r#"INVTEXT("Bows")"#)),
                ("Archetype", handle("Hunting", "D_TalentArchetypes")),
                ("Icon", s("/Game/Icons/Tree.Tree")),
            ]),
            obj(vec![("Name", s("Blueprint_T1_Player")), ("Archetype", handle("Blueprint_Player", "D_TalentArchetypes"))]),
        ],
    );
    t.archetypes = table(JsonValue::Null, vec![obj(vec![("Name", s("Hunting")), ("DisplayName", s("Hunting"))])]);
    t.ranks = table(
        JsonValue::Null,
        vec![obj(vec![("Name", s("Rank_2")), ("DisplayName", s("Veteran")), ("Investment", n(12))])],
    );
    t.itemable = table(
        JsonValue::Null,
        vec![obj(vec![
            ("Name", s("Axe")),
            ("DisplayName", s("Stone Axe")),
            ("Description", s("Chops")),
            ("Icon", s("/Game/Icons/Axe.Axe")),
        ])],
    );
    t.character_flags = table(
        JsonValue::Null,
        vec![obj(vec![("Name", s("Flag_A")), ("Description", s("Flag A text"))]), obj(vec![("X", n(0))])],
    );
    t.account_flags = table(JsonValue::Null, vec![obj(vec![("X", n(0))]), obj(vec![("Name", s("Flag_B"))])]);
    t.currencies = table(
        JsonValue::Null,
        vec![obj(vec![("Name", s("Credits")), ("Icon", s("/Game/Icons/Credit.Credit"))])],
    );
    t
}

#[test]
fn talent_resolves_through_its_tables() {
    let t = sample_tables();
    assert!(t.all_talent_icons_checked());
    let row = t.talents.find("Bow_Damage").expect("talent row");
    assert!(t.talent_icons_checked(&row));
    let r = resolve_talent(&t, "Bow_Damage", &row);
    assert_eq!(r.name, "Bow_Damage");
    assert_eq!(r.display_name, "Bow Damage");
    assert_eq!(r.description, "More damage");
    assert_eq!(r.icon.as_deref(), Some("/Game/Icons/Bow.Bow"));
    assert_eq!(r.tree, "Bows");
    assert_eq!(r.tree_display_name, "Bows");
    assert_eq!(r.archetype, "Hunting");
    assert_eq!(r.archetype_display_name, "Hunting");
    assert_eq!(r.category, Category::Talent);
    assert_eq!(r.position, (10, -20));
    assert_eq!(r.size, (64, 64));
    assert_eq!(r.required_talents, vec!["Bow_Base".to_string()]);
    let rank = r.required_rank.as_ref().expect("rank requirement");
    assert_eq!((rank.row.as_str(), rank.display_name.as_str()), ("Rank_2", "Veteran"));
    assert_eq!(r.required_level, 5);
    let flags: Vec<(&str, &str)> =
        r.required_flags.iter().map(|f| (f.row.as_str(), f.display_name.as_str())).collect();
    assert_eq!(flags, vec![("Flag_A", "Flag A text"), ("Flag_B", "Flag_B")]);
    assert!(r.forbidden_flags.is_empty());
    assert_eq!(r.rewards.len(), 1);
    assert_eq!(r.rewards[0].granted_stats.len(), 1);
    assert_eq!(r.rewards[0].granted_stats[0].0, "BaseBowDamage_+%");
    assert_eq!(r.rewards[0].granted_flags, vec!["Flag_A".to_string()]);
    assert!(!r.default_unlocked);
    assert_eq!(r.draw_method, "Circle");
    assert_eq!(r.source_table, "D_Talents");
    assert_eq!(r.icon_file, None);
}

#[test]
fn linked_item_supplies_display_data() {
    let t = sample_tables();
    let row = t.talents.find("Item_Node").expect("talent row");
    let r = resolve_talent(&t, "Item_Node", &row);
    assert_eq!(r.display_name, "Stone Axe");
    assert_eq!(r.description, "Chops");
    assert_eq!(r.icon.as_deref(), Some("/Game/Icons/Axe.Axe"));
    assert_eq!(r.source_table, "D_Itemable");
    assert_eq!(r.tree_display_name, "Blueprint_T1_Player");
    assert_eq!(r.archetype, "Blueprint_Player");
    assert_eq!(r.archetype_display_name, "Blueprint_Player");
    assert_eq!(r.category, Category::Blueprint);
    assert_eq!(r.draw_method, "Unspecified");
}

#[test]
fn row_without_display_data_is_a_connector() {
    let t = sample_tables();
    let row = t.talents.find("Connector_1").expect("talent row");
    let r = resolve_talent(&t, "Connector_1", &row);
    assert_eq!(r.category, Category::Connector);
    assert_eq!(r.display_name, "");
}

#[test]
fn settlement_hub_rows_are_settlement_nodes() {
    let mut t = sample_tables();
    t.talents = table(
        JsonValue::Null,
        vec![obj(vec![
            ("Name", s("Hub_Radius")),
            ("DisplayName", s("Radius")),
            ("TalentTree", handle("Settlement_Hub", "D_TalentTrees")),
        ])],
    );
    let row = t.talents.find("Hub_Radius").expect("talent row");
    assert_eq!(resolve_talent(&t, "Hub_Radius", &row).category, Category::Settlement);
}

#[test]
fn lists_resolve_in_table_order() {
    let t = sample_tables();
    let talents = resolve_all_talents(&t);
    let names: Vec<&str> = talents.iter().map(|x| x.name.as_str()).collect();
    assert_eq!(names, vec!["Bow_Damage", "Item_Node", "Connector_1"]);
    let trees = resolve_trees(&t);
    assert_eq!(trees.len(), 2);
    assert_eq!(trees[1].display_name, "Blueprint_T1_Player");
    assert_eq!(trees[1].archetype, "Blueprint_Player");
    let ranks = resolve_ranks(&t);
    assert_eq!((ranks[0].name.as_str(), ranks[0].display_name.as_str(), ranks[0].investment), ("Rank_2", "Veteran", 12));
    let flags = resolve_account_flags(&t);
    assert_eq!(flags.len(), 1);
    assert_eq!((flags[0].index, flags[0].name.as_str()), (1, "Flag_B"));
    let currencies = resolve_currencies(&t);
    assert_eq!(currencies[0].display_name, "Credits");
    assert_eq!(currencies[0].icon.as_deref(), Some("/Game/Icons/Credit.Credit"));
}

#[test]
fn icon_paths_are_sorted_and_unique() {
    let t = sample_tables();
    let talents = resolve_all_talents(&t);
    let trees = resolve_trees(&t);
    let currencies = resolve_currencies(&t);
    let paths = icon_paths(&talents, &trees, &currencies);
    assert_eq!(
        paths,
        vec![
            "/Game/Icons/Axe.Axe".to_string(),
            "/Game/Icons/Bow.Bow".to_string(),
            "/Game/Icons/Credit.Credit".to_string(),
            "/Game/Icons/Tree.Tree".to_string(),
        ]
    );
    let decoded = vec![("/Game/Icons/Bow.Bow".to_string(), "Icons_Bow.png".to_string())];
    assert_eq!(icon_file_for(&talents[0].icon, &decoded), Some("Icons_Bow.png".to_string()));
    assert_eq!(icon_file_for(&talents[1].icon, &decoded), None);
    assert_eq!(icon_file_for(&None, &decoded), None);
}

#[test]
fn icon_reference_ending_in_its_only_apostrophe_is_detected() {
    let mut t = sample_tables();
    t.trees = table(JsonValue::Null, vec![obj(vec![("Name", s("T")), ("Icon", s("Broken'"))])]);
    assert!(!t.tree_icons_checked());
    assert!(t.currency_icons_checked());
}

#[test]
fn broken_icons_nothing_reads_do_not_stop_resolving() {
    let mut t = sample_tables();
    // Neither row is reached from any talent.
    t.itemable.rows.push(obj(vec![("Name", s("Unused")), ("Icon", s("Broken'"))]));
    t.prospect_list = table(JsonValue::Null, vec![obj(vec![("Name", s("P")), ("ProspectImage", s("Broken'"))])]);
    assert!(t.all_talent_icons_checked());
    let talents = resolve_all_talents(&t);
    assert_eq!(talents.len(), 3);
    assert_eq!(talents[1].icon.as_deref(), Some("/Game/Icons/Axe.Axe"));
}

#[test]
fn broken_icon_a_talent_links_to_is_detected() {
    let mut t = sample_tables();
    t.prospect_list = table(JsonValue::Null, vec![obj(vec![("Name", s("P")), ("ProspectImage", s("Broken'"))])]);
    let linked = obj(vec![("Name", s("Mission")), ("ExtraData", handle("P", "D_ProspectList"))]);
    assert!(!t.talent_icons_checked(&linked));
    t.talents.rows.push(linked);
    assert!(!t.all_talent_icons_checked());
    let fine = obj(vec![
        ("Name", s("Mission")),
        ("ExtraData", handle("P", "D_ProspectList")),
        ("Icon", s("Texture2D'/Game/M.M'")),
    ]);
    // The row's own icon is read too, and it normalizes; the prospect's is
    // still read.
    assert!(!t.talent_icons_checked(&fine));
    t.prospect_list = table(JsonValue::Null, vec![obj(vec![("Name", s("P")), ("ProspectImage", s("Texture2D'/Game/P.P'"))])]);
    assert!(t.talent_icons_checked(&fine));
    let r = resolve_talent(&t, "Mission", &fine);
    assert_eq!(r.icon.as_deref(), Some("/Game/M.M"));
    assert_eq!(r.source_table, "D_ProspectList");
}

#[test]
fn sanitizing_twice_changes_nothing_more() {
    for raw in [r#"It\'s \\' \u00e9 \x \"q\" \u12"#, r#"end\"#, r#"\u\'ab\q"#] {
        let once = sanitize(raw);
        assert_eq!(sanitize(&once), once);
    }
}
