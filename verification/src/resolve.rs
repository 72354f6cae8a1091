//! Resolves the game's talent rows into what the editor shows: display text
//! and icons looked up through whichever table owns them, the tree and
//! archetype a row belongs to, its category, requirements and rewards.

use vstd::prelude::*;
use crate::json::{Json, JsonValue, jget};
use crate::json::{ji64, member};
use crate::model::{
    Category, RequirementRef, ResolvedCurrency, ResolvedFlag, ResolvedRank, ResolvedTalent, ResolvedTree,
    RewardInfo,
};
use crate::table::{
    DataTable, flag_of, handle_of, handle_row_name, i64_field, bool_field, icon_field_ok, icon_of, icon_ok,
    int_of, opt_str, stat_key, stat_name, table_find, text_field, text_of,
};
use crate::text::{has_prefix, push_str, starts_with, str_eq, to_string};

verus! {

impl DataTable {
    /// The row named `name`, merged over the defaults.
    pub open spec fn spec_find(&self, name: Seq<char>) -> Option<Json> {
        table_find(self.defaults@, self.rows_view(), name)
    }
}

/// The tables the builder reads.
pub struct Tables {
    pub talents: DataTable,
    pub trees: DataTable,
    pub archetypes: DataTable,
    pub ranks: DataTable,
    pub itemable: DataTable,
    pub workshop_items: DataTable,
    pub item_template: DataTable,
    pub items_static: DataTable,
    pub outposts: DataTable,
    pub prospect_list: DataTable,
    pub great_hunts: DataTable,
    pub settlement_buildings: DataTable,
    pub character_flags: DataTable,
    pub session_flags: DataTable,
    pub account_flags: DataTable,
    pub currencies: DataTable,
}

/// Display text and icon, as a value of specifications.
pub struct DisplayView {
    pub name: Seq<char>,
    pub description: Seq<char>,
    pub icon: Option<Seq<char>>,
}

/// Display text and optional icon, taken from whichever table owns them
/// for a talent row.
pub struct DisplayInfo {
    pub name: String,
    pub description: String,
    pub icon: Option<String>,
}

/// A string option as a value of specifications.
pub open spec fn opt_view(o: Option<String>) -> Option<Seq<char>> {
    match o {
        Some(s) => Some(s@),
        None => None,
    }
}

impl DisplayInfo {
    pub open spec fn view(&self) -> DisplayView {
        DisplayView { name: self.name@, description: self.description@, icon: opt_view(self.icon) }
    }
}

/// Nothing to display.
pub open spec fn no_display() -> DisplayView {
    DisplayView { name: Seq::empty(), description: Seq::empty(), icon: None }
}

/// An item's display data from `D_Itemable`.
pub open spec fn itemable_display(t: Tables, row_name: Seq<char>) -> Option<DisplayView> {
    match t.itemable.spec_find(row_name) {
        Some(row) => Some(
            DisplayView {
                name: text_of(row, "DisplayName"@),
                description: text_of(row, "Description"@),
                icon: icon_of(row, "Icon"@),
            },
        ),
        None => None,
    }
}

/// A workshop item's display data: through its item template and the
/// item's static data to its itemable row.
pub open spec fn workshop_display(t: Tables, row_name: Seq<char>) -> Option<DisplayView> {
    match t.workshop_items.spec_find(row_name) {
        None => None,
        Some(wi) => match handle_of(wi, "Item"@) {
            None => None,
            Some(item_name) => match t.item_template.spec_find(item_name) {
                None => None,
                Some(item) => match handle_of(item, "ItemStaticData"@) {
                    None => None,
                    Some(static_name) => match t.items_static.spec_find(static_name) {
                        None => None,
                        Some(st) => match handle_of(st, "Itemable"@) {
                            None => None,
                            Some(itemable_name) => itemable_display(t, itemable_name),
                        },
                    },
                },
            },
        },
    }
}

/// A prospect's display data: its drop name, its description (its flavour
/// text when that is empty) and its image.
pub open spec fn prospect_display(t: Tables, row_name: Seq<char>) -> Option<DisplayView> {
    match t.prospect_list.spec_find(row_name) {
        Some(row) => Some(
            DisplayView {
                name: text_of(row, "DropName"@),
                description: if text_of(row, "Description"@).len() == 0 {
                    text_of(row, "FlavourText"@)
                } else {
                    text_of(row, "Description"@)
                },
                icon: icon_of(row, "ProspectImage"@),
            },
        ),
        None => None,
    }
}

/// An outpost's display data: its prospect's, with the outpost's own icon
/// when the prospect has none.
pub open spec fn outpost_display(t: Tables, row_name: Seq<char>) -> Option<DisplayView> {
    match t.outposts.spec_find(row_name) {
        None => None,
        Some(outpost) => {
            let info = match handle_of(outpost, "ProspectListRowHandle"@) {
                Some(p) => match prospect_display(t, p) {
                    Some(i) => i,
                    None => no_display(),
                },
                None => no_display(),
            };
            Some(
                if info.icon is None {
                    DisplayView { icon: icon_of(outpost, "Icon"@), ..info }
                } else {
                    info
                },
            )
        },
    }
}

/// A great hunt's display data: its prospect's, named after the hunted
/// creature as well (`Creature: Mission`), with the creature's icon when
/// the prospect has none; just the creature's when there is no prospect.
pub open spec fn great_hunt_display(t: Tables, row_name: Seq<char>) -> Option<DisplayView> {
    match t.great_hunts.spec_find(row_name) {
        None => None,
        Some(hunt) => {
            let archetype = match handle_of(hunt, "Hunt"@) {
                Some(a) => t.archetypes.spec_find(a),
                None => None,
            };
            let creature = match archetype {
                Some(a) => text_of(a, "DisplayName"@),
                None => Seq::empty(),
            };
            let creature_icon = match archetype {
                Some(a) => icon_of(a, "Icon"@),
                None => None,
            };
            let prospect = match handle_of(hunt, "Prospect"@) {
                Some(p) => prospect_display(t, p),
                None => None,
            };
            match prospect {
                Some(info) => Some(
                    DisplayView {
                        name: if info.name.len() == 0 {
                            creature
                        } else if creature.len() != 0 {
                            creature + ": "@ + info.name
                        } else {
                            info.name
                        },
                        description: info.description,
                        icon: if info.icon is None {
                            creature_icon
                        } else {
                            info.icon
                        },
                    },
                ),
                None => Some(DisplayView { name: creature, description: Seq::empty(), icon: creature_icon }),
            }
        },
    }
}

/// A settlement building's name and description; it has no icon.
pub open spec fn settlement_display(t: Tables, row_name: Seq<char>) -> Option<DisplayView> {
    match t.settlement_buildings.spec_find(row_name) {
        Some(row) => Some(
            DisplayView {
                name: text_of(row, "BuildingName"@),
                description: text_of(row, "BuildingDescription"@),
                icon: None,
            },
        ),
        None => None,
    }
}

/// Whether the `field` icon of the row named `name`, if it is a string, can
/// be normalized; a missing row has no icon to read.
pub open spec fn found_icon_ok(table: DataTable, name: Seq<char>, field: Seq<char>) -> bool {
    match table.spec_find(name) {
        Some(row) => icon_field_ok(row, field),
        None => true,
    }
}

/// The itemable row a workshop item leads to, through its item template
/// and the item's static data.
pub open spec fn workshop_itemable(t: Tables, row_name: Seq<char>) -> Option<Seq<char>> {
    match t.workshop_items.spec_find(row_name) {
        None => None,
        Some(wi) => match handle_of(wi, "Item"@) {
            None => None,
            Some(item_name) => match t.item_template.spec_find(item_name) {
                None => None,
                Some(item) => match handle_of(item, "ItemStaticData"@) {
                    None => None,
                    Some(static_name) => match t.items_static.spec_find(static_name) {
                        None => None,
                        Some(st) => handle_of(st, "Itemable"@),
                    },
                },
            },
        },
    }
}

/// Whether the icon a workshop item's display data reads can be normalized.
pub open spec fn workshop_icons_ok(t: Tables, row_name: Seq<char>) -> bool {
    match workshop_itemable(t, row_name) {
        Some(i) => found_icon_ok(t.itemable, i, "Icon"@),
        None => true,
    }
}

/// Whether the icons an outpost's display data reads (its own, and its
/// prospect's image) can be normalized.
pub open spec fn outpost_icons_ok(t: Tables, row_name: Seq<char>) -> bool {
    match t.outposts.spec_find(row_name) {
        None => true,
        Some(outpost) => icon_field_ok(outpost, "Icon"@) && match handle_of(outpost, "ProspectListRowHandle"@) {
            Some(p) => found_icon_ok(t.prospect_list, p, "ProspectImage"@),
            None => true,
        },
    }
}

/// Whether the icons a great hunt's display data reads (its creature's,
/// and its prospect's image) can be normalized.
pub open spec fn great_hunt_icons_ok(t: Tables, row_name: Seq<char>) -> bool {
    match t.great_hunts.spec_find(row_name) {
        None => true,
        Some(hunt) => (match handle_of(hunt, "Hunt"@) {
            Some(a) => found_icon_ok(t.archetypes, a, "Icon"@),
            None => true,
        }) && (match handle_of(hunt, "Prospect"@) {
            Some(p) => found_icon_ok(t.prospect_list, p, "ProspectImage"@),
            None => true,
        }),
    }
}

/// Whether the icons read for the display data a talent row links to can
/// be normalized (see `linked_display`).
pub open spec fn linked_icons_ok(t: Tables, row: Json) -> bool {
    let table = match member(jget(row, "ExtraData"@), "DataTableName"@) {
        Some(Json::String(s)) => s,
        _ => "None"@,
    };
    match handle_of(row, "ExtraData"@) {
        Some(rn) => if table == "D_Itemable"@ {
            found_icon_ok(t.itemable, rn, "Icon"@)
        } else if table == "D_WorkshopItems"@ {
            workshop_icons_ok(t, rn)
        } else if table == "D_Outposts"@ {
            outpost_icons_ok(t, rn)
        } else if table == "D_ProspectList"@ {
            found_icon_ok(t.prospect_list, rn, "ProspectImage"@)
        } else if table == "D_GreatHunts"@ {
            great_hunt_icons_ok(t, rn)
        } else {
            true
        },
        None => true,
    }
}

/// Whether every icon resolving a talent row reads can be normalized: the
/// row's own, those of the display data it links to, and its tree's.
pub open spec fn talent_icons_ok(t: Tables, row: Json) -> bool {
    let tree = match handle_of(row, "TalentTree"@) {
        Some(x) => x,
        None => Seq::empty(),
    };
    &&& icon_field_ok(row, "Icon"@)
    &&& linked_icons_ok(t, row)
    &&& found_icon_ok(t.trees, tree, "Icon"@)
}

/// Whether the icons read resolving a raw talent row can be normalized.
pub open spec fn talent_row_icons_ok(t: Tables, raw: Json) -> bool {
    match row_name(raw) {
        Some(n) => match t.talents.spec_find(n) {
            Some(row) => talent_icons_ok(t, row),
            None => true,
        },
        None => true,
    }
}

/// Whether the icon of the row a raw row's name finds can be normalized.
pub open spec fn named_icon_ok(table: DataTable, raw: Json) -> bool {
    match row_name(raw) {
        Some(n) => found_icon_ok(table, n, "Icon"@),
        None => true,
    }
}

impl Tables {
    /// Every icon resolving the talent rows reads can be normalized.
    pub open spec fn talent_icons_wf(&self) -> bool {
        forall|i: int|
            0 <= i < self.talents.rows_view().len() ==> #[trigger] talent_row_icons_ok(
                *self,
                self.talents.rows_view()[i],
            )
    }

    /// Every icon resolving the tree rows reads can be normalized.
    pub open spec fn tree_icons_wf(&self) -> bool {
        forall|i: int|
            0 <= i < self.trees.rows_view().len() ==> #[trigger] named_icon_ok(self.trees, self.trees.rows_view()[i])
    }

    /// Every icon resolving the currency rows reads can be normalized.
    pub open spec fn currency_icons_wf(&self) -> bool {
        forall|i: int|
            0 <= i < self.currencies.rows_view().len() ==> #[trigger] named_icon_ok(
                self.currencies,
                self.currencies.rows_view()[i],
            )
    }
}

fn resolve_itemable(t: &Tables, row_name: &str) -> (r: Option<DisplayInfo>)
    requires
        found_icon_ok(t.itemable, row_name@, "Icon"@),
    ensures
        match r {
            Some(d) => itemable_display(*t, row_name@) == Some(d.view()),
            None => itemable_display(*t, row_name@) is None,
        },
{
    let row = t.itemable.find(row_name)?;
    Some(
        DisplayInfo {
            name: text_field(&row, "DisplayName"),
            description: text_field(&row, "Description"),
            icon: opt_str(&row, "Icon"),
        },
    )
}

fn resolve_workshop_item(t: &Tables, row_name: &str) -> (r: Option<DisplayInfo>)
    requires
        workshop_icons_ok(*t, row_name@),
    ensures
        match r {
            Some(d) => workshop_display(*t, row_name@) == Some(d.view()),
            None => workshop_display(*t, row_name@) is None,
        },
{
    let wi = t.workshop_items.find(row_name)?;
    let item_row_name = handle_row_name(&wi, "Item")?;
    let item = t.item_template.find(item_row_name.as_str())?;
    let static_row_name = handle_row_name(&item, "ItemStaticData")?;
    let static_row = t.items_static.find(static_row_name.as_str())?;
    let itemable_row_name = handle_row_name(&static_row, "Itemable")?;
    resolve_itemable(t, itemable_row_name.as_str())
}

fn resolve_prospect(t: &Tables, row_name: &str) -> (r: Option<DisplayInfo>)
    requires
        found_icon_ok(t.prospect_list, row_name@, "ProspectImage"@),
    ensures
        match r {
            Some(d) => prospect_display(*t, row_name@) == Some(d.view()),
            None => prospect_display(*t, row_name@) is None,
        },
{
    let row = t.prospect_list.find(row_name)?;
    let d = text_field(&row, "Description");
    let description = if d.unicode_len() == 0 {
        text_field(&row, "FlavourText")
    } else {
        d
    };
    Some(
        DisplayInfo {
            name: text_field(&row, "DropName"),
            description,
            icon: opt_str(&row, "ProspectImage"),
        },
    )
}

fn resolve_outpost(t: &Tables, row_name: &str) -> (r: Option<DisplayInfo>)
    requires
        outpost_icons_ok(*t, row_name@),
    ensures
        match r {
            Some(d) => outpost_display(*t, row_name@) == Some(d.view()),
            None => outpost_display(*t, row_name@) is None,
        },
{
    let outpost = t.outposts.find(row_name)?;
    let icon = opt_str(&outpost, "Icon");
    let prospect_row_name = handle_row_name(&outpost, "ProspectListRowHandle");
    let mut info = match prospect_row_name {
        Some(rn) => match resolve_prospect(t, rn.as_str()) {
            Some(i) => i,
            None => DisplayInfo { name: String::new(), description: String::new(), icon: None },
        },
        None => DisplayInfo { name: String::new(), description: String::new(), icon: None },
    };
    if info.icon.is_none() {
        info.icon = icon;
    }
    Some(info)
}

fn resolve_great_hunt(t: &Tables, row_name: &str) -> (r: Option<DisplayInfo>)
    requires
        great_hunt_icons_ok(*t, row_name@),
    ensures
        match r {
            Some(d) => great_hunt_display(*t, row_name@) == Some(d.view()),
            None => great_hunt_display(*t, row_name@) is None,
        },
{
    let hunt = t.great_hunts.find(row_name)?;
    // The "Hunt" archetype is shared by every difficulty and stage of the
    // same creature hunt; the specific mission lives behind "Prospect".
    let archetype_row_name = handle_row_name(&hunt, "Hunt");
    let archetype = match &archetype_row_name {
        Some(rn) => t.archetypes.find(rn.as_str()),
        None => None,
    };
    let creature_name = match &archetype {
        Some(a) => text_field(a, "DisplayName"),
        None => String::new(),
    };
    let archetype_icon = match &archetype {
        Some(a) => opt_str(a, "Icon"),
        None => None,
    };
    let prospect_info = match handle_row_name(&hunt, "Prospect") {
        Some(rn) => resolve_prospect(t, rn.as_str()),
        None => None,
    };
    match prospect_info {
        Some(mut info) => {
            if info.name.unicode_len() == 0 {
                info.name = creature_name;
            } else if creature_name.unicode_len() != 0 {
                let mut name = creature_name;
                push_str(&mut name, ": ");
                push_str(&mut name, info.name.as_str());
                info.name = name;
            }
            if info.icon.is_none() {
                info.icon = archetype_icon;
            }
            Some(info)
        },
        None => Some(DisplayInfo { name: creature_name, description: String::new(), icon: archetype_icon }),
    }
}

fn resolve_settlement_building(t: &Tables, row_name: &str) -> (r: Option<DisplayInfo>)
    ensures
        match r {
            Some(d) => settlement_display(*t, row_name@) == Some(d.view()),
            None => settlement_display(*t, row_name@) is None,
        },
{
    let row = t.settlement_buildings.find(row_name)?;
    Some(
        DisplayInfo {
            name: text_field(&row, "BuildingName"),
            description: text_field(&row, "BuildingDescription"),
            icon: None,
        },
    )
}

/// The category of a row with display data, by its tree's archetype; a
/// row without display data only connects others.
pub open spec fn classified(archetype: Seq<char>, has_display_data: bool) -> Category {
    if !has_display_data {
        Category::Connector
    } else if has_prefix(archetype, "Blueprint_"@) {
        Category::Blueprint
    } else if has_prefix(archetype, "Workshop_"@) {
        Category::Workshop
    } else if has_prefix(archetype, "Prospect_"@) || archetype == "Outpost"@ || has_prefix(
        archetype,
        "GreatHunt_"@,
    ) {
        Category::Mission
    } else if has_prefix(archetype, "Creature_"@) {
        Category::Creature
    } else {
        Category::Talent
    }
}

/// The category of a row with display data, by its tree's archetype (see
/// `classified`).
pub fn classify(archetype: &str, has_display_data: bool) -> (r: Category)
    ensures
        r == classified(archetype@, has_display_data),
{
    if !has_display_data {
        return Category::Connector;
    }
    if starts_with(archetype, "Blueprint_") {
        Category::Blueprint
    } else if starts_with(archetype, "Workshop_") {
        Category::Workshop
    } else if starts_with(archetype, "Prospect_") || str_eq(archetype, "Outpost") || starts_with(
        archetype,
        "GreatHunt_",
    ) {
        Category::Mission
    } else if starts_with(archetype, "Creature_") {
        Category::Creature
    } else {
        Category::Talent
    }
}

/// `s`, or nothing when it is empty.
pub fn non_empty(s: String) -> (r: Option<String>)
    ensures
        match r {
            Some(t) => t@ == s@ && s@.len() > 0,
            None => s@.len() == 0,
        },
{
    if s.unicode_len() == 0 {
        None
    } else {
        Some(s)
    }
}

/// A tree's display name (its row name when it has none or is unknown),
/// archetype, archetype display name (the archetype's row name when it has
/// none) and icon.
pub open spec fn tree_info(t: Tables, tree_name: Seq<char>) -> (Seq<char>, Seq<char>, Seq<char>, Option<Seq<char>>) {
    match t.trees.spec_find(tree_name) {
        None => (tree_name, Seq::empty(), Seq::empty(), None),
        Some(tree) => {
            let archetype = match handle_of(tree, "Archetype"@) {
                Some(a) => a,
                None => Seq::empty(),
            };
            (
                if text_of(tree, "DisplayName"@).len() == 0 {
                    tree_name
                } else {
                    text_of(tree, "DisplayName"@)
                },
                archetype,
                match t.archetypes.spec_find(archetype) {
                    Some(a) => if text_of(a, "DisplayName"@).len() == 0 {
                        archetype
                    } else {
                        text_of(a, "DisplayName"@)
                    },
                    None => archetype,
                },
                icon_of(tree, "Icon"@),
            )
        },
    }
}

fn resolve_tree(t: &Tables, tree_name: &str) -> (r: (String, String, String, Option<String>))
    requires
        found_icon_ok(t.trees, tree_name@, "Icon"@),
    ensures
        tree_info(*t, tree_name@) == (r.0@, r.1@, r.2@, opt_view(r.3)),
{
    let tree = match t.trees.find(tree_name) {
        Some(tree) => tree,
        None => {
            return (to_string(tree_name), String::new(), String::new(), None);
        },
    };
    let tree_display_name = match non_empty(text_field(&tree, "DisplayName")) {
        Some(s) => s,
        None => to_string(tree_name),
    };
    let tree_icon = opt_str(&tree, "Icon");
    let archetype_row_name = match handle_row_name(&tree, "Archetype") {
        Some(a) => a,
        None => String::new(),
    };
    let archetype_display_name = match t.archetypes.find(archetype_row_name.as_str()) {
        Some(a) => match non_empty(text_field(&a, "DisplayName")) {
            Some(s) => s,
            None => archetype_row_name.clone(),
        },
        None => archetype_row_name.clone(),
    };
    (tree_display_name, archetype_row_name, archetype_display_name, tree_icon)
}

/// An array field's elements; none when missing or not an array.
pub open spec fn array_field(row: Json, field: Seq<char>) -> Seq<Json> {
    match jget(row, field) {
        Some(Json::Array(a)) => a,
        _ => Seq::empty(),
    }
}

/// The `RowName`s of the handles among `a`, in order, skipping elements
/// without a string `RowName`.
pub open spec fn row_names(a: Seq<Json>) -> Seq<Seq<char>>
    decreases a.len(),
{
    if a.len() == 0 {
        Seq::empty()
    } else {
        let before = row_names(a.drop_last());
        match jget(a.last(), "RowName"@) {
            Some(Json::String(s)) => before.push(s),
            _ => before,
        }
    }
}

/// The elements of an array value, or none.
fn array_items(v: Option<&JsonValue>) -> (r: &[JsonValue])
    ensures
        r@.map_values(|x: JsonValue| x@) == (match v {
            Some(x) => match x@ {
                Json::Array(a) => a,
                _ => Seq::<Json>::empty(),
            },
            None => Seq::<Json>::empty(),
        }),
{
    match v {
        Some(JsonValue::Array(a)) => {
            proof {
                crate::json::lemma_items_view(a@, a@.len());
                assert(a@.map_values(|x: JsonValue| x@) =~= crate::json::items_view(a@, a@.len()));
            }
            a.as_slice()
        },
        _ => {
            let empty: &[JsonValue] = &[];
            assert(empty@.map_values(|x: JsonValue| x@) =~= Seq::<Json>::empty());
            empty
        },
    }
}

/// The `RowName`s of the handles in `items` (see `row_names`).
fn collect_row_names(items: &[JsonValue]) -> (r: Vec<String>)
    ensures
        r@.map_values(|s: String| s@) == row_names(items@.map_values(|x: JsonValue| x@)),
{
    let ghost iv = items@.map_values(|x: JsonValue| x@);
    let mut out: Vec<String> = Vec::new();
    let n = items.len();
    assert(iv.take(0) =~= Seq::<Json>::empty());
    for i in 0..n
        invariant
            n == items@.len(),
            iv == items@.map_values(|x: JsonValue| x@),
            out@.map_values(|s: String| s@) == row_names(iv.take(i as int)),
    {
        let ghost before = out@;
        assert(iv.take(i + 1).drop_last() =~= iv.take(i as int));
        assert(iv.take(i + 1).last() == items@[i as int]@);
        match items[i].get("RowName") {
            Some(v) => match v.as_str() {
                Some(s) => {
                    out.push(to_string(s));
                    assert(out@.map_values(|s: String| s@) =~= before.map_values(|s: String| s@).push(s@));
                },
                None => {},
            },
            None => {},
        }
    }
    assert(iv.take(n as int) =~= iv);
    out
}

/// A requirement as a value of specifications: the row and its text.
pub open spec fn ref_view(r: RequirementRef) -> (Seq<char>, Seq<char>) {
    (r.row@, r.display_name@)
}

/// One flag handle as a requirement: its row, shown as the flag's
/// description in the table the handle names (`D_CharacterFlags` unless
/// `D_SessionFlags` or `D_AccountFlags`), or as the row itself when the
/// flag has none or is unknown.
pub open spec fn flag_ref(t: Tables, h: Json) -> Option<(Seq<char>, Seq<char>)> {
    match jget(h, "RowName"@) {
        Some(Json::String(rn)) => {
            let dtn = match jget(h, "DataTableName"@) {
                Some(Json::String(d)) => d,
                _ => "D_CharacterFlags"@,
            };
            let table = if dtn == "D_SessionFlags"@ {
                t.session_flags
            } else if dtn == "D_AccountFlags"@ {
                t.account_flags
            } else {
                t.character_flags
            };
            Some(
                (
                    rn,
                    match table.spec_find(rn) {
                        Some(r) => if text_of(r, "Description"@).len() == 0 {
                            rn
                        } else {
                            text_of(r, "Description"@)
                        },
                        None => rn,
                    },
                ),
            )
        },
        _ => None,
    }
}

/// The flag requirements among `a`, in order (see `flag_ref`).
pub open spec fn flag_refs(t: Tables, a: Seq<Json>) -> Seq<(Seq<char>, Seq<char>)>
    decreases a.len(),
{
    if a.len() == 0 {
        Seq::empty()
    } else {
        let before = flag_refs(t, a.drop_last());
        match flag_ref(t, a.last()) {
            Some(r) => before.push(r),
            None => before,
        }
    }
}

fn resolve_flag_ref(t: &Tables, h: &JsonValue) -> (r: Option<RequirementRef>)
    ensures
        match r {
            Some(x) => flag_ref(*t, h@) == Some(ref_view(x)),
            None => flag_ref(*t, h@) is None,
        },
{
    let rn = match h.get("RowName") {
        Some(v) => match v.as_str() {
            Some(s) => to_string(s),
            None => {
                return None;
            },
        },
        None => {
            return None;
        },
    };
    let dtn = match h.get("DataTableName") {
        Some(v) => match v.as_str() {
            Some(d) => d,
            None => "D_CharacterFlags",
        },
        None => "D_CharacterFlags",
    };
    let table = if str_eq(dtn, "D_SessionFlags") {
        &t.session_flags
    } else if str_eq(dtn, "D_AccountFlags") {
        &t.account_flags
    } else {
        &t.character_flags
    };
    let display_name = match table.find(rn.as_str()) {
        Some(r) => {
            let desc = text_field(&r, "Description");
            if desc.unicode_len() == 0 {
                rn.clone()
            } else {
                desc
            }
        },
        None => rn.clone(),
    };
    Some(RequirementRef { row: rn, display_name })
}

fn resolve_flag_refs(t: &Tables, row: &JsonValue, field: &str) -> (r: Vec<RequirementRef>)
    ensures
        r@.map_values(|x: RequirementRef| ref_view(x)) == flag_refs(*t, array_field(row@, field@)),
{
    let items = array_items(row.get(field));
    let ghost iv = items@.map_values(|x: JsonValue| x@);
    assert(iv == array_field(row@, field@));
    let mut out: Vec<RequirementRef> = Vec::new();
    let n = items.len();
    assert(iv.take(0) =~= Seq::<Json>::empty());
    for i in 0..n
        invariant
            n == items@.len(),
            iv == items@.map_values(|x: JsonValue| x@),
            out@.map_values(|x: RequirementRef| ref_view(x)) == flag_refs(*t, iv.take(i as int)),
    {
        let ghost before = out@;
        assert(iv.take(i + 1).drop_last() =~= iv.take(i as int));
        assert(iv.take(i + 1).last() == items@[i as int]@);
        match resolve_flag_ref(t, &items[i]) {
            Some(rr) => {
                let ghost v = ref_view(rr);
                out.push(rr);
                assert(out@.map_values(|x: RequirementRef| ref_view(x)) =~= before.map_values(
                    |x: RequirementRef| ref_view(x),
                ).push(v));
            },
            None => {},
        }
    }
    assert(iv.take(n as int) =~= iv);
    out
}

/// One rank's rewards as a value of specifications: each granted stat
/// with its raw value, and the granted flags.
pub open spec fn reward_view(r: RewardInfo) -> (Seq<(Seq<char>, Json)>, Seq<Seq<char>>) {
    (
        r.granted_stats@.map_values(|p: (String, JsonValue)| (p.0@, p.1@)),
        r.granted_flags@.map_values(|s: String| s@),
    )
}

/// The rewards of one `Rewards` entry: its `GrantedStats` members, each
/// keyed by the stat it names (see `stat_name`), and the `RowName`s of its
/// `GrantedFlags`.
pub open spec fn reward_of(entry: Json) -> (Seq<(Seq<char>, Json)>, Seq<Seq<char>>) {
    (
        match jget(entry, "GrantedStats"@) {
            Some(Json::Object(ms)) => Seq::new(ms.len(), |i: int| (stat_name(ms[i].0), ms[i].1)),
            _ => Seq::empty(),
        },
        row_names(array_field(entry, "GrantedFlags"@)),
    )
}

fn resolve_reward(entry: &JsonValue) -> (r: RewardInfo)
    ensures
        reward_view(r) == reward_of(entry@),
{
    let mut granted_stats: Vec<(String, JsonValue)> = Vec::new();
    match entry.get("GrantedStats") {
        Some(JsonValue::Object(ms)) => {
            let n = ms.len();
            proof {
                crate::json::lemma_members_view(ms@, ms@.len());
            }
            for i in 0..n
                invariant
                    n == ms@.len(),
                    granted_stats@.len() == i,
                    forall|j: int|
                        0 <= j < i ==> (#[trigger] granted_stats@[j]).0@ == stat_name(ms@[j].0@)
                            && granted_stats@[j].1@ == ms@[j].1@,
            {
                granted_stats.push((stat_key(ms[i].0.as_str()), ms[i].1.duplicate()));
            }
            let ghost mv = crate::json::members_view(ms@, ms@.len());
            assert(granted_stats@.map_values(|p: (String, JsonValue)| (p.0@, p.1@)) =~= Seq::new(
                mv.len(),
                |i: int| (stat_name(mv[i].0), mv[i].1),
            ));
        },
        _ => {
            assert(granted_stats@.map_values(|p: (String, JsonValue)| (p.0@, p.1@)) =~= Seq::<
                (Seq<char>, Json),
            >::empty());
        },
    }
    let granted_flags = collect_row_names(array_items(entry.get("GrantedFlags")));
    RewardInfo { granted_stats, granted_flags }
}

fn resolve_rewards(row: &JsonValue) -> (r: Vec<RewardInfo>)
    ensures
        r@.map_values(|x: RewardInfo| reward_view(x)) == array_field(row@, "Rewards"@).map_values(
            |e: Json| reward_of(e),
        ),
{
    let items = array_items(row.get("Rewards"));
    let ghost iv = items@.map_values(|x: JsonValue| x@);
    let mut out: Vec<RewardInfo> = Vec::new();
    let n = items.len();
    for i in 0..n
        invariant
            n == items@.len(),
            iv == items@.map_values(|x: JsonValue| x@),
            out@.len() == i,
            forall|j: int| 0 <= j < i ==> reward_view(#[trigger] out@[j]) == reward_of(iv[j]),
    {
        out.push(resolve_reward(&items[i]));
    }
    assert(out@.map_values(|x: RewardInfo| reward_view(x)) =~= iv.map_values(|e: Json| reward_of(e)));
    out
}

/// The display data a talent row links to through its `ExtraData` handle,
/// and the table it came from (`D_Talents` when it links to none of the
/// tables that own display data).
pub open spec fn linked_display(t: Tables, row: Json) -> (Option<DisplayView>, Seq<char>) {
    let table = match member(jget(row, "ExtraData"@), "DataTableName"@) {
        Some(Json::String(s)) => s,
        _ => "None"@,
    };
    match handle_of(row, "ExtraData"@) {
        Some(rn) => if table == "D_Itemable"@ {
            (itemable_display(t, rn), table)
        } else if table == "D_WorkshopItems"@ {
            (workshop_display(t, rn), table)
        } else if table == "D_Outposts"@ {
            (outpost_display(t, rn), table)
        } else if table == "D_ProspectList"@ {
            (prospect_display(t, rn), table)
        } else if table == "D_GreatHunts"@ {
            (great_hunt_display(t, rn), table)
        } else if table == "D_SettlementBuildings"@ {
            (settlement_display(t, rn), table)
        } else {
            (None, "D_Talents"@)
        },
        None => (None, "D_Talents"@),
    }
}

/// An integer member of an object field, `default` when missing or not an
/// `i64`.
pub open spec fn nested_int(row: Json, field: Seq<char>, key: Seq<char>, default: int) -> int {
    match member(jget(row, field), key) {
        Some(v) => match ji64(v) {
            Some(i) => i,
            None => default,
        },
        None => default,
    }
}

/// A resolved talent as a value of specifications.
pub struct TalentView {
    pub name: Seq<char>,
    pub display_name: Seq<char>,
    pub description: Seq<char>,
    pub icon: Option<Seq<char>>,
    pub icon_file: Option<Seq<char>>,
    pub tree: Seq<char>,
    pub tree_display_name: Seq<char>,
    pub archetype: Seq<char>,
    pub archetype_display_name: Seq<char>,
    pub category: Category,
    pub position: (int, int),
    pub size: (int, int),
    pub required_talents: Seq<Seq<char>>,
    pub required_rank: Option<(Seq<char>, Seq<char>)>,
    pub required_level: int,
    pub required_flags: Seq<(Seq<char>, Seq<char>)>,
    pub forbidden_flags: Seq<(Seq<char>, Seq<char>)>,
    pub rewards: Seq<(Seq<(Seq<char>, Json)>, Seq<Seq<char>>)>,
    pub default_unlocked: bool,
    pub draw_method: Seq<char>,
    pub source_table: Seq<char>,
}

/// A resolved talent as a value of specifications.
pub open spec fn talent_view(r: ResolvedTalent) -> TalentView {
    TalentView {
        name: r.name@,
        display_name: r.display_name@,
        description: r.description@,
        icon: opt_view(r.icon),
        icon_file: opt_view(r.icon_file),
        tree: r.tree@,
        tree_display_name: r.tree_display_name@,
        archetype: r.archetype@,
        archetype_display_name: r.archetype_display_name@,
        category: r.category,
        position: (r.position.0 as int, r.position.1 as int),
        size: (r.size.0 as int, r.size.1 as int),
        required_talents: r.required_talents@.map_values(|s: String| s@),
        required_rank: match r.required_rank {
            Some(x) => Some(ref_view(x)),
            None => None,
        },
        required_level: r.required_level as int,
        required_flags: r.required_flags@.map_values(|x: RequirementRef| ref_view(x)),
        forbidden_flags: r.forbidden_flags@.map_values(|x: RequirementRef| ref_view(x)),
        rewards: r.rewards@.map_values(|x: RewardInfo| reward_view(x)),
        default_unlocked: r.default_unlocked,
        draw_method: r.draw_method@,
        source_table: r.source_table@,
    }
}

/// A talent row resolved: its own display text and icon, else those of the
/// row it links to; its tree and the tree's archetype; its category (a
/// row of the `Settlement_Hub` tree or linked to a settlement building is a
/// settlement node, the rest go by archetype); requirements, rewards,
/// layout and flags as the row gives them. No icon file is known yet.
pub open spec fn resolved_talent(t: Tables, name: Seq<char>, row: Json) -> TalentView {
    let (linked, source_table) = linked_display(t, row);
    let own_name = text_of(row, "DisplayName"@);
    let own_description = text_of(row, "Description"@);
    let display_name = if own_name.len() > 0 {
        own_name
    } else {
        match linked {
            Some(l) => l.name,
            None => Seq::empty(),
        }
    };
    let description = if own_description.len() > 0 {
        own_description
    } else {
        match linked {
            Some(l) => l.description,
            None => Seq::empty(),
        }
    };
    let icon = match icon_of(row, "Icon"@) {
        Some(i) => Some(i),
        None => match linked {
            Some(l) => l.icon,
            None => None,
        },
    };
    let tree = match handle_of(row, "TalentTree"@) {
        Some(x) => x,
        None => Seq::empty(),
    };
    let (tree_display_name, archetype, archetype_display_name, _) = tree_info(t, tree);
    TalentView {
        name,
        display_name,
        description,
        icon,
        icon_file: None,
        tree,
        tree_display_name,
        archetype,
        archetype_display_name,
        category: if tree == "Settlement_Hub"@ || source_table == "D_SettlementBuildings"@ {
            Category::Settlement
        } else {
            classified(archetype, display_name.len() > 0 || icon is Some)
        },
        position: (nested_int(row, "Position"@, "X"@, 0), nested_int(row, "Position"@, "Y"@, 0)),
        size: (nested_int(row, "Size"@, "X"@, 64), nested_int(row, "Size"@, "Y"@, 64)),
        required_talents: row_names(array_field(row, "RequiredTalents"@)),
        required_rank: match handle_of(row, "RequiredRank"@) {
            Some(rn) => Some(
                (
                    rn,
                    match t.ranks.spec_find(rn) {
                        Some(r) => text_of(r, "DisplayName"@),
                        None => rn,
                    },
                ),
            ),
            None => None,
        },
        required_level: int_of(row, "RequiredLevel"@),
        required_flags: flag_refs(t, array_field(row, "RequiredFlags"@)),
        forbidden_flags: flag_refs(t, array_field(row, "ForbiddenFlags"@)),
        rewards: array_field(row, "Rewards"@).map_values(|e: Json| reward_of(e)),
        default_unlocked: flag_of(row, "bDefaultUnlocked"@),
        draw_method: match jget(row, "DrawMethodOverride"@) {
            Some(Json::String(s)) => s,
            _ => "Unspecified"@,
        },
        source_table,
    }
}

fn linked_info(t: &Tables, row: &JsonValue) -> (r: (Option<DisplayInfo>, &'static str))
    requires
        linked_icons_ok(*t, row@),
    ensures
        linked_display(*t, row@) == (
            match r.0 {
                Some(d) => Some(d.view()),
                None => None,
            },
            r.1@,
        ),
{
    let extra_row_name = handle_row_name(row, "ExtraData");
    let extra_table = match row.get("ExtraData") {
        Some(e) => match e.get("DataTableName") {
            Some(v) => match v.as_str() {
                Some(s) => s,
                None => "None",
            },
            None => "None",
        },
        None => "None",
    };
    match extra_row_name {
        Some(rn) => {
            let rn = rn.as_str();
            if str_eq(extra_table, "D_Itemable") {
                (resolve_itemable(t, rn), "D_Itemable")
            } else if str_eq(extra_table, "D_WorkshopItems") {
                (resolve_workshop_item(t, rn), "D_WorkshopItems")
            } else if str_eq(extra_table, "D_Outposts") {
                (resolve_outpost(t, rn), "D_Outposts")
            } else if str_eq(extra_table, "D_ProspectList") {
                (resolve_prospect(t, rn), "D_ProspectList")
            } else if str_eq(extra_table, "D_GreatHunts") {
                (resolve_great_hunt(t, rn), "D_GreatHunts")
            } else if str_eq(extra_table, "D_SettlementBuildings") {
                (resolve_settlement_building(t, rn), "D_SettlementBuildings")
            } else {
                (None, "D_Talents")
            }
        },
        None => (None, "D_Talents"),
    }
}

/// An integer member of an object field (see `nested_int`).
fn nested_i64(row: &JsonValue, field: &str, key: &str, default: i64) -> (r: i64)
    ensures
        r == nested_int(row@, field@, key@, default as int),
{
    match row.get(field) {
        Some(p) => match p.get(key) {
            Some(v) => match v.as_i64() {
                Some(i) => i,
                None => default,
            },
            None => default,
        },
        None => default,
    }
}

/// Resolves one talent row, merged over its table's defaults (see
/// `resolved_talent`).
pub fn resolve_talent(t: &Tables, name: &str, row: &JsonValue) -> (r: ResolvedTalent)
    requires
        talent_icons_ok(*t, row@),
    ensures
        talent_view(r) == resolved_talent(*t, name@, row@),
{
    let own_display_name = text_field(row, "DisplayName");
    let own_description = text_field(row, "Description");
    let own_icon = opt_str(row, "Icon");
    let (linked, source_table) = linked_info(t, row);
    let display_name = match non_empty(own_display_name) {
        Some(s) => s,
        None => match &linked {
            Some(l) => l.name.clone(),
            None => String::new(),
        },
    };
    let description = match non_empty(own_description) {
        Some(s) => s,
        None => match &linked {
            Some(l) => l.description.clone(),
            None => String::new(),
        },
    };
    let icon = match own_icon {
        Some(i) => Some(i),
        None => match &linked {
            Some(l) => match &l.icon {
                Some(i) => Some(i.clone()),
                None => None,
            },
            None => None,
        },
    };
    let has_display_data = display_name.unicode_len() != 0 || icon.is_some();
    let tree_row_name = match handle_row_name(row, "TalentTree") {
        Some(x) => x,
        None => String::new(),
    };
    let (tree_display_name, archetype_row_name, archetype_display_name, _tree_icon) = resolve_tree(
        t,
        tree_row_name.as_str(),
    );
    // "Settlement_Hub" is not registered in D_TalentTrees at all and some of
    // its rows have no ExtraData link either: classify by tree membership so
    // the whole tree is kept out of character editing.
    let category = if str_eq(tree_row_name.as_str(), "Settlement_Hub") || str_eq(
        source_table,
        "D_SettlementBuildings",
    ) {
        Category::Settlement
    } else {
        classify(archetype_row_name.as_str(), has_display_data)
    };
    let required_talents = collect_row_names(array_items(row.get("RequiredTalents")));
    let required_rank = match handle_row_name(row, "RequiredRank") {
        Some(rn) => {
            let display_name = match t.ranks.find(rn.as_str()) {
                Some(r) => text_field(&r, "DisplayName"),
                None => rn.clone(),
            };
            Some(RequirementRef { display_name, row: rn })
        },
        None => None,
    };
    let required_flags = resolve_flag_refs(t, row, "RequiredFlags");
    let forbidden_flags = resolve_flag_refs(t, row, "ForbiddenFlags");
    let rewards = resolve_rewards(row);
    let position = (nested_i64(row, "Position", "X", 0), nested_i64(row, "Position", "Y", 0));
    let size = (nested_i64(row, "Size", "X", 64), nested_i64(row, "Size", "Y", 64));
    let draw_method = match row.get("DrawMethodOverride") {
        Some(v) => match v.as_str() {
            Some(s) => to_string(s),
            None => to_string("Unspecified"),
        },
        None => to_string("Unspecified"),
    };
    ResolvedTalent {
        name: to_string(name),
        display_name,
        description,
        icon,
        icon_file: None,
        tree: tree_row_name,
        tree_display_name,
        archetype: archetype_row_name,
        archetype_display_name,
        category,
        position,
        size,
        required_talents,
        required_rank,
        required_level: i64_field(row, "RequiredLevel"),
        required_flags,
        forbidden_flags,
        rewards,
        default_unlocked: bool_field(row, "bDefaultUnlocked"),
        draw_method,
        source_table: to_string(source_table),
    }
}

/// The name of a raw row.
pub open spec fn row_name(raw: Json) -> Option<Seq<char>> {
    match jget(raw, "Name"@) {
        Some(Json::String(n)) => Some(n),
        _ => None,
    }
}

fn raw_row_name(raw: &JsonValue) -> (r: Option<String>)
    ensures
        opt_view(r) == row_name(raw@),
{
    match raw.get("Name") {
        Some(v) => match v.as_str() {
            Some(s) => Some(to_string(s)),
            None => None,
        },
        None => None,
    }
}

/// The talent a raw talent row resolves to: the row of its name, merged
/// over the defaults; none for a row without a name.
pub open spec fn talent_of_row(t: Tables, raw: Json) -> Option<TalentView> {
    match row_name(raw) {
        Some(n) => match t.talents.spec_find(n) {
            Some(row) => Some(resolved_talent(t, n, row)),
            None => None,
        },
        None => None,
    }
}

/// The talents of the first rows, in order.
pub open spec fn talents_of_rows(t: Tables, rows: Seq<Json>) -> Seq<TalentView>
    decreases rows.len(),
{
    if rows.len() == 0 {
        Seq::empty()
    } else {
        let before = talents_of_rows(t, rows.drop_last());
        match talent_of_row(t, rows.last()) {
            Some(v) => before.push(v),
            None => before,
        }
    }
}

fn talent_from_row(t: &Tables, raw: &JsonValue) -> (r: Option<ResolvedTalent>)
    requires
        talent_row_icons_ok(*t, raw@),
    ensures
        match r {
            Some(x) => talent_of_row(*t, raw@) == Some(talent_view(x)),
            None => talent_of_row(*t, raw@) is None,
        },
{
    let name = raw_row_name(raw)?;
    let row = t.talents.find(name.as_str())?;
    Some(resolve_talent(t, name.as_str(), &row))
}

/// Every named talent row resolved, in table order.
pub fn resolve_all_talents(t: &Tables) -> (r: Vec<ResolvedTalent>)
    requires
        t.talent_icons_wf(),
    ensures
        r@.map_values(|x: ResolvedTalent| talent_view(x)) == talents_of_rows(*t, t.talents.rows_view()),
{
    let ghost rv = t.talents.rows_view();
    let mut out: Vec<ResolvedTalent> = Vec::new();
    let n = t.talents.rows.len();
    assert(rv.take(0) =~= Seq::<Json>::empty());
    for i in 0..n
        invariant
            n == t.talents.rows@.len(),
            rv == t.talents.rows_view(),
            t.talent_icons_wf(),
            out@.map_values(|x: ResolvedTalent| talent_view(x)) == talents_of_rows(*t, rv.take(i as int)),
    {
        let ghost before = out@;
        assert(rv.take(i + 1).drop_last() =~= rv.take(i as int));
        assert(rv.take(i + 1).last() == t.talents.rows@[i as int]@);
        match talent_from_row(t, &t.talents.rows[i]) {
            Some(x) => {
                let ghost v = talent_view(x);
                out.push(x);
                assert(out@.map_values(|x: ResolvedTalent| talent_view(x)) =~= before.map_values(
                    |x: ResolvedTalent| talent_view(x),
                ).push(v));
            },
            None => {},
        }
    }
    assert(rv.take(n as int) =~= rv);
    out
}

/// A tree as a value of specifications: name, display name, icon, icon
/// file and archetype.
pub open spec fn tree_view(r: ResolvedTree) -> (Seq<char>, Seq<char>, Option<Seq<char>>, Option<Seq<char>>, Seq<char>) {
    (r.name@, r.display_name@, opt_view(r.icon), opt_view(r.icon_file), r.archetype@)
}

/// The tree a raw tree row resolves to: display name (the name when it has
/// none), icon and archetype of the row of its name, merged over the
/// defaults; no icon file yet.
pub open spec fn tree_of_row(t: Tables, raw: Json) -> Option<
    (Seq<char>, Seq<char>, Option<Seq<char>>, Option<Seq<char>>, Seq<char>),
> {
    match row_name(raw) {
        Some(n) => match t.trees.spec_find(n) {
            Some(row) => Some(
                (
                    n,
                    if text_of(row, "DisplayName"@).len() == 0 {
                        n
                    } else {
                        text_of(row, "DisplayName"@)
                    },
                    icon_of(row, "Icon"@),
                    None,
                    match handle_of(row, "Archetype"@) {
                        Some(a) => a,
                        None => Seq::empty(),
                    },
                ),
            ),
            None => None,
        },
        None => None,
    }
}

/// The trees of the first rows, in order.
pub open spec fn trees_of_rows(t: Tables, rows: Seq<Json>) -> Seq<
    (Seq<char>, Seq<char>, Option<Seq<char>>, Option<Seq<char>>, Seq<char>),
>
    decreases rows.len(),
{
    if rows.len() == 0 {
        Seq::empty()
    } else {
        let before = trees_of_rows(t, rows.drop_last());
        match tree_of_row(t, rows.last()) {
            Some(v) => before.push(v),
            None => before,
        }
    }
}

fn tree_from_row(t: &Tables, raw: &JsonValue) -> (r: Option<ResolvedTree>)
    requires
        named_icon_ok(t.trees, raw@),
    ensures
        match r {
            Some(x) => tree_of_row(*t, raw@) == Some(tree_view(x)),
            None => tree_of_row(*t, raw@) is None,
        },
{
    let name = raw_row_name(raw)?;
    let row = t.trees.find(name.as_str())?;
    let display_name = match non_empty(text_field(&row, "DisplayName")) {
        Some(s) => s,
        None => name.clone(),
    };
    let icon = opt_str(&row, "Icon");
    let archetype = match handle_row_name(&row, "Archetype") {
        Some(a) => a,
        None => String::new(),
    };
    Some(ResolvedTree { name, display_name, icon, icon_file: None, archetype })
}

/// Every named tree row resolved, in table order.
pub fn resolve_trees(t: &Tables) -> (r: Vec<ResolvedTree>)
    requires
        t.tree_icons_wf(),
    ensures
        r@.map_values(|x: ResolvedTree| tree_view(x)) == trees_of_rows(*t, t.trees.rows_view()),
{
    let ghost rv = t.trees.rows_view();
    let mut out: Vec<ResolvedTree> = Vec::new();
    let n = t.trees.rows.len();
    assert(rv.take(0) =~= Seq::<Json>::empty());
    for i in 0..n
        invariant
            n == t.trees.rows@.len(),
            rv == t.trees.rows_view(),
            t.tree_icons_wf(),
            out@.map_values(|x: ResolvedTree| tree_view(x)) == trees_of_rows(*t, rv.take(i as int)),
    {
        let ghost before = out@;
        assert(rv.take(i + 1).drop_last() =~= rv.take(i as int));
        assert(rv.take(i + 1).last() == t.trees.rows@[i as int]@);
        match tree_from_row(t, &t.trees.rows[i]) {
            Some(x) => {
                let ghost v = tree_view(x);
                out.push(x);
                assert(out@.map_values(|x: ResolvedTree| tree_view(x)) =~= before.map_values(
                    |x: ResolvedTree| tree_view(x),
                ).push(v));
            },
            None => {},
        }
    }
    assert(rv.take(n as int) =~= rv);
    out
}

/// A rank as a value of specifications: name, display name, investment.
pub open spec fn rank_view(r: ResolvedRank) -> (Seq<char>, Seq<char>, int) {
    (r.name@, r.display_name@, r.investment as int)
}

/// The rank a raw rank row resolves to: display name (the name when it has
/// none) and investment of the row of its name, merged over the defaults.
pub open spec fn rank_of_row(t: Tables, raw: Json) -> Option<(Seq<char>, Seq<char>, int)> {
    match row_name(raw) {
        Some(n) => match t.ranks.spec_find(n) {
            Some(row) => Some(
                (
                    n,
                    if text_of(row, "DisplayName"@).len() == 0 {
                        n
                    } else {
                        text_of(row, "DisplayName"@)
                    },
                    int_of(row, "Investment"@),
                ),
            ),
            None => None,
        },
        None => None,
    }
}

/// The ranks of the first rows, in order.
pub open spec fn ranks_of_rows(t: Tables, rows: Seq<Json>) -> Seq<(Seq<char>, Seq<char>, int)>
    decreases rows.len(),
{
    if rows.len() == 0 {
        Seq::empty()
    } else {
        let before = ranks_of_rows(t, rows.drop_last());
        match rank_of_row(t, rows.last()) {
            Some(v) => before.push(v),
            None => before,
        }
    }
}

fn rank_from_row(t: &Tables, raw: &JsonValue) -> (r: Option<ResolvedRank>)
    ensures
        match r {
            Some(x) => rank_of_row(*t, raw@) == Some(rank_view(x)),
            None => rank_of_row(*t, raw@) is None,
        },
{
    let name = raw_row_name(raw)?;
    let row = t.ranks.find(name.as_str())?;
    let display_name = match non_empty(text_field(&row, "DisplayName")) {
        Some(s) => s,
        None => name.clone(),
    };
    Some(ResolvedRank { display_name, investment: i64_field(&row, "Investment"), name })
}

/// Every named rank row resolved, in table order.
pub fn resolve_ranks(t: &Tables) -> (r: Vec<ResolvedRank>)
    ensures
        r@.map_values(|x: ResolvedRank| rank_view(x)) == ranks_of_rows(*t, t.ranks.rows_view()),
{
    let ghost rv = t.ranks.rows_view();
    let mut out: Vec<ResolvedRank> = Vec::new();
    let n = t.ranks.rows.len();
    assert(rv.take(0) =~= Seq::<Json>::empty());
    for i in 0..n
        invariant
            n == t.ranks.rows@.len(),
            rv == t.ranks.rows_view(),
            out@.map_values(|x: ResolvedRank| rank_view(x)) == ranks_of_rows(*t, rv.take(i as int)),
    {
        let ghost before = out@;
        assert(rv.take(i + 1).drop_last() =~= rv.take(i as int));
        assert(rv.take(i + 1).last() == t.ranks.rows@[i as int]@);
        match rank_from_row(t, &t.ranks.rows[i]) {
            Some(x) => {
                let ghost v = rank_view(x);
                out.push(x);
                assert(out@.map_values(|x: ResolvedRank| rank_view(x)) =~= before.map_values(
                    |x: ResolvedRank| rank_view(x),
                ).push(v));
            },
            None => {},
        }
    }
    assert(rv.take(n as int) =~= rv);
    out
}

/// A flag as a value of specifications: its index, name and description.
pub open spec fn flag_view(r: ResolvedFlag) -> (int, Seq<char>, Seq<char>) {
    (r.index as int, r.name@, r.description@)
}

/// The flags among the first rows of a flag table, each with its position
/// in the table (rows without a name included) and its own description
/// (not merged over the defaults).
pub open spec fn flags_of_rows(rows: Seq<Json>) -> Seq<(int, Seq<char>, Seq<char>)>
    decreases rows.len(),
{
    if rows.len() == 0 {
        Seq::empty()
    } else {
        let before = flags_of_rows(rows.drop_last());
        match row_name(rows.last()) {
            Some(n) => before.push((rows.len() - 1, n, text_of(rows.last(), "Description"@))),
            None => before,
        }
    }
}

/// Every named row of a flag table, with its position in the table.
pub fn resolve_flags(table: &DataTable) -> (r: Vec<ResolvedFlag>)
    ensures
        r@.map_values(|x: ResolvedFlag| flag_view(x)) == flags_of_rows(table.rows_view()),
{
    let ghost rv = table.rows_view();
    let mut out: Vec<ResolvedFlag> = Vec::new();
    let n = table.rows.len();
    assert(rv.take(0) =~= Seq::<Json>::empty());
    for i in 0..n
        invariant
            n == table.rows@.len(),
            rv == table.rows_view(),
            out@.map_values(|x: ResolvedFlag| flag_view(x)) == flags_of_rows(rv.take(i as int)),
    {
        let ghost before = out@;
        assert(rv.take(i + 1).drop_last() =~= rv.take(i as int));
        assert(rv.take(i + 1).last() == table.rows@[i as int]@);
        let raw = &table.rows[i];
        match raw_row_name(raw) {
            Some(name) => {
                let f = ResolvedFlag { index: i, name, description: text_field(raw, "Description") };
                let ghost v = flag_view(f);
                out.push(f);
                assert(out@.map_values(|x: ResolvedFlag| flag_view(x)) =~= before.map_values(
                    |x: ResolvedFlag| flag_view(x),
                ).push(v));
            },
            None => {},
        }
    }
    assert(rv.take(n as int) =~= rv);
    out
}

/// The character flags (see `resolve_flags`).
pub fn resolve_character_flags(t: &Tables) -> (r: Vec<ResolvedFlag>)
    ensures
        r@.map_values(|x: ResolvedFlag| flag_view(x)) == flags_of_rows(t.character_flags.rows_view()),
{
    resolve_flags(&t.character_flags)
}

/// The account flags (see `resolve_flags`).
pub fn resolve_account_flags(t: &Tables) -> (r: Vec<ResolvedFlag>)
    ensures
        r@.map_values(|x: ResolvedFlag| flag_view(x)) == flags_of_rows(t.account_flags.rows_view()),
{
    resolve_flags(&t.account_flags)
}

/// A currency as a value of specifications: name, display name,
/// description, icon, icon file.
pub open spec fn currency_view(r: ResolvedCurrency) -> (
    Seq<char>,
    Seq<char>,
    Seq<char>,
    Option<Seq<char>>,
    Option<Seq<char>>,
) {
    (r.name@, r.display_name@, r.description@, opt_view(r.icon), opt_view(r.icon_file))
}

/// The currency a raw currency row resolves to: display name (the name
/// when it has none), description and icon of the row of its name, merged
/// over the defaults; no icon file yet.
pub open spec fn currency_of_row(t: Tables, raw: Json) -> Option<
    (Seq<char>, Seq<char>, Seq<char>, Option<Seq<char>>, Option<Seq<char>>),
> {
    match row_name(raw) {
        Some(n) => match t.currencies.spec_find(n) {
            Some(row) => Some(
                (
                    n,
                    if text_of(row, "DisplayName"@).len() == 0 {
                        n
                    } else {
                        text_of(row, "DisplayName"@)
                    },
                    text_of(row, "Description"@),
                    icon_of(row, "Icon"@),
                    None,
                ),
            ),
            None => None,
        },
        None => None,
    }
}

/// The currencies of the first rows, in order.
pub open spec fn currencies_of_rows(t: Tables, rows: Seq<Json>) -> Seq<
    (Seq<char>, Seq<char>, Seq<char>, Option<Seq<char>>, Option<Seq<char>>),
>
    decreases rows.len(),
{
    if rows.len() == 0 {
        Seq::empty()
    } else {
        let before = currencies_of_rows(t, rows.drop_last());
        match currency_of_row(t, rows.last()) {
            Some(v) => before.push(v),
            None => before,
        }
    }
}

fn currency_from_row(t: &Tables, raw: &JsonValue) -> (r: Option<ResolvedCurrency>)
    requires
        named_icon_ok(t.currencies, raw@),
    ensures
        match r {
            Some(x) => currency_of_row(*t, raw@) == Some(currency_view(x)),
            None => currency_of_row(*t, raw@) is None,
        },
{
    let name = raw_row_name(raw)?;
    let row = t.currencies.find(name.as_str())?;
    let display_name = match non_empty(text_field(&row, "DisplayName")) {
        Some(s) => s,
        None => name.clone(),
    };
    Some(
        ResolvedCurrency {
            display_name,
            description: text_field(&row, "Description"),
            icon: opt_str(&row, "Icon"),
            icon_file: None,
            name,
        },
    )
}

/// Every named currency row resolved, in table order.
pub fn resolve_currencies(t: &Tables) -> (r: Vec<ResolvedCurrency>)
    requires
        t.currency_icons_wf(),
    ensures
        r@.map_values(|x: ResolvedCurrency| currency_view(x)) == currencies_of_rows(*t, t.currencies.rows_view()),
{
    let ghost rv = t.currencies.rows_view();
    let mut out: Vec<ResolvedCurrency> = Vec::new();
    let n = t.currencies.rows.len();
    assert(rv.take(0) =~= Seq::<Json>::empty());
    for i in 0..n
        invariant
            n == t.currencies.rows@.len(),
            rv == t.currencies.rows_view(),
            t.currency_icons_wf(),
            out@.map_values(|x: ResolvedCurrency| currency_view(x)) == currencies_of_rows(*t, rv.take(i as int)),
    {
        let ghost before = out@;
        assert(rv.take(i + 1).drop_last() =~= rv.take(i as int));
        assert(rv.take(i + 1).last() == t.currencies.rows@[i as int]@);
        match currency_from_row(t, &t.currencies.rows[i]) {
            Some(x) => {
                let ghost v = currency_view(x);
                out.push(x);
                assert(out@.map_values(|x: ResolvedCurrency| currency_view(x)) =~= before.map_values(
                    |x: ResolvedCurrency| currency_view(x),
                ).push(v));
            },
            None => {},
        }
    }
    assert(rv.take(n as int) =~= rv);
    out
}

/// Whether an icon reference can be normalized (see `icon_ok`).
fn icon_reference_ok(raw: &str) -> (r: bool)
    ensures
        r == icon_ok(raw@),
{
    let cs = crate::text::chars_of(raw);
    let n = cs.len();
    let mut q: usize = 0;
    while q < n && cs[q] != '\''
        invariant
            n == cs@.len(),
            cs@ == raw@,
            q <= n,
            forall|j: int| 0 <= j < q ==> cs@[j] != '\'',
        decreases n - q,
    {
        q = q + 1;
    }
    proof {
        crate::table::lemma_first_index_of(cs@, '\'');
        if let Some(f) = crate::table::first_index_of(cs@, '\'') {
            assert(q < n ==> f == q);
        }
    }
    if q < n {
        !(q > 0 && q == n - 1)
    } else {
        true
    }
}

/// Whether an icon field, if it is a string, can be normalized (see
/// `icon_field_ok`).
fn icon_field_checked(row: &JsonValue, field: &str) -> (r: bool)
    ensures
        r == icon_field_ok(row@, field@),
{
    match row.get(field) {
        Some(v) => match v.as_str() {
            Some(s) => icon_reference_ok(s),
            None => true,
        },
        None => true,
    }
}

/// Whether the `field` icon of the row named `name` can be normalized (see
/// `found_icon_ok`).
fn found_icon_checked(table: &DataTable, name: &str, field: &str) -> (r: bool)
    ensures
        r == found_icon_ok(*table, name@, field@),
{
    match table.find(name) {
        Some(row) => icon_field_checked(&row, field),
        None => true,
    }
}

fn workshop_icons_checked(t: &Tables, row_name: &str) -> (r: bool)
    ensures
        r == workshop_icons_ok(*t, row_name@),
{
    let wi = match t.workshop_items.find(row_name) {
        Some(x) => x,
        None => return true,
    };
    let item_row_name = match handle_row_name(&wi, "Item") {
        Some(x) => x,
        None => return true,
    };
    let item = match t.item_template.find(item_row_name.as_str()) {
        Some(x) => x,
        None => return true,
    };
    let static_row_name = match handle_row_name(&item, "ItemStaticData") {
        Some(x) => x,
        None => return true,
    };
    let static_row = match t.items_static.find(static_row_name.as_str()) {
        Some(x) => x,
        None => return true,
    };
    match handle_row_name(&static_row, "Itemable") {
        Some(x) => found_icon_checked(&t.itemable, x.as_str(), "Icon"),
        None => true,
    }
}

fn outpost_icons_checked(t: &Tables, row_name: &str) -> (r: bool)
    ensures
        r == outpost_icons_ok(*t, row_name@),
{
    let outpost = match t.outposts.find(row_name) {
        Some(x) => x,
        None => return true,
    };
    if !icon_field_checked(&outpost, "Icon") {
        return false;
    }
    match handle_row_name(&outpost, "ProspectListRowHandle") {
        Some(p) => found_icon_checked(&t.prospect_list, p.as_str(), "ProspectImage"),
        None => true,
    }
}

fn great_hunt_icons_checked(t: &Tables, row_name: &str) -> (r: bool)
    ensures
        r == great_hunt_icons_ok(*t, row_name@),
{
    let hunt = match t.great_hunts.find(row_name) {
        Some(x) => x,
        None => return true,
    };
    let creature_ok = match handle_row_name(&hunt, "Hunt") {
        Some(a) => found_icon_checked(&t.archetypes, a.as_str(), "Icon"),
        None => true,
    };
    let prospect_ok = match handle_row_name(&hunt, "Prospect") {
        Some(p) => found_icon_checked(&t.prospect_list, p.as_str(), "ProspectImage"),
        None => true,
    };
    creature_ok && prospect_ok
}

fn linked_icons_checked(t: &Tables, row: &JsonValue) -> (r: bool)
    ensures
        r == linked_icons_ok(*t, row@),
{
    let extra_table = match row.get("ExtraData") {
        Some(e) => match e.get("DataTableName") {
            Some(v) => match v.as_str() {
                Some(s) => s,
                None => "None",
            },
            None => "None",
        },
        None => "None",
    };
    match handle_row_name(row, "ExtraData") {
        Some(rn) => {
            let rn = rn.as_str();
            if str_eq(extra_table, "D_Itemable") {
                found_icon_checked(&t.itemable, rn, "Icon")
            } else if str_eq(extra_table, "D_WorkshopItems") {
                workshop_icons_checked(t, rn)
            } else if str_eq(extra_table, "D_Outposts") {
                outpost_icons_checked(t, rn)
            } else if str_eq(extra_table, "D_ProspectList") {
                found_icon_checked(&t.prospect_list, rn, "ProspectImage")
            } else if str_eq(extra_table, "D_GreatHunts") {
                great_hunt_icons_checked(t, rn)
            } else {
                true
            }
        },
        None => true,
    }
}

fn talent_row_icons_checked(t: &Tables, raw: &JsonValue) -> (r: bool)
    ensures
        r == talent_row_icons_ok(*t, raw@),
{
    let name = match raw_row_name(raw) {
        Some(n) => n,
        None => return true,
    };
    match t.talents.find(name.as_str()) {
        Some(row) => t.talent_icons_checked(&row),
        None => true,
    }
}

fn named_icon_checked(table: &DataTable, raw: &JsonValue) -> (r: bool)
    ensures
        r == named_icon_ok(*table, raw@),
{
    match raw_row_name(raw) {
        Some(n) => found_icon_checked(table, n.as_str(), "Icon"),
        None => true,
    }
}

impl Tables {
    /// Whether every icon resolving `row` as a talent reads can be
    /// normalized (see `talent_icons_ok`).
    pub fn talent_icons_checked(&self, row: &JsonValue) -> (r: bool)
        ensures
            r == talent_icons_ok(*self, row@),
    {
        let tree = match handle_row_name(row, "TalentTree") {
            Some(x) => x,
            None => String::new(),
        };
        icon_field_checked(row, "Icon") && linked_icons_checked(self, row) && found_icon_checked(
            &self.trees,
            tree.as_str(),
            "Icon",
        )
    }

    /// Whether every icon resolving all talent rows reads can be
    /// normalized; `resolve_all_talents` needs it.
    pub fn all_talent_icons_checked(&self) -> (r: bool)
        ensures
            r == self.talent_icons_wf(),
    {
        let n = self.talents.rows.len();
        for i in 0..n
            invariant
                n == self.talents.rows@.len(),
                forall|j: int| 0 <= j < i ==> #[trigger] talent_row_icons_ok(*self, self.talents.rows_view()[j]),
        {
            assert(self.talents.rows_view()[i as int] == self.talents.rows@[i as int]@);
            if !talent_row_icons_checked(self, &self.talents.rows[i]) {
                return false;
            }
        }
        true
    }

    /// Whether every tree row's icon can be normalized; `resolve_trees`
    /// needs it.
    pub fn tree_icons_checked(&self) -> (r: bool)
        ensures
            r == self.tree_icons_wf(),
    {
        let n = self.trees.rows.len();
        for i in 0..n
            invariant
                n == self.trees.rows@.len(),
                forall|j: int| 0 <= j < i ==> #[trigger] named_icon_ok(self.trees, self.trees.rows_view()[j]),
        {
            assert(self.trees.rows_view()[i as int] == self.trees.rows@[i as int]@);
            if !named_icon_checked(&self.trees, &self.trees.rows[i]) {
                return false;
            }
        }
        true
    }

    /// Whether every currency row's icon can be normalized;
    /// `resolve_currencies` needs it.
    pub fn currency_icons_checked(&self) -> (r: bool)
        ensures
            r == self.currency_icons_wf(),
    {
        let n = self.currencies.rows.len();
        for i in 0..n
            invariant
                n == self.currencies.rows@.len(),
                forall|j: int|
                    0 <= j < i ==> #[trigger] named_icon_ok(self.currencies, self.currencies.rows_view()[j]),
        {
            assert(self.currencies.rows_view()[i as int] == self.currencies.rows@[i as int]@);
            if !named_icon_checked(&self.currencies, &self.currencies.rows[i]) {
                return false;
            }
        }
        true
    }
}

/// Whether talents of a category show an icon in the editor (missions,
/// creatures and settlements come with large background art nothing
/// displays).
pub open spec fn shows_icon(c: Category) -> bool {
    c == Category::Talent || c == Category::Blueprint || c == Category::Workshop
}

/// The icons of the first `k` talents that show one.
pub open spec fn talent_icons(talents: Seq<ResolvedTalent>, k: int) -> Set<Seq<char>>
    decreases k,
{
    if k <= 0 {
        Set::empty()
    } else {
        let before = talent_icons(talents, k - 1);
        match talents[k - 1].icon {
            Some(p) => if shows_icon(talents[k - 1].category) {
                before.insert(p@)
            } else {
                before
            },
            None => before,
        }
    }
}

/// The icons of the first `k` trees.
pub open spec fn tree_icons(trees: Seq<ResolvedTree>, k: int) -> Set<Seq<char>>
    decreases k,
{
    if k <= 0 {
        Set::empty()
    } else {
        match trees[k - 1].icon {
            Some(p) => tree_icons(trees, k - 1).insert(p@),
            None => tree_icons(trees, k - 1),
        }
    }
}

/// The icons of the first `k` currencies.
pub open spec fn currency_icons(currencies: Seq<ResolvedCurrency>, k: int) -> Set<Seq<char>>
    decreases k,
{
    if k <= 0 {
        Set::empty()
    } else {
        match currencies[k - 1].icon {
            Some(p) => currency_icons(currencies, k - 1).insert(p@),
            None => currency_icons(currencies, k - 1),
        }
    }
}

/// The icon references to extract: those of the talents shown with icons,
/// of every tree and of every currency.
pub open spec fn wanted_icons(
    talents: Seq<ResolvedTalent>,
    trees: Seq<ResolvedTree>,
    currencies: Seq<ResolvedCurrency>,
) -> Set<Seq<char>> {
    talent_icons(talents, talents.len() as int).union(tree_icons(trees, trees.len() as int)).union(
        currency_icons(currencies, currencies.len() as int),
    )
}

/// Every icon reference to extract, sorted and without repeats (see
/// `wanted_icons`).
pub fn icon_paths(talents: &[ResolvedTalent], trees: &[ResolvedTree], currencies: &[ResolvedCurrency]) -> (r: Vec<String>)
    ensures
        crate::browser::strictly_sorted(crate::browser::texts(r@)),
        crate::browser::texts(r@).to_set() == wanted_icons(talents@, trees@, currencies@),
{
    let mut out: Vec<String> = Vec::new();
    assert(crate::browser::texts(out@).to_set() =~= Set::<Seq<char>>::empty());
    let n = talents.len();
    for i in 0..n
        invariant
            n == talents@.len(),
            crate::browser::strictly_sorted(crate::browser::texts(out@)),
            crate::browser::texts(out@).to_set() == talent_icons(talents@, i as int),
    {
        let t = &talents[i];
        if t.category == Category::Talent || t.category == Category::Blueprint || t.category == Category::Workshop {
            match &t.icon {
                Some(p) => {
                    crate::browser::insert_sorted(&mut out, p.clone());
                },
                None => {},
            }
        }
    }
    let ghost a = talent_icons(talents@, n as int);
    let m = trees.len();
    for i in 0..m
        invariant
            m == trees@.len(),
            crate::browser::strictly_sorted(crate::browser::texts(out@)),
            crate::browser::texts(out@).to_set() == a.union(tree_icons(trees@, i as int)),
    {
        match &trees[i].icon {
            Some(p) => {
                crate::browser::insert_sorted(&mut out, p.clone());
                assert(a.union(tree_icons(trees@, i as int)).insert(p@) =~= a.union(tree_icons(trees@, i + 1)));
            },
            None => {},
        }
    }
    let ghost b = a.union(tree_icons(trees@, m as int));
    let c = currencies.len();
    for i in 0..c
        invariant
            c == currencies@.len(),
            crate::browser::strictly_sorted(crate::browser::texts(out@)),
            crate::browser::texts(out@).to_set() == b.union(currency_icons(currencies@, i as int)),
    {
        match &currencies[i].icon {
            Some(p) => {
                crate::browser::insert_sorted(&mut out, p.clone());
                assert(b.union(currency_icons(currencies@, i as int)).insert(p@) =~= b.union(
                    currency_icons(currencies@, i + 1),
                ));
            },
            None => {},
        }
    }
    out
}

/// The file an icon reference was decoded to, if it was.
pub open spec fn decoded_file(decoded: Seq<(String, String)>, icon: Option<Seq<char>>) -> Option<Seq<char>>
    decreases decoded.len(),
{
    match icon {
        None => None,
        Some(p) => if decoded.len() == 0 {
            None
        } else if decoded[0].0@ == p {
            Some(decoded[0].1@)
        } else {
            decoded_file(decoded.drop_first(), icon)
        },
    }
}

/// The file an icon reference was decoded to, given the decoded
/// (reference, file name) pairs; none for a row without an icon or whose
/// icon failed to decode.
pub fn icon_file_for(icon: &Option<String>, decoded: &[(String, String)]) -> (r: Option<String>)
    ensures
        opt_view(r) == decoded_file(decoded@, opt_view(*icon)),
{
    match icon {
        None => None,
        Some(p) => {
            let n = decoded.len();
            assert(decoded@.skip(0) =~= decoded@);
            for k in 0..n
                invariant
                    n == decoded@.len(),
                    opt_view(*icon) == Some(p@),
                    decoded_file(decoded@, Some(p@)) == decoded_file(decoded@.skip(k as int), Some(p@)),
            {
                assert(decoded@.skip(k as int)[0] == decoded@[k as int]);
                if str_eq(decoded[k].0.as_str(), p.as_str()) {
                    return Some(decoded[k].1.clone());
                }
                assert(decoded@.skip(k as int).drop_first() =~= decoded@.skip(k + 1));
            }
            assert(decoded@.skip(n as int).len() == 0);
            None
        },
    }
}

} // verus!
