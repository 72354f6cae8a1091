//! The data the editor works on: the resolved game catalogue and the save-file records.

use vstd::prelude::*;
use crate::json::JsonValue;

verus! {

/// What kind of node a talent-tree row is.
#[derive(Clone, Copy, PartialEq, Eq, Structural, Debug)]
pub enum Category {
    Talent,
    Blueprint,
    Workshop,
    Mission,
    Creature,
    Settlement,
    Connector,
}

/// The label shown for a category.
pub open spec fn category_label(c: Category) -> Seq<char> {
    match c {
        Category::Talent => "Talent"@,
        Category::Blueprint => "Blueprint"@,
        Category::Workshop => "Orbital Workshop"@,
        Category::Mission => "Mission"@,
        Category::Creature => "Creature"@,
        Category::Settlement => "Settlement"@,
        Category::Connector => "Connector"@,
    }
}

impl Category {
    /// The label shown for this category.
    pub fn label(&self) -> (r: &'static str)
        ensures
            r@ == category_label(*self),
    {
        match self {
            Category::Talent => "Talent",
            Category::Blueprint => "Blueprint",
            Category::Workshop => "Orbital Workshop",
            Category::Mission => "Mission",
            Category::Creature => "Creature",
            Category::Settlement => "Settlement",
            Category::Connector => "Connector",
        }
    }
}

/// A reference to another row, with the text shown for it.
pub struct RequirementRef {
    pub row: String,
    pub display_name: String,
}

/// What one rank of a talent grants: stat bonuses (stat name and the raw
/// datatable value) and flags.
pub struct RewardInfo {
    pub granted_stats: Vec<(String, JsonValue)>,
    pub granted_flags: Vec<String>,
}

/// One talent-tree row with everything the editor needs resolved.
pub struct ResolvedTalent {
    pub name: String,
    pub display_name: String,
    pub description: String,
    pub icon: Option<String>,
    /// File name of the icon decoded from `icon`, when that succeeded.
    pub icon_file: Option<String>,
    pub tree: String,
    pub tree_display_name: String,
    pub archetype: String,
    pub archetype_display_name: String,
    pub category: Category,
    pub position: (i64, i64),
    pub size: (i64, i64),
    pub required_talents: Vec<String>,
    pub required_rank: Option<RequirementRef>,
    pub required_level: i64,
    pub required_flags: Vec<RequirementRef>,
    pub forbidden_flags: Vec<RequirementRef>,
    pub rewards: Vec<RewardInfo>,
    pub default_unlocked: bool,
    pub draw_method: String,
    pub source_table: String,
}

/// A talent tree.
pub struct ResolvedTree {
    pub name: String,
    pub display_name: String,
    pub icon: Option<String>,
    pub icon_file: Option<String>,
    pub archetype: String,
}

/// A talent rank requirement.
pub struct ResolvedRank {
    pub name: String,
    pub display_name: String,
    pub investment: i64,
}

/// A flag row: its position in the flag table, its name and description.
pub struct ResolvedFlag {
    pub index: usize,
    pub name: String,
    pub description: String,
}

/// An account currency.
pub struct ResolvedCurrency {
    pub name: String,
    pub display_name: String,
    pub description: String,
    pub icon: Option<String>,
    pub icon_file: Option<String>,
}

/// Everything the data builder extracts from the game files.
pub struct OutputBundle {
    pub talents: Vec<ResolvedTalent>,
    pub trees: Vec<ResolvedTree>,
    pub ranks: Vec<ResolvedRank>,
    pub character_flags: Vec<ResolvedFlag>,
    pub account_flags: Vec<ResolvedFlag>,
    pub currencies: Vec<ResolvedCurrency>,
}

/// One entry of a `Talents: [{RowName, Rank}]` list.
pub struct TalentEntry {
    pub row_name: String,
    pub rank: i64,
}

/// The rank an entry has when the file gives none.
pub fn default_rank() -> (r: i64)
    ensures
        r == 1,
{
    1
}

/// A character record of Characters.json. Members the editor does not model
/// are kept in `extra`, in document order.
pub struct CharacterSave {
    pub character_name: String,
    pub chr_slot: i64,
    pub xp: i64,
    pub xp_debt: i64,
    pub is_dead: bool,
    pub is_abandoned: bool,
    pub last_prospect_id: Option<String>,
    pub location: Option<String>,
    pub unlocked_flags: Vec<i64>,
    pub meta_resources: Vec<JsonValue>,
    pub cosmetic: JsonValue,
    pub talents: Vec<TalentEntry>,
    pub time_last_played: i64,
    pub extra: Vec<(String, JsonValue)>,
}

/// A currency balance of Profile.json.
pub struct MetaResourceEntry {
    pub meta_row: String,
    pub count: i64,
}

/// Profile.json: account-wide currencies, flags and workshop unlocks.
/// Members the editor does not model are kept in `extra`, in document order.
pub struct ProfileSave {
    pub user_id: String,
    pub meta_resources: Vec<MetaResourceEntry>,
    pub unlocked_flags: Vec<i64>,
    pub talents: Vec<TalentEntry>,
    pub next_chr_slot: i64,
    pub data_version: i64,
    pub extra: Vec<(String, JsonValue)>,
}

/// Highest currency amount the editor writes.
pub const CURRENCY_MAX: i64 = 999_999;

} // verus!
