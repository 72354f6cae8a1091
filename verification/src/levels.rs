//! Player level and progression-point estimation from total XP.
//!
//! XP anchors come from the community table: exact totals for levels 0-20,
//! then every 5 levels up to 100. The XP cost per level is constant inside
//! each bracket, so interpolating between two anchors gives the exact level.
//!
//! Point totals follow a parity rule: talents give +1 on odd levels and +2
//! on even levels up to level 60 (90 in total); blueprints give +4 on odd
//! levels and +3 on even levels up to level 100 (350 in total).
//!
//! Levelling is not the only talent-point source: high-tier mission rewards
//! grant account-wide bonus talent points. Blueprint points come from
//! levelling alone, so those can be checked strictly.

use vstd::prelude::*;
use crate::catalog::{Catalog, find_last};
use crate::model::{Category, TalentEntry};
use crate::owner::entries_view;
use crate::text::str_eq;

verus! {

/// Account-wide bonus talent points earnable from mission rewards, on top
/// of the level-based total. Kept generous so legitimate characters are not
/// flagged.
pub const MISSION_TALENT_BONUS_MAX: i64 = 20;

/// Number of rows in the XP anchor table.
pub const ANCHOR_COUNT: usize = 37;

/// The level of anchor row `i`.
pub open spec fn anchor_level(i: int) -> int {
    if i == 0 {
        0
    } else if i == 1 {
        1
    } else if i == 2 {
        2
    } else if i == 3 {
        3
    } else if i == 4 {
        4
    } else if i == 5 {
        5
    } else if i == 6 {
        6
    } else if i == 7 {
        7
    } else if i == 8 {
        8
    } else if i == 9 {
        9
    } else if i == 10 {
        10
    } else if i == 11 {
        11
    } else if i == 12 {
        12
    } else if i == 13 {
        13
    } else if i == 14 {
        14
    } else if i == 15 {
        15
    } else if i == 16 {
        16
    } else if i == 17 {
        17
    } else if i == 18 {
        18
    } else if i == 19 {
        19
    } else if i == 20 {
        20
    } else if i == 21 {
        25
    } else if i == 22 {
        30
    } else if i == 23 {
        35
    } else if i == 24 {
        40
    } else if i == 25 {
        45
    } else if i == 26 {
        50
    } else if i == 27 {
        55
    } else if i == 28 {
        60
    } else if i == 29 {
        65
    } else if i == 30 {
        70
    } else if i == 31 {
        75
    } else if i == 32 {
        80
    } else if i == 33 {
        85
    } else if i == 34 {
        90
    } else if i == 35 {
        95
    } else if i == 36 {
        100
    } else {
        0
    }
}

/// The total XP required for the level of anchor row `i`.
pub open spec fn anchor_xp(i: int) -> int {
    if i == 0 {
        0
    } else if i == 1 {
        2_400
    } else if i == 2 {
        8_610
    } else if i == 3 {
        18_730
    } else if i == 4 {
        32_530
    } else if i == 5 {
        48_630
    } else if i == 6 {
        67_830
    } else if i == 7 {
        89_430
    } else if i == 8 {
        111_030
    } else if i == 9 {
        135_030
    } else if i == 10 {
        161_500
    } else if i == 11 {
        194_400
    } else if i == 12 {
        227_300
    } else if i == 13 {
        260_200
    } else if i == 14 {
        293_100
    } else if i == 15 {
        326_000
    } else if i == 16 {
        380_800
    } else if i == 17 {
        435_600
    } else if i == 18 {
        490_400
    } else if i == 19 {
        545_200
    } else if i == 20 {
        600_000
    } else if i == 21 {
        975_000
    } else if i == 22 {
        1_400_000
    } else if i == 23 {
        1_942_000
    } else if i == 24 {
        2_550_000
    } else if i == 25 {
        3_200_000
    } else if i == 26 {
        3_890_000
    } else if i == 27 {
        4_610_000
    } else if i == 28 {
        5_330_000
    } else if i == 29 {
        6_050_000
    } else if i == 30 {
        6_770_000
    } else if i == 31 {
        7_490_000
    } else if i == 32 {
        8_210_000
    } else if i == 33 {
        8_930_000
    } else if i == 34 {
        9_650_000
    } else if i == 35 {
        10_370_000
    } else if i == 36 {
        11_090_000
    } else {
        0
    }
}

/// Anchor row `i` as `(level, total XP)`.
pub fn xp_anchor(i: usize) -> (r: (i64, i64))
    requires
        i < ANCHOR_COUNT,
    ensures
        r.0 == anchor_level(i as int),
        r.1 == anchor_xp(i as int),
{
    match i {
        0 => (0, 0),
        1 => (1, 2_400),
        2 => (2, 8_610),
        3 => (3, 18_730),
        4 => (4, 32_530),
        5 => (5, 48_630),
        6 => (6, 67_830),
        7 => (7, 89_430),
        8 => (8, 111_030),
        9 => (9, 135_030),
        10 => (10, 161_500),
        11 => (11, 194_400),
        12 => (12, 227_300),
        13 => (13, 260_200),
        14 => (14, 293_100),
        15 => (15, 326_000),
        16 => (16, 380_800),
        17 => (17, 435_600),
        18 => (18, 490_400),
        19 => (19, 545_200),
        20 => (20, 600_000),
        21 => (25, 975_000),
        22 => (30, 1_400_000),
        23 => (35, 1_942_000),
        24 => (40, 2_550_000),
        25 => (45, 3_200_000),
        26 => (50, 3_890_000),
        27 => (55, 4_610_000),
        28 => (60, 5_330_000),
        29 => (65, 6_050_000),
        30 => (70, 6_770_000),
        31 => (75, 7_490_000),
        32 => (80, 8_210_000),
        33 => (85, 8_930_000),
        34 => (90, 9_650_000),
        35 => (95, 10_370_000),
        36 => (100, 11_090_000),
        _ => (100, 11_090_000),
    }
}

/// The anchor table's shape: the totals strictly increase, levels increase
/// by 1 to 5 per row, and each bracket costs the same XP for every level in it.
pub proof fn lemma_anchor_row(i: int)
    requires
        0 <= i < 36,
    ensures
        anchor_xp(i) < anchor_xp(i + 1),
        1 <= anchor_level(i + 1) - anchor_level(i) <= 5,
        anchor_xp(i + 1) - anchor_xp(i) <= 720_000,
        i < 20 ==> anchor_level(i + 1) - anchor_level(i) == 1,
        20 <= i ==> anchor_level(i + 1) - anchor_level(i) == 5 && (anchor_xp(i + 1) - anchor_xp(i))
            % 5 == 0,
        anchor_xp(i + 1) - anchor_xp(i) >= 5,
        0 <= anchor_level(i),
        anchor_level(i + 1) <= 100,
        0 <= anchor_xp(i),
        anchor_xp(i + 1) <= 11_090_000,
{
}

/// The bracket of `x`, searching from row `i`: the last row at or after `i`
/// whose total does not exceed `x`.
pub open spec fn bracket_from(x: int, i: int) -> int
    decreases 36 - i,
{
    if 0 <= i < 36 && anchor_xp(i + 1) <= x {
        bracket_from(x, i + 1)
    } else {
        i
    }
}

/// The level reached with `xp` total XP: negative XP counts as none, and
/// XP beyond the last anchor is the level cap. Inside a bracket the level is
/// interpolated between its two anchors.
pub open spec fn spec_level(xp: int) -> int {
    let x = if xp < 0 { 0 } else { xp };
    if x >= anchor_xp(36) {
        anchor_level(36)
    } else {
        let i = bracket_from(x, 0);
        anchor_level(i) + (x - anchor_xp(i)) * (anchor_level(i + 1) - anchor_level(i)) / (
        anchor_xp(i + 1) - anchor_xp(i))
    }
}

/// `n` clamped into `[lo, hi]`.
pub open spec fn clamp_int(n: int, lo: int, hi: int) -> int {
    if n < lo {
        lo
    } else if n > hi {
        hi
    } else {
        n
    }
}

/// Talent points earnable from levelling alone at `level`.
pub open spec fn spec_talent_points(level: int) -> int {
    let n = clamp_int(level, 0, 60);
    (n / 2) * 3 + n % 2
}

/// Blueprint points earnable at `level`.
pub open spec fn spec_blueprint_points(level: int) -> int {
    let n = clamp_int(level, 0, 100);
    (n / 2) * 7 + (n % 2) * 4
}

/// Solo-pool talent points earnable at `level`: one every 2 levels, capped at 30.
pub open spec fn spec_solo_points(level: int) -> int {
    let n = if level < 0 { 0 } else { level };
    if n / 2 < 30 {
        n / 2
    } else {
        30
    }
}

/// The progression a given amount of XP stands for.
pub struct LevelEstimate {
    pub level: i64,
    /// Talent points earnable from levelling alone at this level.
    pub talent_points: i64,
    /// Blueprint points earnable at this level (levelling is the only
    /// source for these).
    pub blueprint_points: i64,
    /// Solo-pool talent points earnable at this level.
    pub solo_points: i64,
}

fn clamp_i64(n: i64, lo: i64, hi: i64) -> (r: i64)
    requires
        lo <= hi,
    ensures
        r == clamp_int(n as int, lo as int, hi as int),
{
    if n < lo {
        lo
    } else if n > hi {
        hi
    } else {
        n
    }
}

/// Talent points earnable from levelling alone at `level`.
pub fn talent_points_at(level: i64) -> (r: i64)
    ensures
        r == spec_talent_points(level as int),
{
    let n = clamp_i64(level, 0, 60);
    (n / 2) * 3 + (n % 2)
}

/// Blueprint points earnable at `level`.
pub fn blueprint_points_at(level: i64) -> (r: i64)
    ensures
        r == spec_blueprint_points(level as int),
{
    let n = clamp_i64(level, 0, 100);
    (n / 2) * 7 + (n % 2) * 4
}

/// Solo-pool talent points earnable at `level`.
pub fn solo_points_at(level: i64) -> (r: i64)
    ensures
        r == spec_solo_points(level as int),
{
    let n = if level < 0 {
        0
    } else {
        level
    };
    if n / 2 < 30 {
        n / 2
    } else {
        30
    }
}

/// Level and earnable point totals for a character with `xp` total XP.
pub fn estimate(xp: i64) -> (r: LevelEstimate)
    ensures
        r.level == spec_level(xp as int),
        r.talent_points == spec_talent_points(r.level as int),
        r.blueprint_points == spec_blueprint_points(r.level as int),
        r.solo_points == spec_solo_points(r.level as int),
{
    let x: i64 = if xp < 0 {
        0
    } else {
        xp
    };
    let last = xp_anchor(36);
    let level: i64 = if x >= last.1 {
        last.0
    } else {
        let mut i: usize = 0;
        while i < 36 && xp_anchor(i + 1).1 <= x
            invariant
                i <= 36,
                0 <= x < anchor_xp(36),
                anchor_xp(i as int) <= x,
                bracket_from(x as int, i as int) == bracket_from(x as int, 0),
            decreases 36 - i,
        {
            i = i + 1;
        }
        proof {
            lemma_anchor_row(i as int);
        }
        let (al, ax) = xp_anchor(i);
        let (bl, bx) = xp_anchor(i + 1);
        let dx: i64 = x - ax;
        let dl: i64 = bl - al;
        assert(0 <= dx <= 720_000 && 1 <= dl <= 5 ==> 0 <= dx * dl <= 3_600_000) by (nonlinear_arith);
        al + dx * dl / (bx - ax)
    };
    LevelEstimate {
        level,
        talent_points: talent_points_at(level),
        blueprint_points: blueprint_points_at(level),
        solo_points: solo_points_at(level),
    }
}

/// Every level reached by any amount of XP lies between 0 and the cap of 100.
pub proof fn lemma_level_in_range(xp: int)
    ensures
        0 <= spec_level(xp) <= 100,
{
    let x = if xp < 0 { 0 } else { xp };
    if x < anchor_xp(36) {
        lemma_bracket_bounds(x, 0);
        let i = bracket_from(x, 0);
        lemma_anchor_row(i);
        lemma_interpolation_bounds(x, i);
    }
}

/// The bracket found from row `i` is a row whose total does not exceed `x`
/// and whose successor's does.
proof fn lemma_bracket_bounds(x: int, i: int)
    requires
        0 <= i <= 36,
        anchor_xp(i) <= x < anchor_xp(36),
    ensures
        i <= bracket_from(x, i) < 36,
        anchor_xp(bracket_from(x, i)) <= x < anchor_xp(bracket_from(x, i) + 1),
    decreases 36 - i,
{
    if i < 36 && anchor_xp(i + 1) <= x {
        lemma_bracket_bounds(x, i + 1);
    } else if i == 36 {
    }
}

/// Any row `j` at or after `i` whose bracket contains `x` is the bracket found.
proof fn lemma_bracket_is(x: int, i: int, j: int)
    requires
        0 <= i <= j < 36,
        anchor_xp(j) <= x < anchor_xp(j + 1),
    ensures
        bracket_from(x, i) == j,
    decreases j - i,
{
    if i < j {
        lemma_anchors_increase(i + 1, j);
        lemma_bracket_is(x, i + 1, j);
    }
}

/// Totals increase along the whole table.
proof fn lemma_anchors_increase(i: int, j: int)
    requires
        0 <= i <= j <= 36,
    ensures
        anchor_xp(i) <= anchor_xp(j),
        anchor_level(i) <= anchor_level(j),
    decreases j - i,
{
    if i < j {
        lemma_anchor_row(i);
        lemma_anchors_increase(i + 1, j);
    }
}

/// Inside bracket `i` the interpolated level lies between the bracket's two levels.
proof fn lemma_interpolation_bounds(x: int, i: int)
    requires
        0 <= i < 36,
        anchor_xp(i) <= x < anchor_xp(i + 1),
    ensures
        anchor_level(i) <= anchor_level(i) + (x - anchor_xp(i)) * (anchor_level(i + 1) - anchor_level(i))
            / (anchor_xp(i + 1) - anchor_xp(i)) < anchor_level(i + 1),
{
    lemma_anchor_row(i);
    let dx = x - anchor_xp(i);
    let dl = anchor_level(i + 1) - anchor_level(i);
    let w = anchor_xp(i + 1) - anchor_xp(i);
    assert(0 <= dx < w && 1 <= dl ==> 0 <= dx * dl / w < dl) by (nonlinear_arith)
        requires
            0 <= dx < w,
            1 <= dl,
    {
        assert(dx * dl < w * dl);
        vstd::arithmetic::div_mod::lemma_div_pos_is_pos(dx * dl, w);
        vstd::arithmetic::div_mod::lemma_fundamental_div_mod(dx * dl, w);
    }
}

/// More XP never means a lower level.
pub proof fn lemma_level_monotone(xp1: int, xp2: int)
    requires
        xp1 <= xp2,
    ensures
        spec_level(xp1) <= spec_level(xp2),
{
    let x1 = if xp1 < 0 { 0 } else { xp1 };
    let x2 = if xp2 < 0 { 0 } else { xp2 };
    lemma_level_in_range(xp1);
    if x2 >= anchor_xp(36) {
    } else {
        lemma_bracket_bounds(x1, 0);
        lemma_bracket_bounds(x2, 0);
        let i = bracket_from(x1, 0);
        let j = bracket_from(x2, 0);
        lemma_interpolation_bounds(x1, i);
        lemma_interpolation_bounds(x2, j);
        if i == j {
            lemma_anchor_row(i);
            let dl = anchor_level(i + 1) - anchor_level(i);
            let w = anchor_xp(i + 1) - anchor_xp(i);
            let d1 = x1 - anchor_xp(i);
            let d2 = x2 - anchor_xp(i);
            assert(d1 * dl <= d2 * dl) by (nonlinear_arith)
                requires
                    0 <= d1 <= d2,
                    1 <= dl,
            ;
            vstd::arithmetic::div_mod::lemma_div_is_ordered(d1 * dl, d2 * dl, w);
        } else {
            if j < i {
                lemma_anchors_increase(j + 1, i);
            }
            lemma_anchors_increase(i + 1, j);
        }
    }
}

/// The level is exact at every anchor: exactly an anchor's total XP gives
/// its level, and one XP less gives the level below.
pub proof fn lemma_level_exact_at_anchors(i: int)
    requires
        0 <= i < 37,
    ensures
        spec_level(anchor_xp(i)) == anchor_level(i),
        i > 0 ==> spec_level(anchor_xp(i) - 1) == anchor_level(i) - 1,
{
    if i < 36 {
        lemma_anchor_row(i);
        lemma_bracket_is(anchor_xp(i), 0, i);
    }
    if i > 0 {
        let j = i - 1;
        lemma_anchor_row(j);
        let x = anchor_xp(i) - 1;
        lemma_bracket_is(x, 0, j);
        let dl = anchor_level(j + 1) - anchor_level(j);
        let w = anchor_xp(j + 1) - anchor_xp(j);
        let c = w / dl;
        vstd::arithmetic::div_mod::lemma_fundamental_div_mod(w, dl);
        assert(w % dl == 0);
        assert(c >= 1) by (nonlinear_arith)
            requires
                w == dl * c + w % dl,
                w % dl == 0,
                w >= 5,
                1 <= dl <= 5,
        ;
        assert((w - 1) * dl / w == dl - 1) by (nonlinear_arith)
            requires
                w == dl * c,
                1 <= dl,
                1 <= c,
        {
            assert((dl - 1) * w <= (w - 1) * dl);
            assert((w - 1) * dl < dl * w);
            vstd::arithmetic::div_mod::lemma_fundamental_div_mod((w - 1) * dl, w);
        }
    }
}

/// The talent-point parity rule: each level up to 60 adds one point when it
/// is odd and two when it is even; past 60 the total stays at 90.
pub proof fn lemma_talent_points_parity(level: int)
    ensures
        1 <= level <= 60 ==> spec_talent_points(level) - spec_talent_points(level - 1) == (if level
            % 2 == 1 {
            1int
        } else {
            2int
        }),
        level >= 60 ==> spec_talent_points(level) == 90,
        level <= 0 ==> spec_talent_points(level) == 0,
{
}

/// The blueprint-point parity rule: each level up to 100 adds four points
/// when it is odd and three when it is even; past 100 the total stays at 350.
pub proof fn lemma_blueprint_points_parity(level: int)
    ensures
        1 <= level <= 100 ==> spec_blueprint_points(level) - spec_blueprint_points(level - 1) == (
        if level % 2 == 1 {
            4int
        } else {
            3int
        }),
        level >= 100 ==> spec_blueprint_points(level) == 350,
        level <= 0 ==> spec_blueprint_points(level) == 0,
{
}

/// Points a character has spent.
pub struct SpentPoints {
    /// Regular talent points (one per rank), excluding the Solo tree.
    pub talent: i64,
    /// Solo-tree talent points, a separate pool with its own source.
    pub solo: i64,
    /// Blueprint points, one per unlocked blueprint.
    pub blueprint: i64,
}

/// The points one entry costs: (talent, solo, blueprint). Talents cost
/// their rank (at least one), Solo-tree talents count in the solo pool,
/// blueprints cost one point each, rows the catalogue does not know cost
/// nothing.
pub open spec fn entry_cost(ts: Seq<crate::model::ResolvedTalent>, e: (Seq<char>, i64)) -> (int, int, int) {
    match find_last(ts, e.0) {
        None => (0, 0, 0),
        Some(i) => {
            let r: int = if e.1 < 1 {
                1
            } else {
                e.1 as int
            };
            if ts[i].category == Category::Talent && ts[i].archetype@ == "Solo"@ {
                (0, r, 0)
            } else if ts[i].category == Category::Talent {
                (r, 0, 0)
            } else if ts[i].category == Category::Blueprint {
                (0, 0, 1)
            } else {
                (0, 0, 0)
            }
        },
    }
}

/// The points a talent list costs, summed per pool.
pub open spec fn spent(ts: Seq<crate::model::ResolvedTalent>, v: Seq<(Seq<char>, i64)>) -> (int, int, int)
    decreases v.len(),
{
    if v.len() == 0 {
        (0, 0, 0)
    } else {
        let p = spent(ts, v.drop_last());
        let c = entry_cost(ts, v.last());
        (p.0 + c.0, p.1 + c.1, p.2 + c.2)
    }
}

proof fn lemma_spent_prefix(ts: Seq<crate::model::ResolvedTalent>, v: Seq<(Seq<char>, i64)>, k: int)
    requires
        0 <= k <= v.len(),
    ensures
        0 <= spent(ts, v.take(k)).0 <= spent(ts, v).0,
        0 <= spent(ts, v.take(k)).1 <= spent(ts, v).1,
        0 <= spent(ts, v.take(k)).2 <= spent(ts, v).2,
    decreases v.len() - k,
{
    lemma_spent_nonneg(ts, v.take(k));
    if k < v.len() {
        lemma_spent_prefix(ts, v, k + 1);
        assert(v.take(k + 1).drop_last() =~= v.take(k));
    } else {
        assert(v.take(k) =~= v);
        lemma_spent_nonneg(ts, v);
    }
}

proof fn lemma_spent_nonneg(ts: Seq<crate::model::ResolvedTalent>, v: Seq<(Seq<char>, i64)>)
    ensures
        spent(ts, v).0 >= 0,
        spent(ts, v).1 >= 0,
        spent(ts, v).2 >= 0,
    decreases v.len(),
{
    if v.len() > 0 {
        lemma_spent_nonneg(ts, v.drop_last());
    }
}

/// Points actually spent by a character: talents cost one point per rank,
/// blueprints one point each. Rows the catalogue does not know are ignored.
pub fn spent_points(catalog: &Catalog, talents: &[TalentEntry]) -> (r: SpentPoints)
    requires
        spent(catalog.rows(), entries_view(talents@)).0 <= i64::MAX,
        spent(catalog.rows(), entries_view(talents@)).1 <= i64::MAX,
        spent(catalog.rows(), entries_view(talents@)).2 <= i64::MAX,
    ensures
        r.talent == spent(catalog.rows(), entries_view(talents@)).0,
        r.solo == spent(catalog.rows(), entries_view(talents@)).1,
        r.blueprint == spent(catalog.rows(), entries_view(talents@)).2,
{
    spent_points_checked(catalog, talents).unwrap()
}

/// The points spent, or `None` where a pool's total does not fit in an
/// `i64`.
pub fn spent_points_checked(catalog: &Catalog, talents: &[TalentEntry]) -> (r: Option<SpentPoints>)
    ensures
        r is Some <==> (spent(catalog.rows(), entries_view(talents@)).0 <= i64::MAX && spent(
            catalog.rows(),
            entries_view(talents@),
        ).1 <= i64::MAX && spent(catalog.rows(), entries_view(talents@)).2 <= i64::MAX),
        r matches Some(p) ==> p.talent == spent(catalog.rows(), entries_view(talents@)).0 && p.solo == spent(
            catalog.rows(),
            entries_view(talents@),
        ).1 && p.blueprint == spent(catalog.rows(), entries_view(talents@)).2,
{
    let ghost ts = catalog.rows();
    let ghost v = entries_view(talents@);
    let mut out = SpentPoints { talent: 0, solo: 0, blueprint: 0 };
    let n = talents.len();
    proof {
        assert(v.take(0) =~= Seq::<(Seq<char>, i64)>::empty());
    }
    for k in 0..n
        invariant
            n == talents@.len(),
            v == entries_view(talents@),
            ts == catalog.rows(),
            out.talent == spent(ts, v.take(k as int)).0,
            out.solo == spent(ts, v.take(k as int)).1,
            out.blueprint == spent(ts, v.take(k as int)).2,
    {
        let e = &talents[k];
        proof {
            assert(v.take(k + 1).drop_last() =~= v.take(k as int));
            assert(v.take(k + 1).last() == v[k as int]);
            lemma_spent_prefix(ts, v, k + 1);
        }
        proof {
            crate::catalog::lemma_find_last(ts, e.row_name@);
        }
        match catalog.lookup(e.row_name.as_str()) {
            Some(i) => {
                let t = catalog.talent(i);
                let r: i64 = if e.rank < 1 {
                    1
                } else {
                    e.rank
                };
                match t.category {
                    Category::Talent => {
                        if str_eq(t.archetype.as_str(), "Solo") {
                            match out.solo.checked_add(r) {
                                Some(x) => out.solo = x,
                                None => return None,
                            }
                        } else {
                            match out.talent.checked_add(r) {
                                Some(x) => out.talent = x,
                                None => return None,
                            }
                        }
                    },
                    Category::Blueprint => {
                        match out.blueprint.checked_add(1) {
                            Some(x) => out.blueprint = x,
                            None => return None,
                        }
                    },
                    _ => {},
                }
            },
            None => {},
        }
    }
    proof {
        assert(v.take(n as int) =~= v);
    }
    Some(out)
}

/// How a character's spent points compare with what its level earns.
pub struct PointCheck {
    /// Talent points exceed the level's total plus every mission bonus.
    pub talent_over: bool,
    /// Talent points exceed the level's total, within the mission bonus.
    pub talent_bonus: bool,
    /// Solo points exceed what the level earns.
    pub solo_over: bool,
    /// Blueprint points exceed what the level earns.
    pub blueprint_over: bool,
}

/// Compares spent points with what a level earns: talent points may exceed
/// the level's total by the mission bonus before they are flagged; solo and
/// blueprint points are checked strictly.
pub fn check_points(est: &LevelEstimate, spent: &SpentPoints) -> (r: PointCheck)
    requires
        est.talent_points + MISSION_TALENT_BONUS_MAX <= i64::MAX,
    ensures
        r.talent_over == (spent.talent > est.talent_points + MISSION_TALENT_BONUS_MAX),
        r.talent_bonus == (!r.talent_over && spent.talent > est.talent_points),
        r.solo_over == (spent.solo > est.solo_points),
        r.blueprint_over == (spent.blueprint > est.blueprint_points),
{
    let talent_over = spent.talent > est.talent_points + MISSION_TALENT_BONUS_MAX;
    PointCheck {
        talent_over,
        talent_bonus: !talent_over && spent.talent > est.talent_points,
        solo_over: spent.solo > est.solo_points,
        blueprint_over: spent.blueprint > est.blueprint_points,
    }
}

} // verus!
