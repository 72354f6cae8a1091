use icarus_editor::levels::{
    blueprint_points_at, estimate, solo_points_at, talent_points_at, xp_anchor, ANCHOR_COUNT,
};
use icarus_editor::pak::content_relative;

#[test]
fn rebases_onto_content() {
    // Mount points as they actually appear in Icarus's paks.
    assert_eq!(
        content_relative("../../../Icarus/Content/", "ASS/VFX/NS_Foo.uasset"),
        "ASS/VFX/NS_Foo.uasset"
    );
    assert_eq!(
        content_relative("../../../Icarus/Content/ASS/", "DEP/T_Crate.uasset"),
        "ASS/DEP/T_Crate.uasset"
    );
    assert_eq!(
        content_relative("../../../Icarus/", "Content/TRD/Anim.uasset"),
        "TRD/Anim.uasset"
    );
}

#[test]
fn keeps_same_named_terrain_apart() {
    let olympus = content_relative(
        "../../../Icarus/Content/Maps/Terrain_016_OLY/",
        "HeightMap/HeightMap_x7_y4.uexp",
    );
    let styx = content_relative(
        "../../../Icarus/Content/Maps/Terrain_017_STYX/",
        "HeightMap/HeightMap_x7_y4.uexp",
    );
    assert_eq!(olympus, "Maps/Terrain_016_OLY/HeightMap/HeightMap_x7_y4.uexp");
    assert_ne!(olympus, styx);
}

#[test]
fn falls_back_when_mount_is_not_under_content() {
    // data.pak's mount point is a build-machine temp directory.
    assert_eq!(
        content_relative("C:/BA/work/92bbbfa44df12262/Temp/Data/", "Talents/D_Talents.json"),
        "Talents/D_Talents.json"
    );
}

#[test]
fn point_totals_match_community_table() {
    // Spot checks straight from the table.
    for (level, talents, blueprints) in [
        (0, 0, 0),
        (1, 1, 4),
        (2, 3, 7),
        (10, 15, 35),
        (20, 30, 70),
        (25, 37, 88),
        (30, 45, 105),
        (45, 67, 158),
        (60, 90, 210),
        (65, 90, 228),
        (100, 90, 350),
    ] {
        assert_eq!(talent_points_at(level), talents, "talent points at {level}");
        assert_eq!(blueprint_points_at(level), blueprints, "blueprint points at {level}");
    }
    // Solo pool: one point every 2 levels, capped at 30.
    for (level, solo) in [(0, 0), (1, 0), (2, 1), (30, 15), (59, 29), (60, 30), (100, 30)] {
        assert_eq!(solo_points_at(level), solo, "solo points at {level}");
    }
}

#[test]
fn level_from_xp_matches_table() {
    for i in 0..ANCHOR_COUNT {
        let (level, xp) = xp_anchor(i);
        assert_eq!(estimate(xp).level, level, "level at exactly {xp} XP");
        if level > 0 {
            assert_eq!(estimate(xp - 1).level, level - 1, "level just below {xp} XP");
        }
    }
    // Mid-bracket: 1,416,460 XP is level 30 (next level at 1,508,400).
    assert_eq!(estimate(1_416_460).level, 30);
    assert_eq!(estimate(20_000_000).level, 100);
}
