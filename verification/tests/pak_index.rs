use icarus_editor::pak::{game_path_to_asset_base, icon_file_name, PakIndex};

#[test]
fn first_pak_to_claim_a_path_keeps_it() {
    let mut index = PakIndex::new();
    let a = index.add_pak(
        "../../../Icarus/Content/",
        &["Talents/D_Talents.json".to_string(), "ASS/T.uasset".to_string()],
    );
    let b = index.add_pak("../../../Icarus/Content/ASS/", &["T.uasset".to_string(), "U.uasset".to_string()]);
    assert_eq!((a, b), (0, 1));
    assert_eq!(index.lookup("ASS/T.uasset"), Some((0, "ASS/T.uasset".to_string())));
    assert_eq!(index.lookup("ASS/U.uasset"), Some((1, "U.uasset".to_string())));
    assert_eq!(index.lookup("Talents/D_Talents.json"), Some((0, "Talents/D_Talents.json".to_string())));
    assert_eq!(index.lookup("Missing.json"), None);
    assert_eq!(index.collision_paths(), vec!["ASS/T.uasset".to_string()]);
}

#[test]
fn game_paths_map_to_asset_bases() {
    assert_eq!(
        game_path_to_asset_base("/Game/Assets/2DArt/UI/Icons/Icon_Foo.Icon_Foo"),
        Some("Assets/2DArt/UI/Icons/Icon_Foo".to_string())
    );
    assert_eq!(game_path_to_asset_base("/Game/No/Dot"), None);
    assert_eq!(game_path_to_asset_base("/Other/A.A"), None);
    assert_eq!(game_path_to_asset_base("/Game/a.b.c"), Some("a.b".to_string()));
}

#[test]
fn icon_file_names_flatten_the_path() {
    assert_eq!(icon_file_name("Assets/UI/Icon_Foo"), "Assets_UI_Icon_Foo.png");
}
