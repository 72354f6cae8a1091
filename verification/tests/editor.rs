use icarus_editor::editor::{
    first_selection, loaded_message, restore_summary, restored_message, shows_character_tabs, shows_restore,
    tab_label,
};

#[test]
fn editor_messages() {
    assert_eq!(loaded_message(3), "Loaded 3 character(s).");
    assert_eq!(restored_message(1), "Restored 1 character(s) from this session.");
    assert_eq!(restore_summary(12), "12 character(s)");
    assert_eq!(tab_label("Ana", 2), "Ana (slot 2)");
    assert_eq!(tab_label("Bo", -1), "Bo (slot -1)");
}

#[test]
fn editor_choices() {
    assert_eq!(first_selection(0), None);
    assert_eq!(first_selection(4), Some(0));
    assert!(shows_restore(false, true));
    assert!(!shows_restore(true, true));
    assert!(!shows_restore(false, false));
    assert!(shows_character_tabs(2));
    assert!(!shows_character_tabs(1));
}
