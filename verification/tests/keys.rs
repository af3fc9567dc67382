use rift::keys::{defaults, is_known_id};

/// The default table covers every group the script used to hardcode.
#[test]
fn defaults_cover_expected_ids() {
    let ids: Vec<String> = defaults().into_iter().map(|b| b.id).collect();
    for id in [
        "rift_focus_left",
        "rift_move_right",
        "rift_resize_left",
        "rift_layout_tile",
        "rift_layout_threecolumn",
        "rift_toggle_tiling",
        "rift_toggle_float",
        "rift_master_ratio_dec",
        "rift_master_count_inc",
    ] {
        assert!(ids.iter().any(|i| i == id), "missing binding id {id}");
    }
}

/// Punctuation bindings use the literal glyphs, never the enum names.
#[test]
fn master_keys_use_glyphs_not_names() {
    let by_id = |id: &str| defaults().into_iter().find(|b| b.id == id).unwrap().key;
    assert_eq!(by_id("rift_master_ratio_dec"), "Meta+Shift+-");
    assert_eq!(by_id("rift_master_ratio_inc"), "Meta+Shift+=");
    assert_eq!(by_id("rift_master_count_dec"), "Meta+Shift+,");
    assert_eq!(by_id("rift_master_count_inc"), "Meta+Shift+.");
}

/// Collision-prone layouts take their Shift variants.
#[test]
fn colliding_layouts_use_shift() {
    let by_id = |id: &str| defaults().into_iter().find(|b| b.id == id).unwrap().key;
    assert_eq!(by_id("rift_layout_tile"), "Meta+Shift+T");
    assert_eq!(by_id("rift_layout_threecolumn"), "Meta+Shift+D");
    assert_eq!(by_id("rift_layout_monocle"), "Meta+M");
}

#[test]
fn is_known_id_rejects_unknown() {
    assert!(is_known_id("rift_focus_left"));
    assert!(!is_known_id("rift_focus_sideways"));
}

#[test]
fn default_table_has_unique_ids_in_documented_order() {
    let table = defaults();
    assert_eq!(table.len(), 24);
    for (i, a) in table.iter().enumerate() {
        assert!(is_known_id(&a.id));
        for b in table.iter().skip(i + 1) {
            assert_ne!(a.id, b.id);
        }
    }
    assert_eq!(table[0].id, "rift_focus_left");
    assert_eq!(table[0].key, "Meta+H");
    assert_eq!(table[1].key, "Meta+J");
    assert_eq!(table[2].key, "Meta+K");
    assert_eq!(table[3].key, "Meta+L");
    assert_eq!(table[4].key, "Meta+Shift+H");
    assert_eq!(table[8].key, "Meta+Ctrl+H");
    let by_id = |id: &str| table.iter().find(|b| b.id == id).unwrap().key.clone();
    assert_eq!(by_id("rift_toggle_tiling"), "Meta+Y");
    assert_eq!(by_id("rift_toggle_float"), "Meta+Shift+Space");
    assert_eq!(by_id("rift_layout_floating"), "Meta+F");
}
