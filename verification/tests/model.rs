//! The document model, selection state, and configuration.

use pose2d::config::Configuration;
use pose2d::schema::{SchemaBone, SchemaData, SchemaFile, SchemaImage, SchemaView};
use pose2d::ui_state::UiState;

#[test]
fn get_view_returns_first_match() {
    let mut data = SchemaData { views: vec![] };
    let mut v1 = SchemaView::default();
    v1.name = b"dup".to_vec();
    v1.images.push(SchemaImage { file: b"one.png".to_vec() });
    let mut v2 = SchemaView::default();
    v2.name = b"dup".to_vec();
    v2.images.push(SchemaImage { file: b"two.png".to_vec() });
    data.add_view(v1);
    data.add_view(v2);
    let i = data.get_view(&b"dup".to_vec()).unwrap();
    assert_eq!(i, 0);
    assert_eq!(data.views[i].images[0].file, b"one.png".to_vec());
    assert!(data.get_view(&b"absent".to_vec()).is_none());
}

#[test]
fn structural_mutation_is_total() {
    let mut view = SchemaView::default();
    view.add_image(SchemaImage { file: b"a.png".to_vec() });
    view.add_image(SchemaImage { file: b"b.png".to_vec() });
    view.add_bone(SchemaBone::default());
    view.remove_image(0);
    assert_eq!(view.images.len(), 1);
    assert_eq!(view.images[0].file, b"b.png".to_vec());
    assert_eq!(view.bones.len(), 1);
    view.rename(b"renamed".to_vec());
    assert_eq!(view.name, b"renamed".to_vec());
    let mut bone = SchemaBone::default();
    bone.rename_label(b"hip".to_vec());
    assert_eq!(bone.label, b"hip".to_vec());
    // empty strings are legal: no validation on mutation
    view.rename(b"".to_vec());
    assert_eq!(view.name, b"".to_vec());
}

#[test]
fn defaults_are_empty_and_zeroed() {
    let bone = SchemaBone::default();
    assert_eq!(bone.label, b"".to_vec());
    assert_eq!(bone.name, b"".to_vec());
    assert_eq!(bone.x, b"0".to_vec());
    assert_eq!(bone.y, b"0".to_vec());
    let data = SchemaData::default();
    assert_eq!(data.views.len(), 0);
    let file = SchemaFile::default();
    assert!(file.path.is_none());
    assert_eq!(file.data.views.len(), 0);
}

#[test]
fn selection_is_string_keyed_first_match() {
    let mut state = UiState::default();
    let mut view = SchemaView::default();
    view.name = b"side".to_vec();
    assert!(!state.is_open_view(&view));
    state.open_view(&view);
    assert!(state.is_open_view(&view));
    let mut bone = SchemaBone::default();
    bone.label = b"hip".to_vec();
    assert!(!state.is_selected_bone(&bone));
    state.select_bone(&bone);
    assert!(state.is_selected_bone(&bone));
    // a same-labeled duplicate is ambiguous by design: it also matches
    let mut dup = SchemaBone::default();
    dup.label = b"hip".to_vec();
    assert!(state.is_selected_bone(&dup));
    // opening a view clears the bone selection
    state.open_view(&view);
    assert!(!state.is_selected_bone(&bone));
}

#[test]
fn configuration_resolves_against_base_directory() {
    let cfg = Configuration::open();
    assert!(cfg.image_path.is_none());
    assert!(cfg.resolve(&b"img.png".to_vec()).is_none());
    let cfg2 = Configuration { image_path: Some(b"/base/dir".to_vec()) };
    assert_eq!(cfg2.resolve(&b"img.png".to_vec()).unwrap(), b"/base/dir/img.png".to_vec());
}
