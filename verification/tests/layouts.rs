use isotope::layouts::{descriptor_label, LayoutError, LayoutsManager};

#[test]
fn layouts_are_created_once_per_label() {
    let mut manager: LayoutsManager<u32> = LayoutsManager::new();
    assert_eq!(manager.get_layout_from_label("camera").err(), Some(LayoutError::Missing));
    assert_eq!(*manager.get_layout_from_desc("camera", 1), 1);
    // a second layout under the same label is dropped
    assert_eq!(*manager.get_layout_from_desc("camera", 2), 1);
    assert_eq!(*manager.get_layout_from_desc("lights", 3), 3);
    assert_eq!(manager.get_layout_from_label("camera").ok(), Some(&1));
    assert_eq!(manager.get_layout_from_label("lights").ok(), Some(&3));
}

#[test]
fn descriptors_need_a_label() {
    assert_eq!(descriptor_label(None).err(), Some(LayoutError::NoLabel));
    assert_eq!(descriptor_label(Some("camera")).ok(), Some("camera".to_string()));
}
