use cooklang_find::ffi::FfiStepImages;
use cooklang_find::step_images::{find_step_images, StepImageCollection};

#[test]
fn test_step_images_conversion() {
    let mut collection = StepImageCollection::new();
    collection.insert(0, 0, "/path/to/image1.jpg".to_string());
    collection.insert(0, 2, "/path/to/image3.jpg".to_string());

    let ffi_images = FfiStepImages::of_collection(&collection);
    assert_eq!(ffi_images.count, 2);
    assert_eq!(ffi_images.images[0].section, 0);
    assert_eq!(ffi_images.images[0].step, 1);
    assert_eq!(ffi_images.images[1].step, 3);
}

#[test]
fn test_step_image_round_trip() {
    // a document named Recipe.2.4.jpg on disk is retrievable via (2, 4)
    // and only via (2, 4)
    let files = vec!["/r/Recipe.2.4.jpg".to_string()];
    let col = find_step_images("/r/Recipe.cook", &files);
    assert_eq!(col.get(2, 4).unwrap(), "/r/Recipe.2.4.jpg");
    assert!(col.get(0, 2).is_none());
    assert!(col.get(2, 2).is_none());
    assert!(col.get(0, 4).is_none());
    assert!(col.get(4, 2).is_none());
}

#[test]
fn test_step_zero_is_absent() {
    let files = vec![
        "/r/Recipe.1.jpg".to_string(),
        "/r/Recipe.2.4.jpg".to_string(),
    ];
    let col = find_step_images("/r/Recipe.cook", &files);
    assert!(col.get(0, 0).is_none());
    assert!(col.get(1, 0).is_none());
    assert!(col.get(2, 0).is_none());
    // while the populated slots answer
    assert_eq!(col.get(0, 1).unwrap(), "/r/Recipe.1.jpg");
    assert_eq!(col.get(2, 4).unwrap(), "/r/Recipe.2.4.jpg");
}

#[test]
fn test_step_image_extension_priority() {
    // jpg is found before png for the same slot
    let files = vec![
        "/r/Recipe.1.png".to_string(),
        "/r/Recipe.1.jpg".to_string(),
    ];
    let col = find_step_images("/r/Recipe.cook", &files);
    assert_eq!(col.get(0, 1).unwrap(), "/r/Recipe.1.jpg");
}

#[test]
fn test_step_image_rejects_bad_patterns() {
    let files = vec![
        "/r/Recipe.0.jpg".to_string(),      // group below one
        "/r/Recipe.1.0.jpg".to_string(),    // second group below one
        "/r/Recipe.a.jpg".to_string(),      // not numeric
        "/r/Recipe.1.2.3.jpg".to_string(),  // three groups
        "/r/Recipe..jpg".to_string(),       // empty group
        "/r/Other.1.jpg".to_string(),       // different stem
    ];
    let col = find_step_images("/r/Recipe.cook", &files);
    assert_eq!(col.len(), 0);
}

#[test]
fn test_step_image_huge_number_rejected() {
    // a numeric group too large for a machine word is no step image
    let files = vec!["/r/Recipe.99999999999999999999.jpg".to_string()];
    let col = find_step_images("/r/Recipe.cook", &files);
    assert_eq!(col.len(), 0);
}

#[test]
fn test_step_image_leading_zeros() {
    // a zero-padded group still names its number
    let files = vec!["/r/Recipe.01.jpg".to_string()];
    let col = find_step_images("/r/Recipe.cook", &files);
    assert_eq!(col.get(0, 1).unwrap(), "/r/Recipe.01.jpg");
}

#[test]
fn test_step_images_sorted_in_flat_form() {
    let files = vec![
        "/r/Recipe.2.2.jpg".to_string(),
        "/r/Recipe.1.jpg".to_string(),
        "/r/Recipe.2.1.jpg".to_string(),
        "/r/Recipe.3.jpg".to_string(),
    ];
    let col = find_step_images("/r/Recipe.cook", &files);
    let flat = FfiStepImages::of_collection(&col);
    assert_eq!(flat.count, 4);
    // section 0 (linear) first, then the named section, steps ascending
    assert_eq!((flat.images[0].section, flat.images[0].step), (0, 1));
    assert_eq!((flat.images[1].section, flat.images[1].step), (0, 3));
    assert_eq!((flat.images[2].section, flat.images[2].step), (2, 1));
    assert_eq!((flat.images[3].section, flat.images[3].step), (2, 2));
}

#[test]
fn test_step_image_insert_first_write_wins() {
    let mut col = StepImageCollection::new();
    col.insert(1, 1, "first.jpg".to_string());
    col.insert(1, 1, "second.jpg".to_string());
    assert_eq!(col.get(2, 2).unwrap(), "first.jpg");
    assert_eq!(col.len(), 1);
}
