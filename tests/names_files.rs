use label_review::names::{file_stem, image_file_list, is_image_file, label_file_name, name_precedes, position_of};

fn strings(v: &[&str]) -> Vec<String> {
    v.iter().map(|s| s.to_string()).collect()
}

#[test]
fn image_extensions() {
    assert!(is_image_file("a.jpg"));
    assert!(is_image_file("photo.png"));
    assert!(!is_image_file(".png"));
    assert!(!is_image_file("a.JPG"));
    assert!(!is_image_file("a.txt"));
    assert!(!is_image_file("jpg"));
    assert!(is_image_file("x..png"));
}

#[test]
fn stems_and_label_names() {
    assert_eq!(file_stem("img_001.jpg"), "img_001");
    assert_eq!(file_stem("a.b.png"), "a.b");
    assert_eq!(file_stem(".hidden"), ".hidden");
    assert_eq!(file_stem("noext"), "noext");
    assert_eq!(label_file_name("img_001.jpg"), "img_001.txt");
    assert_eq!(label_file_name("a.b.png"), "a.b.txt");
}

#[test]
fn names_order_by_code_point() {
    assert!(name_precedes("a.jpg", "b.jpg"));
    assert!(name_precedes("a", "ab"));
    assert!(!name_precedes("ab", "a"));
    assert!(!name_precedes("a", "a"));
    assert!(name_precedes("B", "a"));
}

#[test]
fn file_list_filters_sorts_and_dedups() {
    let got = image_file_list(&strings(&["c.png", "notes.txt", "a.jpg", "b.png", "a.jpg", "d.gif"]));
    assert_eq!(got, vec!["a.jpg", "b.png", "c.png"]);
    assert!(image_file_list(&Vec::new()).is_empty());
}

#[test]
fn position_is_first_occurrence() {
    let files = strings(&["a", "b", "c"]);
    assert_eq!(position_of(&files, "c"), Some(2));
    assert_eq!(position_of(&files, "z"), None);
}
