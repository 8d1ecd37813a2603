use image::DynamicImage;
use label_review::cache::EvictOutcome;
use label_review::export::{check_export, export_plan, ExportError};
use label_review::imaging::{fit_within, resize_to_limit};
use label_review::modified::ModifiedSet;
use label_review::session::{AnnotationApp, DEFAULT_CACHE_SIZE};

fn strings(v: &[&str]) -> Vec<String> {
    v.iter().map(|s| s.to_string()).collect()
}

#[test]
fn fitted_sizes() {
    assert_eq!(fit_within(800, 600, 1920, 1080), (800, 600));
    assert_eq!(fit_within(3840, 2160, 1920, 1080), (1920, 1080));
    assert_eq!(fit_within(4000, 1000, 1920, 1080), (1920, 480));
    assert_eq!(fit_within(1000, 3000, 1920, 1080), (360, 1080));
    assert_eq!(fit_within(100000, 10, 1920, 1080), (1920, 0));
    assert_eq!(fit_within(0, 5000, 1920, 1080), (0, 1080));
    assert_eq!(fit_within(1920, 1080, 1920, 1080), (1920, 1080));
}

#[test]
fn resize_caps_large_images() {
    let img = DynamicImage::new_rgb8(4000, 1000);
    let r = resize_to_limit(&img, 1920, 1080);
    assert_eq!((r.width(), r.height()), (1920, 480));
    let small = DynamicImage::new_rgb8(30, 20);
    let r = resize_to_limit(&small, 1920, 1080);
    assert_eq!((r.width(), r.height()), (30, 20));
}

#[test]
fn export_checks_in_order() {
    assert_eq!(check_export(0, false, false), Err(ExportError::NothingModified));
    assert_eq!(check_export(2, false, true), Err(ExportError::DirectoriesUnset));
    assert_eq!(check_export(2, true, false), Err(ExportError::DestinationNotEmpty));
    assert_eq!(check_export(2, true, true), Ok(()));
}

#[test]
fn export_plan_pairs_images_with_labels() {
    let mut m = ModifiedSet::new();
    m.insert("a.jpg".to_string());
    m.insert("b.c.png".to_string());
    let mut plan: Vec<(String, String)> =
        export_plan(&m).into_iter().map(|i| (i.image, i.label)).collect();
    plan.sort();
    assert_eq!(
        plan,
        vec![
            ("a.jpg".to_string(), "a.txt".to_string()),
            ("b.c.png".to_string(), "b.c.txt".to_string())
        ]
    );
}

fn load(app: &mut AnnotationApp<u32>, name: &str) -> EvictOutcome {
    if app.cached(name).is_some() {
        app.show_cached(name.to_string(), false);
        return EvictOutcome::Within;
    }
    let targets = app.prefetch_targets(name);
    let neighbours: Vec<(usize, u32)> = targets.iter().map(|&p| (p, p as u32)).collect();
    app.store_loaded(name.to_string(), 99, neighbours, false)
}

#[test]
fn cache_stays_bounded_over_many_loads() {
    let mut app: AnnotationApp<u32> = AnnotationApp::new(3);
    let names: Vec<String> = (0..10).map(|i| format!("img{}.jpg", i)).collect();
    app.update_file_list(&names, &vec![]);
    assert_eq!(app.statistics.total_images, 10);
    let order = [0usize, 1, 2, 9, 5, 4, 4, 3, 8, 0, 7];
    for &i in order.iter() {
        let outcome = load(&mut app, &names[i]);
        assert_eq!(outcome, EvictOutcome::Within);
        assert!(app.image_cache.len() <= 3);
        assert!(app.image_cache.contains_key(&names[i]));
        assert_eq!(app.navigator.current.as_deref(), Some(names[i].as_str()));
    }
}

#[test]
fn default_cache_keeps_neighbours() {
    let mut app: AnnotationApp<u32> = AnnotationApp::new(DEFAULT_CACHE_SIZE);
    let names = strings(&["a.jpg", "b.jpg", "c.jpg", "d.jpg"]);
    app.update_file_list(&names, &vec![]);
    load(&mut app, "b.jpg");
    assert_eq!(app.image_cache.len(), 3);
    assert_eq!(app.image_cache.get("b.jpg"), Some(&99));
    assert_eq!(app.image_cache.get("c.jpg"), Some(&2));
    assert_eq!(app.image_cache.get("a.jpg"), Some(&0));
}

#[test]
fn session_navigation_and_marks() {
    let mut app: AnnotationApp<u32> = AnnotationApp::new(5);
    app.update_file_list(&strings(&["a.jpg", "b.jpg", "c.jpg"]), &vec![]);
    assert_eq!(app.switch_image(true, false), Some(0));
    load(&mut app, "a.jpg");
    app.mark_current_modified(&vec![1, 2, 2]);
    assert_eq!(app.statistics.modified_images, 1);
    assert_eq!(app.statistics.current_class_counts.get(&2), Some(&2));
    assert_eq!(app.switch_image(false, false), Some(2));
    assert_eq!(app.switch_to_next_unmodified(), Some(1));
    load(&mut app, "b.jpg");
    assert_eq!(app.go_back().as_deref(), Some("a.jpg"));
    let r = app.switch_image(true, true).unwrap();
    assert!(r == 1 || r == 2);
    app.update_total_statistics(&vec![3, 3]);
    app.update_statistics(&vec![]);
    assert_eq!(app.statistics.total_class_counts.get(&3), Some(&2));
    let saved = app.save_modified_records();
    assert_eq!(saved, vec!["a.jpg"]);
    app.forget_image("a.jpg");
    assert!(app.cached("a.jpg").is_none());
    assert!(!app.modified_images.contains("a.jpg"));
    app.load_modified_records(&saved);
    assert!(app.modified_images.contains("a.jpg"));
}

#[test]
fn update_image_cache_evicts_furthest_around_current() {
    let mut app: AnnotationApp<u32> = AnnotationApp::new(3);
    app.update_file_list(&strings(&["a.jpg", "b.jpg", "c.jpg", "d.jpg", "e.jpg", "f.jpg"]), &vec![]);
    app.navigator.current = Some("c.jpg".to_string());
    for (k, v) in [("b.jpg", 1u32), ("c.jpg", 2), ("d.jpg", 3)] {
        app.image_cache.insert(k.to_string(), v);
    }
    app.update_total_statistics(&vec![7, 7]);
    let outcome = app.update_image_cache("f.jpg".to_string(), 5, vec![(4, 4)]);
    assert_eq!(outcome, EvictOutcome::Within);
    assert_eq!(app.image_cache.len(), 3);
    assert_eq!(app.image_cache.get("b.jpg"), Some(&1));
    assert_eq!(app.image_cache.get("c.jpg"), Some(&2));
    assert_eq!(app.image_cache.get("d.jpg"), Some(&3));
    assert!(!app.image_cache.contains_key("e.jpg") && !app.image_cache.contains_key("f.jpg"));
    assert_eq!(app.statistics.total_class_counts.get(&7), Some(&2));
}

#[test]
fn update_image_cache_without_current_evicts_nothing() {
    let mut app: AnnotationApp<u32> = AnnotationApp::new(1);
    app.update_file_list(&strings(&["a.jpg", "b.jpg", "c.jpg"]), &vec![]);
    let outcome = app.update_image_cache("b.jpg".to_string(), 1, vec![(2, 2), (0, 0), (9, 9)]);
    assert_eq!(outcome, EvictOutcome::CurrentNotListed);
    assert_eq!(app.image_cache.len(), 3);
    assert_eq!(app.image_cache.get("c.jpg"), Some(&2));
}

#[test]
fn loading_keeps_corpus_counts() {
    let mut app: AnnotationApp<u32> = AnnotationApp::new(2);
    app.update_file_list(&strings(&["a.jpg", "b.jpg", "c.jpg"]), &vec![]);
    app.update_total_statistics(&vec![1, 2, 2]);
    load(&mut app, "a.jpg");
    load(&mut app, "c.jpg");
    assert_eq!(app.go_back().as_deref(), Some("a.jpg"));
    assert_eq!(app.statistics.total_class_counts.len(), 2);
    assert_eq!(app.statistics.total_class_counts.get(&2), Some(&2));
}

#[test]
fn image_within_cap_is_returned_unchanged() {
    let small = DynamicImage::new_rgb8(30, 20);
    assert_eq!(resize_to_limit(&small, 30, 20), small);
}

#[test]
fn next_at_last_wraps_to_first() {
    let mut app: AnnotationApp<u32> = AnnotationApp::new(5);
    app.update_file_list(&strings(&["a.jpg", "b.jpg", "c.jpg"]), &vec![]);
    load(&mut app, "c.jpg");
    assert_eq!(app.switch_image(true, false), Some(0));
    load(&mut app, "a.jpg");
    assert_eq!(app.switch_image(false, false), Some(2));
}
