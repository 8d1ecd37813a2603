use label_review::cache::{EvictOutcome, ImageCache};
use label_review::modified::ModifiedSet;
use label_review::navigator::Navigator;

fn strings(v: &[&str]) -> Vec<String> {
    v.iter().map(|s| s.to_string()).collect()
}

fn nav(files: &[&str], current: Option<&str>) -> Navigator {
    let mut n = Navigator::new();
    n.files = strings(files);
    n.current = current.map(|s| s.to_string());
    n
}

#[test]
fn eviction_drops_the_furthest_entry() {
    let files = strings(&["A", "B", "C", "D", "E", "F"]);
    let mut c: ImageCache<u32> = ImageCache::new(3);
    c.insert("B".to_string(), 1);
    c.insert("C".to_string(), 2);
    c.insert("D".to_string(), 3);
    c.insert("F".to_string(), 5);
    assert_eq!(c.furthest_entry(&files, 2), Some(3));
    assert_eq!(c.enforce_bound(&files, "C"), EvictOutcome::Within);
    assert_eq!(c.len(), 3);
    assert!(!c.contains_key("F"));
    assert!(c.contains_key("B") && c.contains_key("C") && c.contains_key("D"));
}

#[test]
fn eviction_ties_go_to_the_first_entry() {
    let files = strings(&["A", "B", "C", "D", "E"]);
    let mut c: ImageCache<u32> = ImageCache::new(2);
    c.insert("D".to_string(), 0);
    c.insert("C".to_string(), 0);
    c.insert("B".to_string(), 0);
    assert_eq!(c.enforce_bound(&files, "C"), EvictOutcome::Within);
    assert!(!c.contains_key("D"));
    assert!(c.contains_key("B") && c.contains_key("C"));
}

#[test]
fn eviction_skipped_when_current_not_listed() {
    let files = strings(&["A", "B"]);
    let mut c: ImageCache<u32> = ImageCache::new(1);
    c.insert("A".to_string(), 0);
    c.insert("B".to_string(), 0);
    assert_eq!(c.enforce_bound(&files, "Z"), EvictOutcome::CurrentNotListed);
    assert_eq!(c.len(), 2);
}

#[test]
fn eviction_without_candidate() {
    let files = strings(&["A"]);
    let mut c: ImageCache<u32> = ImageCache::new(1);
    c.insert("A".to_string(), 0);
    c.insert("gone".to_string(), 0);
    assert_eq!(c.enforce_bound(&files, "A"), EvictOutcome::NoCandidate);
    assert_eq!(c.len(), 2);
}

#[test]
fn cache_insert_replaces_and_remove() {
    let mut c: ImageCache<u32> = ImageCache::new(5);
    c.insert("a".to_string(), 1);
    c.insert("a".to_string(), 2);
    assert_eq!(c.len(), 1);
    assert_eq!(c.get("a"), Some(&2));
    assert!(c.remove("a"));
    assert!(!c.remove("a"));
    assert_eq!(c.get("a"), None);
    assert_eq!(c.max_cache_size(), 5);
}

#[test]
fn prefetch_names_uncached_neighbours() {
    let files = strings(&["A", "B", "C", "D"]);
    let mut c: ImageCache<u32> = ImageCache::new(5);
    assert_eq!(c.prefetch_targets(&files, "B"), vec![2, 0]);
    c.insert("C".to_string(), 0);
    assert_eq!(c.prefetch_targets(&files, "B"), vec![0]);
    assert_eq!(c.prefetch_targets(&files, "A"), vec![1]);
    assert_eq!(c.prefetch_targets(&files, "D"), Vec::<usize>::new());
    assert_eq!(c.prefetch_targets(&files, "Q"), Vec::<usize>::new());
}

#[test]
fn steps_wrap_around() {
    let n = nav(&["A", "B", "C", "D"], Some("A"));
    assert_eq!(n.step_target(false), Some(3));
    let n = nav(&["A", "B", "C", "D"], Some("D"));
    assert_eq!(n.step_target(true), Some(0));
    assert_eq!(n.step_target(false), Some(2));
    let n = nav(&["A", "B"], None);
    assert_eq!(n.step_target(true), Some(0));
    assert_eq!(n.step_target(false), Some(0));
    let n = nav(&[], None);
    assert_eq!(n.step_target(true), None);
    let n = nav(&["A"], Some("gone"));
    assert_eq!(n.step_target(true), None);
}

#[test]
fn next_unmodified_wraps_then_reports_none() {
    let mut m = ModifiedSet::new();
    let mut n = nav(&["A", "B", "C"], Some("B"));
    assert_eq!(n.next_unmodified(&m), Some(2));
    n.visit("C".to_string(), false);
    assert_eq!(n.next_unmodified(&m), Some(0));
    n.visit("A".to_string(), false);
    for x in ["A", "B", "C"] {
        m.insert(x.to_string());
    }
    assert_eq!(n.next_unmodified(&m), None);
}

#[test]
fn next_unmodified_skips_the_current_image() {
    let mut m = ModifiedSet::new();
    m.insert("A".to_string());
    let n = nav(&["A", "B", "C"], Some("B"));
    m.insert("C".to_string());
    assert_eq!(n.next_unmodified(&m), None);
    let n = nav(&["A", "B", "C"], None);
    assert_eq!(n.next_unmodified(&m), Some(1));
}

#[test]
fn random_pick_is_unmodified() {
    let mut m = ModifiedSet::new();
    m.insert("A".to_string());
    m.insert("C".to_string());
    let n = nav(&["A", "B", "C", "D"], None);
    assert_eq!(n.unmodified_positions(&m), vec![1, 3]);
    for _ in 0..50 {
        let p = n.random_unmodified(&m).unwrap();
        assert!(p == 1 || p == 3);
    }
    m.insert("B".to_string());
    m.insert("D".to_string());
    assert_eq!(n.random_unmodified(&m), None);
}

#[test]
fn history_pushes_only_on_change() {
    let mut n = nav(&["A", "B", "C"], None);
    n.visit("A".to_string(), false);
    assert!(n.history.is_empty());
    n.visit("B".to_string(), false);
    n.visit("B".to_string(), false);
    n.visit("C".to_string(), false);
    assert_eq!(n.history, vec!["A", "B"]);
    let back = n.go_back().unwrap();
    assert_eq!(back, "B");
    n.visit(back, true);
    assert_eq!(n.history, vec!["A"]);
    assert_eq!(n.current.as_deref(), Some("B"));
    assert_eq!(n.go_back().as_deref(), Some("A"));
    assert_eq!(n.go_back(), None);
}

#[test]
fn set_files_lists_images_sorted() {
    let mut n = Navigator::new();
    n.set_files(&strings(&["b.png", "a.jpg", "x.txt"]));
    assert_eq!(n.files, vec!["a.jpg", "b.png"]);
    n.current = Some("b.png".to_string());
    assert_eq!(n.current_position(), Some(1));
}
