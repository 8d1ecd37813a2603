use label_review::modified::ModifiedSet;
use label_review::stats::{tally, Statistics};

fn strings(v: &[&str]) -> Vec<String> {
    v.iter().map(|s| s.to_string()).collect()
}

#[test]
fn modified_set_insert_remove() {
    let mut m = ModifiedSet::new();
    assert!(m.is_empty());
    m.insert("a.jpg".to_string());
    m.insert("a.jpg".to_string());
    m.insert("b.png".to_string());
    assert_eq!(m.len(), 2);
    assert!(m.contains("a.jpg"));
    m.remove("a.jpg");
    assert!(!m.contains("a.jpg"));
    assert_eq!(m.len(), 1);
    m.remove("zzz");
    assert_eq!(m.len(), 1);
}

#[test]
fn loading_records_is_additive_and_idempotent() {
    let mut m = ModifiedSet::new();
    m.insert("x.jpg".to_string());
    let file = strings(&["a.jpg", "b.jpg", "a.jpg"]);
    m.load_records(&file);
    assert_eq!(m.len(), 3);
    m.load_records(&file);
    assert_eq!(m.len(), 3);
    assert!(m.contains("x.jpg") && m.contains("a.jpg") && m.contains("b.jpg"));
}

#[test]
fn save_then_load_in_any_order() {
    let mut m = ModifiedSet::new();
    for n in ["c.png", "a.jpg", "b.jpg"] {
        m.insert(n.to_string());
    }
    let mut saved = m.save_records();
    assert_eq!(saved.len(), 3);
    saved.reverse();
    let mut back = ModifiedSet::new();
    back.load_records(&saved);
    assert_eq!(back.len(), 3);
    for n in ["c.png", "a.jpg", "b.jpg"] {
        assert!(back.contains(n));
    }
}

#[test]
fn tally_counts_classes() {
    let t = tally(&vec![1, 2, 1, -3, 1]);
    assert_eq!(t.len(), 3);
    assert_eq!(t.get(&1), Some(&3));
    assert_eq!(t.get(&2), Some(&1));
    assert_eq!(t.get(&-3), Some(&1));
    assert!(tally(&Vec::new()).is_empty());
}

#[test]
fn recompute_current_leaves_corpus_counts() {
    let mut s = Statistics::default();
    s.recompute_corpus(&vec![0, 0, 4]);
    s.recompute_current(10, 3, &vec![1, 1]);
    assert_eq!(s.total_images, 10);
    assert_eq!(s.modified_images, 3);
    assert_eq!(s.current_class_counts.get(&1), Some(&2));
    assert_eq!(s.total_class_counts.len(), 2);
    assert_eq!(s.total_class_counts.get(&0), Some(&2));
    assert_eq!(s.total_class_counts.get(&4), Some(&1));
    s.recompute_current(11, 4, &vec![]);
    assert!(s.current_class_counts.is_empty());
    assert_eq!(s.total_class_counts.get(&0), Some(&2));
}

#[test]
fn recompute_corpus_replaces_counts() {
    let mut s = Statistics::default();
    s.recompute_corpus(&vec![0, 0, 4]);
    s.recompute_current(2, 1, &vec![9]);
    s.recompute_corpus(&vec![5]);
    assert_eq!(s.total_class_counts.len(), 1);
    assert_eq!(s.total_class_counts.get(&5), Some(&1));
    assert_eq!(s.current_class_counts.get(&9), Some(&1));
    assert_eq!(s.total_images, 2);
}
