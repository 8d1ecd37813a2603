//! Image and per-class box counts.
use std::collections::HashMap;
use vstd::prelude::*;

verus! {

/// How many times `k` occurs in `s`.
pub open spec fn count_in(s: Seq<i32>, k: i32) -> nat
    decreases s.len(),
{
    if s.len() == 0 {
        0
    } else {
        count_in(s.drop_last(), k) + if s.last() == k {
            1nat
        } else {
            0nat
        }
    }
}

/// `m` maps each class occurring in `s` to its number of occurrences, and
/// holds no other class.
pub open spec fn is_tally(m: Map<i32, usize>, s: Seq<i32>) -> bool {
    &&& forall|k: i32| #[trigger] m.contains_key(k) <==> count_in(s, k) > 0
    &&& forall|k: i32| #[trigger] m.contains_key(k) ==> m[k] == count_in(s, k)
}

proof fn lemma_count_bound(s: Seq<i32>, k: i32)
    ensures
        count_in(s, k) <= s.len(),
    decreases s.len(),
{
    if s.len() > 0 {
        lemma_count_bound(s.drop_last(), k);
    }
}

/// Counts the occurrences of each class.
pub fn tally(classes: &Vec<i32>) -> (r: HashMap<i32, usize>)
    ensures
        is_tally(r@, classes@),
{
    let mut m: HashMap<i32, usize> = HashMap::new();
    let mut i: usize = 0;
    while i < classes.len()
        invariant
            i <= classes@.len(),
            is_tally(m@, classes@.subrange(0, i as int)),
        decreases classes@.len() - i,
    {
        let c = classes[i];
        let ghost pre = classes@.subrange(0, i as int);
        let ghost post = classes@.subrange(0, i + 1);
        assert(post.drop_last() =~= pre);
        assert(post.last() == c);
        proof {
            lemma_count_bound(pre, c);
        }
        let n: usize = match m.get(&c) {
            Some(v) => *v,
            None => 0,
        };
        assert(n == count_in(pre, c));
        m.insert(c, n + 1);
        assert forall|k: i32| #[trigger] m@.contains_key(k) <==> count_in(post, k) > 0 by {}
        assert forall|k: i32| #[trigger] m@.contains_key(k) implies m@[k] == count_in(post, k) by {}
        i = i + 1;
    }
    assert(classes@.subrange(0, i as int) =~= classes@);
    m
}

/// Counts shown beside the images.
#[derive(Clone)]
pub struct Statistics {
    /// Number of images in the list.
    pub total_images: usize,
    /// Number of images whose labels were saved.
    pub modified_images: usize,
    /// Boxes per class over every label file, as of the last rescan.
    pub total_class_counts: HashMap<i32, usize>,
    /// Boxes per class in the current image.
    pub current_class_counts: HashMap<i32, usize>,
}

impl Default for Statistics {
    fn default() -> (r: Statistics)
        ensures
            r.total_images == 0,
            r.modified_images == 0,
            r.total_class_counts@ == Map::<i32, usize>::empty(),
            r.current_class_counts@ == Map::<i32, usize>::empty(),
    {
        Statistics {
            total_images: 0,
            modified_images: 0,
            total_class_counts: HashMap::new(),
            current_class_counts: HashMap::new(),
        }
    }
}

impl Statistics {
    /// The cheap update after a change to the current image's boxes: sets the
    /// two image counts and recounts the current classes. The corpus counts
    /// are left as they were.
    pub fn recompute_current(
        &mut self,
        total_images: usize,
        modified_images: usize,
        classes: &Vec<i32>,
    )
        ensures
            final(self).total_images == total_images,
            final(self).modified_images == modified_images,
            is_tally(final(self).current_class_counts@, classes@),
            final(self).total_class_counts@ == old(self).total_class_counts@,
    {
        self.total_images = total_images;
        self.modified_images = modified_images;
        self.current_class_counts = tally(classes);
    }

    /// The full rescan: replaces the corpus counts by a count of `classes`,
    /// the class of every box in every label file.
    pub fn recompute_corpus(&mut self, classes: &Vec<i32>)
        ensures
            is_tally(final(self).total_class_counts@, classes@),
            final(self).total_images == old(self).total_images,
            final(self).modified_images == old(self).modified_images,
            final(self).current_class_counts@ == old(self).current_class_counts@,
    {
        self.total_class_counts = tally(classes);
    }
}

} // verus!
