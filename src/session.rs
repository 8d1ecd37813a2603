//! The reviewing session: the image list and position, the image cache, the
//! modified set and the statistics, moved together.
//!
//! Decoding images and reading or writing files is the caller's part. A load
//! goes: `cached` to look for the image; on a hit `show_cached`; on a miss
//! decode it, decode the places `prefetch_targets` names, and hand all of it
//! to `store_loaded`.
use vstd::prelude::*;

use crate::cache::{distance, eviction_result, inserted, keys_of, prefetch_spec, EvictOutcome, ImageCache};
use crate::modified::ModifiedSet;
use crate::names::{first_index, is_image_name, lemma_first_index, strictly_sorted};
use crate::navigator::{in_scan, lemma_wraparound, scan_rank, step_spec, Navigator};
use crate::stats::{is_tally, Statistics};

verus! {

/// The number of decoded images kept by default.
pub const DEFAULT_CACHE_SIZE: usize = 5;

pub struct AnnotationApp<V> {
    pub navigator: Navigator,
    pub image_cache: ImageCache<V>,
    pub modified_images: ModifiedSet,
    pub statistics: Statistics,
}

impl<V> AnnotationApp<V> {
    pub open spec fn wf(&self) -> bool {
        &&& self.image_cache.wf()
        &&& self.modified_images.wf()
        &&& strictly_sorted(self.navigator.files.deep_view())
    }

    /// Every cached image is in the list.
    pub open spec fn cache_listed(&self) -> bool {
        forall|j: int|
            0 <= j < self.image_cache@.len() ==> self.navigator.files.deep_view().contains(
                #[trigger] keys_of(self.image_cache@)[j],
            )
    }

    pub fn new(max_cache_size: usize) -> (r: AnnotationApp<V>)
        ensures
            r.wf(),
            r.navigator.files@.len() == 0,
            r.navigator.current is None,
            r.navigator.history@.len() == 0,
            r.image_cache@.len() == 0,
            r.image_cache.capacity() == max_cache_size,
            r.modified_images@ == Set::<Seq<char>>::empty(),
            r.statistics.total_images == 0,
            r.statistics.modified_images == 0,
            r.statistics.total_class_counts@ == Map::<i32, usize>::empty(),
            r.statistics.current_class_counts@ == Map::<i32, usize>::empty(),
    {
        AnnotationApp {
            navigator: Navigator::new(),
            image_cache: ImageCache::new(max_cache_size),
            modified_images: ModifiedSet::new(),
            statistics: Statistics::default(),
        }
    }

    /// The cheap statistics update: image counts from the list and the
    /// modified set, class counts from `classes`, the classes of the current
    /// image's boxes. The corpus counts stay as they were.
    pub fn update_statistics(&mut self, classes: &Vec<i32>)
        requires
            old(self).wf(),
        ensures
            final(self).wf(),
            final(self).navigator == old(self).navigator,
            final(self).image_cache == old(self).image_cache,
            final(self).modified_images == old(self).modified_images,
            final(self).statistics.total_images == old(self).navigator.files@.len(),
            final(self).statistics.modified_images == old(self).modified_images@.len(),
            is_tally(final(self).statistics.current_class_counts@, classes@),
            final(self).statistics.total_class_counts@
                == old(self).statistics.total_class_counts@,
    {
        let total = self.navigator.files.len();
        let modified = self.modified_images.len();
        self.statistics.recompute_current(total, modified, classes);
    }

    /// The corpus rescan: `classes` holds the class of every box in every
    /// label file of the list.
    pub fn update_total_statistics(&mut self, classes: &Vec<i32>)
        ensures
            final(self).navigator == old(self).navigator,
            final(self).image_cache == old(self).image_cache,
            final(self).modified_images == old(self).modified_images,
            is_tally(final(self).statistics.total_class_counts@, classes@),
            final(self).statistics.total_images == old(self).statistics.total_images,
            final(self).statistics.modified_images == old(self).statistics.modified_images,
            final(self).statistics.current_class_counts@
                == old(self).statistics.current_class_counts@,
    {
        self.statistics.recompute_corpus(classes);
    }

    /// Rebuilds the image list from a directory listing, then updates the
    /// statistics with `classes`, the current image's box classes.
    pub fn update_file_list(&mut self, listing: &Vec<String>, classes: &Vec<i32>)
        requires
            old(self).wf(),
        ensures
            final(self).wf(),
            strictly_sorted(final(self).navigator.files.deep_view()),
            forall|s: Seq<char>| #[trigger]
                final(self).navigator.files.deep_view().contains(s) <==> (
                listing.deep_view().contains(s) && is_image_name(s)),
            final(self).navigator.current == old(self).navigator.current,
            final(self).navigator.history == old(self).navigator.history,
            final(self).image_cache == old(self).image_cache,
            final(self).modified_images == old(self).modified_images,
            final(self).statistics.total_images == final(self).navigator.files@.len(),
            is_tally(final(self).statistics.current_class_counts@, classes@),
            final(self).statistics.total_class_counts@
                == old(self).statistics.total_class_counts@,
    {
        self.navigator.set_files(listing);
        self.update_statistics(classes);
    }

    /// Adds each line of a record file to the modified set.
    pub fn load_modified_records(&mut self, lines: &Vec<String>)
        requires
            old(self).wf(),
        ensures
            final(self).wf(),
            final(self).modified_images@ == old(self).modified_images@.union(
                lines.deep_view().to_set(),
            ),
            final(self).navigator == old(self).navigator,
            final(self).image_cache == old(self).image_cache,
            final(self).statistics == old(self).statistics,
    {
        self.modified_images.load_records(lines);
    }

    /// The lines of the record file: each modified name once.
    pub fn save_modified_records(&self) -> (r: Vec<String>)
        requires
            self.wf(),
        ensures
            r.deep_view().no_duplicates(),
            r.deep_view().to_set() == self.modified_images@,
    {
        self.modified_images.save_records()
    }

    /// After the current image's labels were written: marks it modified and
    /// updates the statistics with its box classes.
    pub fn mark_current_modified(&mut self, classes: &Vec<i32>)
        requires
            old(self).wf(),
        ensures
            final(self).wf(),
            final(self).modified_images@ == (match old(self).navigator.current {
                Some(c) => old(self).modified_images@.insert(c@),
                None => old(self).modified_images@,
            }),
            final(self).navigator == old(self).navigator,
            final(self).image_cache == old(self).image_cache,
            final(self).statistics.modified_images == final(self).modified_images@.len(),
            is_tally(final(self).statistics.current_class_counts@, classes@),
            final(self).statistics.total_class_counts@
                == old(self).statistics.total_class_counts@,
    {
        match &self.navigator.current {
            Some(c) => {
                let name = c.clone();
                self.modified_images.insert(name);
            },
            None => {},
        }
        self.update_statistics(classes);
    }

    /// After an image and its label file were deleted: it is no longer
    /// modified and no longer cached.
    pub fn forget_image(&mut self, name: &str)
        requires
            old(self).wf(),
        ensures
            final(self).wf(),
            final(self).modified_images@ == old(self).modified_images@.remove(name@),
            !keys_of(final(self).image_cache@).contains(name@),
            forall|e| #[trigger]
                final(self).image_cache@.contains(e) ==> old(self).image_cache@.contains(e),
            final(self).navigator == old(self).navigator,
            final(self).statistics == old(self).statistics,
    {
        self.modified_images.remove(name);
        let ghost before = self.image_cache@;
        proof {
            lemma_first_index(keys_of(before), name@);
        }
        self.image_cache.remove(name);
        proof {
            let i = first_index(keys_of(before), name@);
            if i >= 0 {
                assert forall|e| #[trigger] self.image_cache@.contains(e) implies before.contains(
                    e,
                ) by {
                    let k = choose|k: int| 0 <= k < self.image_cache@.len() && self.image_cache@[k] == e;
                    if k < i {
                        assert(before[k] == e);
                    } else {
                        assert(before[k + 1] == e);
                    }
                }
                if keys_of(self.image_cache@).contains(name@) {
                    let k = choose|k: int|
                        0 <= k < keys_of(self.image_cache@).len() && keys_of(self.image_cache@)[k]
                            == name@;
                    if k < i {
                        assert(keys_of(before)[k] == name@);
                    } else {
                        assert(keys_of(before)[k + 1] == name@);
                        assert(keys_of(before).no_duplicates());
                    }
                }
            }
        }
    }

    /// Where the previous/next button leads (`next`), or with
    /// `random_unmodified` a random image not yet modified.
    pub fn switch_image(&self, next: bool, random_unmodified: bool) -> (r: Option<usize>)
        requires
            self.wf(),
        ensures
            !random_unmodified && next && self.navigator.files@.len() > 0 && (
            self.navigator.current matches Some(c) && c@ == self.navigator.files.deep_view().last())
                ==> r == Some(0usize),
            !random_unmodified && !next && self.navigator.files@.len() > 0 && (
            self.navigator.current matches Some(c) && c@ == self.navigator.files.deep_view()[0])
                ==> r == Some((self.navigator.files@.len() - 1) as usize),
            r matches Some(i) ==> i < self.navigator.files@.len(),
            random_unmodified ==> (r is None <==> forall|i: int|
                0 <= i < self.navigator.files@.len() ==> self.modified_images@.contains(
                    #[trigger] self.navigator.files.deep_view()[i],
                )),
            random_unmodified ==> (r matches Some(i) ==> !self.modified_images@.contains(
                self.navigator.files.deep_view()[i as int],
            )),
            !random_unmodified && self.navigator.cur_pos() >= 0 ==> r == Some(
                step_spec(
                    self.navigator.files@.len() as int,
                    self.navigator.cur_pos(),
                    next,
                ) as usize,
            ),
            !random_unmodified && self.navigator.cur_pos() < 0 ==> (r == if self.navigator.files@.len()
                > 0 && self.navigator.current is None {
                Some(0usize)
            } else {
                None
            }),
    {
        if random_unmodified {
            self.navigator.random_unmodified(&self.modified_images)
        } else {
            proof {
                if self.navigator.files@.len() > 0 {
                    lemma_wraparound(self.navigator.files.deep_view());
                }
                if self.navigator.current is Some {
                    lemma_first_index(
                        self.navigator.files.deep_view(),
                        self.navigator.current->0@,
                    );
                }
            }
            self.navigator.step_target(next)
        }
    }

    /// The next image not yet modified, scanning forward with wraparound.
    pub fn switch_to_next_unmodified(&self) -> (r: Option<usize>)
        ensures
            match r {
                Some(i) => {
                    &&& in_scan(
                        self.navigator.files@.len() as int,
                        self.navigator.cur_pos(),
                        i as int,
                    )
                    &&& !self.modified_images@.contains(self.navigator.files.deep_view()[i as int])
                    &&& forall|j: int|
                        in_scan(
                            self.navigator.files@.len() as int,
                            self.navigator.cur_pos(),
                            j,
                        ) && scan_rank(
                            self.navigator.files@.len() as int,
                            self.navigator.cur_pos(),
                            j,
                        ) < scan_rank(
                            self.navigator.files@.len() as int,
                            self.navigator.cur_pos(),
                            i as int,
                        ) ==> self.modified_images@.contains(
                            #[trigger] self.navigator.files.deep_view()[j],
                        )
                },
                None => forall|j: int|
                    in_scan(
                        self.navigator.files@.len() as int,
                        self.navigator.cur_pos(),
                        j,
                    ) ==> self.modified_images@.contains(
                        #[trigger] self.navigator.files.deep_view()[j],
                    ),
            },
    {
        self.navigator.next_unmodified(&self.modified_images)
    }

    /// Takes the image to go back to off the history.
    pub fn go_back(&mut self) -> (r: Option<String>)
        requires
            old(self).wf(),
        ensures
            final(self).wf(),
            final(self).navigator.files == old(self).navigator.files,
            final(self).navigator.current == old(self).navigator.current,
            old(self).navigator.history@.len() == 0 ==> r is None && final(self).navigator.history@
                == old(self).navigator.history@,
            old(self).navigator.history@.len() > 0 ==> r == Some(
                old(self).navigator.history@.last(),
            ) && final(self).navigator.history@ == old(self).navigator.history@.drop_last(),
            final(self).image_cache == old(self).image_cache,
            final(self).modified_images == old(self).modified_images,
            final(self).statistics == old(self).statistics,
    {
        self.navigator.go_back()
    }

    /// The cached image for `name`.
    pub fn cached(&self, name: &str) -> (r: Option<&V>)
        ensures
            match r {
                Some(v) => {
                    let i = first_index(keys_of(self.image_cache@), name@);
                    i >= 0 && self.image_cache@[i].1 == *v
                },
                None => !keys_of(self.image_cache@).contains(name@),
            },
    {
        self.image_cache.get(name)
    }

    /// A load that hit the cache: `name` becomes the current image.
    pub fn show_cached(&mut self, name: String, from_history: bool)
        requires
            old(self).wf(),
        ensures
            final(self).wf(),
            final(self).navigator.current matches Some(c) && c@ == name@,
            final(self).navigator.files == old(self).navigator.files,
            final(self).navigator.history@ == (match old(self).navigator.current {
                Some(c) => if !from_history && c@ != name@ {
                    old(self).navigator.history@.push(c)
                } else {
                    old(self).navigator.history@
                },
                None => old(self).navigator.history@,
            }),
            final(self).image_cache == old(self).image_cache,
            final(self).modified_images == old(self).modified_images,
            final(self).statistics == old(self).statistics,
    {
        self.navigator.visit(name, from_history);
    }

    /// The places of the list to decode ahead for the image `name`.
    pub fn prefetch_targets(&self, name: &str) -> (r: Vec<usize>)
        ensures
            ({
                let p = first_index(self.navigator.files.deep_view(), name@);
                if p < 0 {
                    r@ == Seq::<usize>::empty()
                } else {
                    r@ == prefetch_spec(
                        keys_of(self.image_cache@),
                        self.navigator.files.deep_view(),
                        p,
                    )
                }
            }),
    {
        self.image_cache.prefetch_targets(&self.navigator.files, name)
    }

    /// A load that decoded `image` for `name`: it becomes the current image,
    /// then `update_image_cache` stores it with the decoded neighbours and
    /// evicts around it. Nothing but the position and the cache changes.
    pub fn store_loaded(
        &mut self,
        name: String,
        image: V,
        neighbours: Vec<(usize, V)>,
        from_history: bool,
    ) -> (r: EvictOutcome)
        requires
            old(self).wf(),
        ensures
            final(self).wf(),
            final(self).navigator.current matches Some(c) && c@ == name@,
            final(self).navigator.files == old(self).navigator.files,
            final(self).navigator.history@ == (match old(self).navigator.current {
                Some(c) => if !from_history && c@ != name@ {
                    old(self).navigator.history@.push(c)
                } else {
                    old(self).navigator.history@
                },
                None => old(self).navigator.history@,
            }),
            final(self).modified_images == old(self).modified_images,
            final(self).statistics == old(self).statistics,
            final(self).image_cache.capacity() == old(self).image_cache.capacity(),
            eviction_result(
                with_neighbours(
                    inserted(old(self).image_cache@, name@, image),
                    old(self).navigator.files.deep_view(),
                    neighbours@,
                ),
                final(self).image_cache@,
                old(self).navigator.files.deep_view(),
                name@,
                old(self).image_cache.capacity(),
                r,
            ),
            final(self).image_cache@.contains((name@, image)),
            old(self).navigator.files.deep_view().contains(name@) && old(self).image_cache.capacity()
                >= 1 && old(self).cache_listed() ==> r == EvictOutcome::Within
                && final(self).cache_listed(),
    {
        self.navigator.visit(name.clone(), from_history);
        self.update_image_cache(name, image, neighbours)
    }

    /// Stores `image` under `name`, then each decoded neighbour
    /// `(place, image)` whose place is in the list and whose name is not
    /// cached yet, then evicts down to the bound around the current image.
    /// With no current image nothing is evicted. Nothing but the cache
    /// changes.
    pub fn update_image_cache(&mut self, name: String, image: V, neighbours: Vec<(usize, V)>) -> (r:
        EvictOutcome)
        requires
            old(self).wf(),
        ensures
            final(self).wf(),
            final(self).navigator == old(self).navigator,
            final(self).modified_images == old(self).modified_images,
            final(self).statistics == old(self).statistics,
            final(self).image_cache.capacity() == old(self).image_cache.capacity(),
            ({
                let mid = with_neighbours(
                    inserted(old(self).image_cache@, name@, image),
                    old(self).navigator.files.deep_view(),
                    neighbours@,
                );
                match old(self).navigator.current {
                    Some(c) => eviction_result(
                        mid,
                        final(self).image_cache@,
                        old(self).navigator.files.deep_view(),
                        c@,
                        old(self).image_cache.capacity(),
                        r,
                    ),
                    None => final(self).image_cache@ == mid && (r == EvictOutcome::Within
                        <==> mid.len() <= old(self).image_cache.capacity()) && (r
                        != EvictOutcome::Within ==> r == EvictOutcome::CurrentNotListed),
                }
            }),
            (old(self).navigator.current matches Some(c) && c@ == name@)
                ==> final(self).image_cache@.contains((name@, image)),
            (old(self).navigator.current matches Some(c) && c@ == name@)
                && old(self).navigator.files.deep_view().contains(name@)
                && old(self).image_cache.capacity() >= 1 && old(self).cache_listed()
                ==> r == EvictOutcome::Within && final(self).cache_listed(),
    {
        let ghost fv = self.navigator.files.deep_view();
        let ghost kv = name@;
        let ghost start = self.image_cache@;
        let ghost ns = neighbours@;
        let ghost listed = fv.contains(kv) && self.cache_listed();
        self.image_cache.insert(name, image);
        let ghost ins = self.image_cache@;
        proof {
            lemma_inserted_contains(start, kv, image);
            if listed {
                lemma_inserted_listed(start, kv, image, fv);
            }
        }
        let mut rest = neighbours;
        let ghost mut i: int = 0;
        while rest.len() > 0
            invariant
                self.wf(),
                self.navigator.files.deep_view() == fv,
                self.navigator == old(self).navigator,
                self.modified_images == old(self).modified_images,
                self.statistics == old(self).statistics,
                self.image_cache.capacity() == old(self).image_cache.capacity(),
                0 <= i <= ns.len(),
                rest@ == ns.skip(i),
                self.image_cache@ == with_neighbours(ins, fv, ns.take(i)),
                self.image_cache@.contains((kv, image)),
                listed ==> fv.contains(kv) && forall|j: int|
                    0 <= j < self.image_cache@.len() ==> fv.contains(
                        #[trigger] keys_of(self.image_cache@)[j],
                    ),
            decreases rest@.len(),
        {
            let ghost before = self.image_cache@;
            let (p, img) = rest.remove(0);
            proof {
                assert(ns[i] == (p, img));
                assert(ns.take(i + 1).drop_last() =~= ns.take(i));
                assert(ns.take(i + 1).last() == ns[i]);
                assert(rest@ =~= ns.skip(i + 1));
            }
            if p < self.navigator.files.len() {
                if !self.image_cache.contains_key(self.navigator.files[p].as_str()) {
                    let key = self.navigator.files[p].clone();
                    let ghost pk = key@;
                    assert(pk == fv[p as int]);
                    self.image_cache.insert(key, img);
                    proof {
                        lemma_first_index(keys_of(before), pk);
                        assert(self.image_cache@ == before.push((pk, img)));
                        assert(keys_of(self.image_cache@) =~= keys_of(before).push(pk));
                        let m = choose|m: int| 0 <= m < before.len() && before[m] == (kv, image);
                        assert(self.image_cache@[m] == (kv, image));
                        if listed {
                            assert(fv.contains(fv[p as int]));
                            assert forall|j: int|
                                0 <= j < self.image_cache@.len() implies fv.contains(
                                #[trigger] keys_of(self.image_cache@)[j],
                            ) by {
                                if j < before.len() {
                                    assert(keys_of(self.image_cache@)[j] == keys_of(before)[j]);
                                }
                            }
                        }
                    }
                }
            }
            proof {
                i = i + 1;
            }
        }
        proof {
            assert(ns.take(i) =~= ns);
        }
        let ghost mid = self.image_cache@;
        let outcome = match &self.navigator.current {
            Some(c) => self.image_cache.enforce_bound(&self.navigator.files, c.as_str()),
            None => {
                if self.image_cache.len() <= self.image_cache.max_cache_size() {
                    EvictOutcome::Within
                } else {
                    EvictOutcome::CurrentNotListed
                }
            },
        };
        proof {
            lemma_first_index(fv, kv);
            if (old(self).navigator.current matches Some(c) && c@ == kv) {
                // the current image lies at distance zero, so it is not evicted
                let m = choose|m: int| 0 <= m < mid.len() && mid[m] == (kv, image);
                assert(mid.contains(mid[m]));
                if first_index(fv, kv) >= 0 {
                    assert(distance(fv, mid[m].0, first_index(fv, kv)) == 0);
                }
                assert(self.image_cache@.contains(mid[m]));
            }
            if listed && (old(self).navigator.current matches Some(c) && c@ == kv) {
                assert(first_index(fv, kv) >= 0);
                lemma_keys_listed(self.image_cache@, mid, fv);
            }
        }
        outcome
    }
}

/// `s` after storing each decoded neighbour `(place, image)` in turn, where
/// the place is in `files` and its name is not cached yet.
pub open spec fn with_neighbours<V>(
    s: Seq<(Seq<char>, V)>,
    files: Seq<Seq<char>>,
    ns: Seq<(usize, V)>,
) -> Seq<(Seq<char>, V)>
    decreases ns.len(),
{
    if ns.len() == 0 {
        s
    } else {
        let t = with_neighbours(s, files, ns.drop_last());
        let p = ns.last().0 as int;
        if p < files.len() && !keys_of(t).contains(files[p]) {
            t.push((files[p], ns.last().1))
        } else {
            t
        }
    }
}

proof fn lemma_inserted_contains<V>(s: Seq<(Seq<char>, V)>, key: Seq<char>, v: V)
    ensures
        inserted(s, key, v).contains((key, v)),
{
    lemma_first_index(keys_of(s), key);
    let i = first_index(keys_of(s), key);
    if i >= 0 {
        assert(inserted(s, key, v)[i] == (key, v));
    } else {
        assert(inserted(s, key, v)[s.len() as int] == (key, v));
    }
}

proof fn lemma_inserted_listed<V>(s: Seq<(Seq<char>, V)>, key: Seq<char>, v: V, files: Seq<Seq<char>>)
    requires
        files.contains(key),
        forall|j: int| 0 <= j < s.len() ==> files.contains(#[trigger] keys_of(s)[j]),
    ensures
        forall|j: int|
            0 <= j < inserted(s, key, v).len() ==> files.contains(
                #[trigger] keys_of(inserted(s, key, v))[j],
            ),
{
    let t = inserted(s, key, v);
    lemma_first_index(keys_of(s), key);
    assert forall|j: int| 0 <= j < t.len() implies files.contains(#[trigger] keys_of(t)[j]) by {
        if j < s.len() && keys_of(t)[j] != key {
            assert(keys_of(t)[j] == keys_of(s)[j]);
        }
    }
}

proof fn lemma_keys_listed<V>(a: Seq<(Seq<char>, V)>, b: Seq<(Seq<char>, V)>, files: Seq<Seq<char>>)
    requires
        forall|e| #[trigger] a.contains(e) ==> b.contains(e),
        forall|j: int| 0 <= j < b.len() ==> files.contains(#[trigger] keys_of(b)[j]),
    ensures
        forall|j: int| 0 <= j < a.len() ==> files.contains(#[trigger] keys_of(a)[j]),
{
    assert forall|j: int| 0 <= j < a.len() implies files.contains(#[trigger] keys_of(a)[j]) by {
        assert(a.contains(a[j]));
        let m = choose|m: int| 0 <= m < b.len() && b[m] == a[j];
        assert(keys_of(b)[m] == keys_of(a)[j]);
    }
}

} // verus!
