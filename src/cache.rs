//! A bounded cache of decoded images keyed by file name. When it grows past
//! its bound it drops the entries whose place in the image list is furthest
//! from the image on screen.
use vstd::prelude::*;

use crate::names::{first_index, lemma_first_index, position_of};

verus! {

/// The keys of a cache's entries, in order.
pub open spec fn keys_of<V>(s: Seq<(Seq<char>, V)>) -> Seq<Seq<char>> {
    s.map_values(|e: (Seq<char>, V)| e.0)
}

/// How far the first place of `k` in `files` lies from place `cur`; -1 when
/// `k` is not in `files`.
pub open spec fn distance(files: Seq<Seq<char>>, k: Seq<char>, cur: int) -> int {
    let p = first_index(files, k);
    if p < 0 {
        -1
    } else if p >= cur {
        p - cur
    } else {
        cur - p
    }
}

/// Entry `i` is the one to evict: the first of those at the greatest
/// distance, which must be above zero.
pub open spec fn is_furthest(
    ks: Seq<Seq<char>>,
    files: Seq<Seq<char>>,
    cur: int,
    i: int,
) -> bool {
    &&& 0 <= i < ks.len()
    &&& distance(files, ks[i], cur) > 0
    &&& forall|j: int|
        0 <= j < i ==> #[trigger] distance(files, ks[j], cur) < distance(files, ks[i], cur)
    &&& forall|j: int|
        i < j < ks.len() ==> #[trigger] distance(files, ks[j], cur) <= distance(files, ks[i], cur)
}

/// `s` after storing `v` under `key`: in place of the entry for `key` if
/// there is one, else as a new last entry.
pub open spec fn inserted<V>(s: Seq<(Seq<char>, V)>, key: Seq<char>, v: V) -> Seq<(Seq<char>, V)> {
    let i = first_index(keys_of(s), key);
    if i >= 0 {
        s.update(i, (key, v))
    } else {
        s.push((key, v))
    }
}

/// In the eviction order of `s` around place `cur`, entry `i` goes before
/// entry `j`: it lies further away, or as far and earlier.
pub open spec fn evicts_before<V>(
    s: Seq<(Seq<char>, V)>,
    files: Seq<Seq<char>>,
    cur: int,
    i: int,
    j: int,
) -> bool {
    distance(files, s[i].0, cur) > distance(files, s[j].0, cur) || (distance(files, s[i].0, cur)
        == distance(files, s[j].0, cur) && i < j)
}

/// `f` and `r` are what enforcing the bound `cap` around the image
/// `current` makes of the entries `s`:
/// - only entries of `s` stay, in their order;
/// - a cache within its bound, or one whose current image is not listed,
///   is left as it is;
/// - each evicted entry lies at a positive distance, and goes before every
///   kept one in the eviction order, so the evicted entries are the first
///   ones of that order;
/// - `Within` means the bound holds, and then exactly the surplus went;
/// - with the current image listed, a bound of one or more, and every key
///   listed, the outcome is `Within`.
pub open spec fn eviction_result<V>(
    s: Seq<(Seq<char>, V)>,
    f: Seq<(Seq<char>, V)>,
    files: Seq<Seq<char>>,
    current: Seq<char>,
    cap: nat,
    r: EvictOutcome,
) -> bool {
    let cur = first_index(files, current);
    &&& forall|e| #[trigger] f.contains(e) ==> s.contains(e)
    &&& forall|a: int, b: int|
        0 <= a < b < f.len() ==> first_index(keys_of(s), #[trigger] f[a].0) < first_index(
            keys_of(s),
            #[trigger] f[b].0,
        )
    &&& s.len() <= cap ==> f == s && r == EvictOutcome::Within
    &&& r == EvictOutcome::CurrentNotListed <==> (s.len() > cap && cur < 0)
    &&& r == EvictOutcome::CurrentNotListed ==> f == s
    &&& r == EvictOutcome::Within <==> f.len() <= cap
    &&& r == EvictOutcome::Within && s.len() > cap ==> f.len() == cap
    &&& r == EvictOutcome::NoCandidate ==> forall|j: int|
        0 <= j < f.len() ==> #[trigger] distance(files, f[j].0, cur) <= 0
    &&& forall|i: int|
        0 <= i < s.len() && !f.contains(s[i]) ==> distance(files, #[trigger] s[i].0, cur) > 0
    &&& forall|i: int, j: int|
        0 <= i < s.len() && 0 <= j < s.len() && !f.contains(s[i]) && f.contains(s[j])
            ==> #[trigger] evicts_before(s, files, cur, i, j)
    &&& (cur >= 0 && cap >= 1 && forall|j: int|
        0 <= j < s.len() ==> files.contains(#[trigger] keys_of(s)[j])) ==> r
        == EvictOutcome::Within
}

/// The neighbours of place `pos` to decode ahead: the next one, then the
/// previous one, each only if it exists and is not cached.
pub open spec fn prefetch_spec(ks: Seq<Seq<char>>, files: Seq<Seq<char>>, pos: int) -> Seq<usize> {
    let next: Seq<usize> = if pos + 1 < files.len() && !ks.contains(files[pos + 1]) {
        seq![(pos + 1) as usize]
    } else {
        Seq::empty()
    };
    let prev: Seq<usize> = if pos > 0 && !ks.contains(files[pos - 1]) {
        seq![(pos - 1) as usize]
    } else {
        Seq::empty()
    };
    next + prev
}

/// What enforcing the bound came to.
#[derive(Clone, Copy, Debug, PartialEq, Eq, Structural)]
pub enum EvictOutcome {
    /// The cache holds no more entries than its bound.
    Within,
    /// Over the bound, but the current image is not in the list, so nothing
    /// was evicted.
    CurrentNotListed,
    /// Over the bound, but no entry lies at a positive distance in the list.
    NoCandidate,
}

/// Decoded images by file name, in insertion order, at most
/// `max_cache_size` of them after each enforcement of the bound.
pub struct ImageCache<V> {
    entries: Vec<(String, V)>,
    max_cache_size: usize,
}

impl<V> View for ImageCache<V> {
    type V = Seq<(Seq<char>, V)>;

    closed spec fn view(&self) -> Seq<(Seq<char>, V)> {
        self.entries@.map_values(|e: (String, V)| (e.0@, e.1))
    }
}

impl<V> ImageCache<V> {
    /// The bound on the number of entries.
    pub closed spec fn capacity(&self) -> nat {
        self.max_cache_size as nat
    }

    /// Each key is held once.
    pub open spec fn wf(&self) -> bool {
        keys_of(self@).no_duplicates()
    }

    pub fn new(max_cache_size: usize) -> (r: ImageCache<V>)
        ensures
            r.wf(),
            r@ == Seq::<(Seq<char>, V)>::empty(),
            r.capacity() == max_cache_size,
    {
        let r = ImageCache { entries: Vec::new(), max_cache_size };
        assert(r@ =~= Seq::<(Seq<char>, V)>::empty());
        r
    }

    pub fn max_cache_size(&self) -> (r: usize)
        ensures
            r == self.capacity(),
    {
        self.max_cache_size
    }

    pub fn len(&self) -> (r: usize)
        ensures
            r == self@.len(),
    {
        self.entries.len()
    }

    /// The index of the entry for `key`.
    fn find(&self, key: &str) -> (r: Option<usize>)
        ensures
            match r {
                Some(i) => first_index(keys_of(self@), key@) == i,
                None => first_index(keys_of(self@), key@) == -1,
            },
    {
        proof {
            lemma_first_index(keys_of(self@), key@);
        }
        let k = String::from_str(key);
        let mut i: usize = 0;
        while i < self.entries.len()
            invariant
                i <= self.entries@.len(),
                k@ == key@,
                forall|j: int| 0 <= j < i ==> keys_of(self@)[j] != key@,
                -1 <= first_index(keys_of(self@), key@) < self@.len(),
                first_index(keys_of(self@), key@) >= 0 ==> keys_of(self@)[first_index(
                    keys_of(self@),
                    key@,
                )] == key@,
                forall|j: int|
                    0 <= j < first_index(keys_of(self@), key@) ==> keys_of(self@)[j] != key@,
                first_index(keys_of(self@), key@) < 0 <==> !keys_of(self@).contains(key@),
            decreases self.entries@.len() - i,
        {
            if self.entries[i].0 == k {
                assert(keys_of(self@)[i as int] == key@);
                assert(keys_of(self@).contains(key@));
                return Some(i);
            }
            i = i + 1;
        }
        None
    }

    pub fn contains_key(&self, key: &str) -> (r: bool)
        ensures
            r == keys_of(self@).contains(key@),
    {
        proof {
            lemma_first_index(keys_of(self@), key@);
        }
        self.find(key).is_some()
    }

    /// The cached image for `key`.
    pub fn get(&self, key: &str) -> (r: Option<&V>)
        ensures
            match r {
                Some(v) => {
                    let i = first_index(keys_of(self@), key@);
                    i >= 0 && self@[i].1 == *v
                },
                None => !keys_of(self@).contains(key@),
            },
    {
        proof {
            lemma_first_index(keys_of(self@), key@);
        }
        match self.find(key) {
            Some(i) => Some(&self.entries[i].1),
            None => None,
        }
    }

    /// Stores `value` under `key`: in place of the entry for `key` if there
    /// is one, else as a new last entry. The bound is not enforced here.
    pub fn insert(&mut self, key: String, value: V)
        requires
            old(self).wf(),
        ensures
            final(self).wf(),
            final(self).capacity() == old(self).capacity(),
            final(self)@ == inserted(old(self)@, key@, value),
    {
        let ghost before = self@;
        let ghost kv = key@;
        proof {
            lemma_first_index(keys_of(before), kv);
        }
        match self.find(key.as_str()) {
            Some(i) => {
                self.entries[i] = (key, value);
                assert(self@ =~= before.update(i as int, (kv, value)));
                assert(keys_of(self@) =~= keys_of(before));
            },
            None => {
                self.entries.push((key, value));
                assert(self@ =~= before.push((kv, value)));
                assert(keys_of(self@) =~= keys_of(before).push(kv));
            },
        }
    }

    /// Drops the entry for `key`, as when its file is deleted. Whether there
    /// was one is returned.
    pub fn remove(&mut self, key: &str) -> (r: bool)
        requires
            old(self).wf(),
        ensures
            final(self).wf(),
            final(self).capacity() == old(self).capacity(),
            r == keys_of(old(self)@).contains(key@),
            ({
                let i = first_index(keys_of(old(self)@), key@);
                if i >= 0 {
                    final(self)@ == old(self)@.remove(i)
                } else {
                    final(self)@ == old(self)@
                }
            }),
    {
        proof {
            lemma_first_index(keys_of(self@), key@);
        }
        match self.find(key) {
            Some(i) => {
                self.remove_at(i);
                true
            },
            None => false,
        }
    }

    fn remove_at(&mut self, i: usize)
        requires
            old(self).wf(),
            i < old(self)@.len(),
        ensures
            final(self).wf(),
            final(self).capacity() == old(self).capacity(),
            final(self)@ == old(self)@.remove(i as int),
    {
        let ghost before = self@;
        self.entries.remove(i);
        assert(self@ =~= before.remove(i as int));
        let ghost ks = keys_of(before);
        assert(keys_of(self@) =~= ks.remove(i as int));
        assert forall|a: int, b: int|
            0 <= a < keys_of(self@).len() && 0 <= b < keys_of(self@).len() && a != b implies
            keys_of(self@)[a] != keys_of(self@)[b] by {
            let a0 = if a < i {
                a
            } else {
                a + 1
            };
            let b0 = if b < i {
                b
            } else {
                b + 1
            };
            assert(keys_of(self@)[a] == ks[a0]);
            assert(keys_of(self@)[b] == ks[b0]);
        }
    }

    /// The entry to evict when the image on screen is at place `cur` of
    /// `files`: the first one at the greatest distance, if any lies at a
    /// distance above zero. Entries not in `files` are passed over.
    pub fn furthest_entry(&self, files: &Vec<String>, cur: usize) -> (r: Option<usize>)
        ensures
            match r {
                Some(i) => is_furthest(keys_of(self@), files.deep_view(), cur as int, i as int),
                None => forall|j: int|
                    0 <= j < self@.len() ==> #[trigger] distance(
                        files.deep_view(),
                        keys_of(self@)[j],
                        cur as int,
                    ) <= 0,
            },
    {
        let ghost ks = keys_of(self@);
        let ghost fv = files.deep_view();
        let mut best: Option<usize> = None;
        let mut max_d: usize = 0;
        let mut i: usize = 0;
        while i < self.entries.len()
            invariant
                i <= self.entries@.len(),
                ks == keys_of(self@),
                fv == files.deep_view(),
                ks.len() == self.entries@.len(),
                match best {
                    Some(b) => {
                        &&& b < i
                        &&& distance(fv, ks[b as int], cur as int) == max_d
                        &&& max_d > 0
                        &&& forall|j: int|
                            0 <= j < b ==> #[trigger] distance(fv, ks[j], cur as int) < max_d
                        &&& forall|j: int|
                            b < j < i ==> #[trigger] distance(fv, ks[j], cur as int) <= max_d
                    },
                    None => max_d == 0 && forall|j: int|
                        0 <= j < i ==> #[trigger] distance(fv, ks[j], cur as int) <= 0,
                },
            decreases self.entries@.len() - i,
        {
            assert(ks[i as int] == self.entries@[i as int].0@);
            match position_of(files, self.entries[i].0.as_str()) {
                Some(p) => {
                    let d: usize = if p >= cur {
                        p - cur
                    } else {
                        cur - p
                    };
                    assert(distance(fv, ks[i as int], cur as int) == d);
                    if d > max_d {
                        best = Some(i);
                        max_d = d;
                    }
                },
                None => {
                    assert(distance(fv, ks[i as int], cur as int) == -1);
                },
            }
            i = i + 1;
        }
        best
    }

    /// Evicts, one at a time, the entry `furthest_entry` names, until the
    /// cache is within its bound. Nothing is evicted when `current` is not
    /// in `files`, or when no entry lies at a positive distance; the outcome
    /// says which case held. `eviction_result` states the whole result.
    pub fn enforce_bound(&mut self, files: &Vec<String>, current: &str) -> (r: EvictOutcome)
        requires
            old(self).wf(),
        ensures
            final(self).wf(),
            final(self).capacity() == old(self).capacity(),
            eviction_result(
                old(self)@,
                final(self)@,
                files.deep_view(),
                current@,
                old(self).capacity(),
                r,
            ),
    {
        let ghost start = self@;
        let ghost fv = files.deep_view();
        let ghost cap = self.capacity();
        let ghost n = start.len();
        if self.entries.len() <= self.max_cache_size {
            proof {
                lemma_identity_result(start, fv, current@, cap);
            }
            return EvictOutcome::Within;
        }
        let cur = match position_of(files, current) {
            Some(c) => c,
            None => {
                proof {
                    lemma_identity_result(start, fv, current@, cap);
                }
                return EvictOutcome::CurrentNotListed;
            },
        };
        let ghost mut idx: Seq<int> = Seq::new(n, |k: int| k);
        proof {
            assert forall|i: int| 0 <= i < n implies #[trigger] idx.contains(i) by {
                assert(idx[i] == i);
            }
            assert(self@ =~= start);
        }
        while self.entries.len() > self.max_cache_size
            invariant_except_break
                self.wf(),
                self.capacity() == cap,
                start == old(self)@,
                n == start.len(),
                fv == files.deep_view(),
                cur == first_index(fv, current@),
                keys_of(start).no_duplicates(),
                idx.len() == self@.len(),
                forall|k: int| 0 <= k < idx.len() ==> 0 <= #[trigger] idx[k] < n,
                forall|k: int| 0 <= k < idx.len() ==> self@[k] == start[#[trigger] idx[k]],
                forall|a: int, b: int| 0 <= a < b < idx.len() ==> idx[a] < idx[b],
                forall|i: int|
                    0 <= i < n && !idx.contains(i) ==> distance(fv, #[trigger] start[i].0, cur as int)
                        > 0,
                forall|i: int, j: int|
                    0 <= i < n && 0 <= j < n && !idx.contains(i) && idx.contains(j)
                        ==> #[trigger] evicts_before(start, fv, cur as int, i, j),
                self@.len() >= cap,
            ensures
                self.wf(),
                self.capacity() == cap,
                idx.len() == self@.len(),
                forall|k: int| 0 <= k < idx.len() ==> 0 <= #[trigger] idx[k] < n,
                forall|k: int| 0 <= k < idx.len() ==> self@[k] == start[#[trigger] idx[k]],
                forall|a: int, b: int| 0 <= a < b < idx.len() ==> idx[a] < idx[b],
                forall|i: int|
                    0 <= i < n && !idx.contains(i) ==> distance(fv, #[trigger] start[i].0, cur as int)
                        > 0,
                forall|i: int, j: int|
                    0 <= i < n && 0 <= j < n && !idx.contains(i) && idx.contains(j)
                        ==> #[trigger] evicts_before(start, fv, cur as int, i, j),
                self@.len() >= cap,
                self@.len() > cap ==> forall|j: int|
                    0 <= j < self@.len() ==> #[trigger] distance(
                        fv,
                        keys_of(self@)[j],
                        cur as int,
                    ) <= 0,
            decreases self.entries@.len(),
        {
            match self.furthest_entry(files, cur) {
                Some(m) => {
                    let ghost before = self@;
                    let ghost old_idx = idx;
                    let ghost ie = old_idx[m as int];
                    self.remove_at(m);
                    proof {
                        idx = old_idx.remove(m as int);
                        lemma_evict_step(start, before, old_idx, fv, cur as int, m as int);
                    }
                },
                None => {
                    break;
                },
            }
        }
        proof {
            lemma_index_map(start, self@, idx);
            assert(keys_of(self@) =~= self@.map_values(|e: (Seq<char>, V)| e.0));
            if first_index(fv, current@) >= 0 && cap >= 1 && (forall|j: int|
                0 <= j < start.len() ==> fv.contains(#[trigger] keys_of(start)[j])) && self@.len()
                > cap {
                assert forall|e| #[trigger] self@.contains(e) implies start.contains(e) by {
                    let k = choose|k: int| 0 <= k < self@.len() && self@[k] == e;
                    assert(start[idx[k]] == e);
                }
                lemma_keys_subset(self@, start);
                lemma_some_far(keys_of(self@), keys_of(start), fv, cur as int, current@);
            }
        }
        let r = if self.entries.len() <= self.max_cache_size {
            EvictOutcome::Within
        } else {
            EvictOutcome::NoCandidate
        };
        proof {
            let f = self@;
            assert forall|e| #[trigger] f.contains(e) implies start.contains(e) by {
                let k = choose|k: int| 0 <= k < f.len() && f[k] == e;
                assert(start[idx[k]] == e);
            }
            assert forall|a: int, b: int| 0 <= a < b < f.len() implies first_index(
                keys_of(start),
                #[trigger] f[a].0,
            ) < first_index(keys_of(start), #[trigger] f[b].0) by {}
            assert(r == EvictOutcome::NoCandidate ==> forall|j: int|
                0 <= j < f.len() ==> #[trigger] distance(fv, f[j].0, cur as int) <= 0) by {
                if r == EvictOutcome::NoCandidate {
                    assert forall|j: int| 0 <= j < f.len() implies #[trigger] distance(
                        fv,
                        f[j].0,
                        cur as int,
                    ) <= 0 by {
                        assert(keys_of(f)[j] == f[j].0);
                    }
                }
            }
            assert forall|i: int| 0 <= i < start.len() && !f.contains(start[i]) implies distance(
                fv,
                #[trigger] start[i].0,
                cur as int,
            ) > 0 by {}
            assert forall|i: int, j: int|
                0 <= i < start.len() && 0 <= j < start.len() && !f.contains(start[i])
                    && f.contains(start[j]) implies #[trigger] evicts_before(
                start,
                fv,
                cur as int,
                i,
                j,
            ) by {}
        }
        r
    }

    /// The places of `files` to decode ahead after the image `name` was
    /// stored: its successor, then its predecessor, each if it exists and is
    /// not cached. None when `name` is not in `files`.
    pub fn prefetch_targets(&self, files: &Vec<String>, name: &str) -> (r: Vec<usize>)
        ensures
            ({
                let p = first_index(files.deep_view(), name@);
                if p < 0 {
                    r@ == Seq::<usize>::empty()
                } else {
                    r@ == prefetch_spec(keys_of(self@), files.deep_view(), p)
                }
            }),
    {
        let mut out: Vec<usize> = Vec::new();
        let pos = match position_of(files, name) {
            Some(p) => p,
            None => {
                return out;
            },
        };
        proof {
            lemma_first_index(files.deep_view(), name@);
        }
        let n = files.len();
        assert(pos < n);
        if pos + 1 < n {
            if !self.contains_key(files[pos + 1].as_str()) {
                out.push(pos + 1);
            }
        }
        if pos > 0 {
            if !self.contains_key(files[pos - 1].as_str()) {
                out.push(pos - 1);
            }
        }
        assert(out@ =~= prefetch_spec(keys_of(self@), files.deep_view(), pos as int));
        out
    }
}

proof fn lemma_identity_result<V>(
    s: Seq<(Seq<char>, V)>,
    files: Seq<Seq<char>>,
    current: Seq<char>,
    cap: nat,
)
    requires
        keys_of(s).no_duplicates(),
        s.len() <= cap || first_index(files, current) < 0,
    ensures
        eviction_result(
            s,
            s,
            files,
            current,
            cap,
            if s.len() <= cap {
                EvictOutcome::Within
            } else {
                EvictOutcome::CurrentNotListed
            },
        ),
{
    assert forall|a: int, b: int| 0 <= a < b < s.len() implies first_index(
        keys_of(s),
        #[trigger] s[a].0,
    ) < first_index(keys_of(s), #[trigger] s[b].0) by {
        lemma_first_unique(keys_of(s), a);
        lemma_first_unique(keys_of(s), b);
    }
    assert forall|i: int| 0 <= i < s.len() implies s.contains(#[trigger] s[i]) by {}
}

/// In a sequence without duplicates, the first place of an item is its place.
proof fn lemma_first_unique<A>(s: Seq<A>, i: int)
    requires
        s.no_duplicates(),
        0 <= i < s.len(),
    ensures
        first_index(s, s[i]) == i,
{
    lemma_first_index(s, s[i]);
    assert(s.contains(s[i]));
}

/// Reading `f` through the places `idx` it keeps of `s`.
proof fn lemma_index_map<V>(s: Seq<(Seq<char>, V)>, f: Seq<(Seq<char>, V)>, idx: Seq<int>)
    requires
        keys_of(s).no_duplicates(),
        idx.len() == f.len(),
        forall|k: int| 0 <= k < idx.len() ==> 0 <= #[trigger] idx[k] < s.len(),
        forall|k: int| 0 <= k < idx.len() ==> f[k] == s[#[trigger] idx[k]],
    ensures
        forall|k: int| 0 <= k < f.len() ==> first_index(keys_of(s), #[trigger] f[k].0) == idx[k],
        forall|i: int| 0 <= i < s.len() ==> (f.contains(#[trigger] s[i]) <==> idx.contains(i)),
{
    assert forall|k: int| 0 <= k < f.len() implies first_index(keys_of(s), #[trigger] f[k].0)
        == idx[k] by {
        lemma_first_unique(keys_of(s), idx[k]);
    }
    assert forall|i: int| 0 <= i < s.len() implies (f.contains(#[trigger] s[i]) <==> idx.contains(
        i,
    )) by {
        if f.contains(s[i]) {
            let k = choose|k: int| 0 <= k < f.len() && f[k] == s[i];
            assert(keys_of(s)[idx[k]] == keys_of(s)[i]);
            assert(idx[k] == i);
        }
        if idx.contains(i) {
            let k = choose|k: int| 0 <= k < idx.len() && idx[k] == i;
            assert(f[k] == s[i]);
        }
    }
}

/// Evicting the entry at place `m` of `cur_s` keeps the eviction order.
proof fn lemma_evict_step<V>(
    start: Seq<(Seq<char>, V)>,
    cur_s: Seq<(Seq<char>, V)>,
    idx: Seq<int>,
    files: Seq<Seq<char>>,
    cur: int,
    m: int,
)
    requires
        idx.len() == cur_s.len(),
        forall|k: int| 0 <= k < idx.len() ==> 0 <= #[trigger] idx[k] < start.len(),
        forall|k: int| 0 <= k < idx.len() ==> cur_s[k] == start[#[trigger] idx[k]],
        forall|a: int, b: int| 0 <= a < b < idx.len() ==> idx[a] < idx[b],
        forall|i: int|
            0 <= i < start.len() && !idx.contains(i) ==> distance(files, #[trigger] start[i].0, cur)
                > 0,
        forall|i: int, j: int|
            0 <= i < start.len() && 0 <= j < start.len() && !idx.contains(i) && idx.contains(j)
                ==> #[trigger] evicts_before(start, files, cur, i, j),
        is_furthest(keys_of(cur_s), files, cur, m),
    ensures
        ({
            let nidx = idx.remove(m);
            &&& forall|k: int| 0 <= k < nidx.len() ==> 0 <= #[trigger] nidx[k] < start.len()
            &&& forall|k: int|
                0 <= k < nidx.len() ==> cur_s.remove(m)[k] == start[#[trigger] nidx[k]]
            &&& forall|a: int, b: int| 0 <= a < b < nidx.len() ==> nidx[a] < nidx[b]
            &&& forall|i: int|
                0 <= i < start.len() && !nidx.contains(i) ==> distance(
                    files,
                    #[trigger] start[i].0,
                    cur,
                ) > 0
            &&& forall|i: int, j: int|
                0 <= i < start.len() && 0 <= j < start.len() && !nidx.contains(i)
                    && nidx.contains(j) ==> #[trigger] evicts_before(start, files, cur, i, j)
        }),
{
    let nidx = idx.remove(m);
    let ie = idx[m];
    assert(keys_of(cur_s)[m] == start[ie].0);
    // a place kept after the step was kept before, and is not `ie`
    assert forall|j: int| #[trigger] nidx.contains(j) implies idx.contains(j) && j != ie by {
        let k = choose|k: int| 0 <= k < nidx.len() && nidx[k] == j;
        if k < m {
            assert(idx[k] == j);
        } else {
            assert(idx[k + 1] == j);
        }
    }
    assert forall|i: int| 0 <= i < start.len() && !nidx.contains(i) implies distance(
        files,
        #[trigger] start[i].0,
        cur,
    ) > 0 by {
        if idx.contains(i) && i != ie {
            let k = choose|k: int| 0 <= k < idx.len() && idx[k] == i;
            if k < m {
                assert(nidx[k] == i);
            } else {
                assert(nidx[k - 1] == i);
            }
        }
    }
    assert forall|i: int, j: int|
        0 <= i < start.len() && 0 <= j < start.len() && !nidx.contains(i) && nidx.contains(
            j,
        ) implies #[trigger] evicts_before(start, files, cur, i, j) by {
        assert(idx.contains(j) && j != ie);
        if idx.contains(i) {
            if i != ie {
                let k = choose|k: int| 0 <= k < idx.len() && idx[k] == i;
                if k < m {
                    assert(nidx[k] == i);
                } else {
                    assert(nidx[k - 1] == i);
                }
            }
            let kj = choose|k: int| 0 <= k < idx.len() && idx[k] == j;
            assert(keys_of(cur_s)[kj] == start[j].0);
            if kj < m {
                assert(distance(files, keys_of(cur_s)[kj], cur) < distance(
                    files,
                    keys_of(cur_s)[m],
                    cur,
                ));
            } else {
                assert(kj != m);
                assert(distance(files, keys_of(cur_s)[kj], cur) <= distance(
                    files,
                    keys_of(cur_s)[m],
                    cur,
                ));
                assert(idx[m] < idx[kj]);
            }
        }
    }
    assert forall|a: int, b: int| 0 <= a < b < nidx.len() implies nidx[a] < nidx[b] by {
        let a0 = if a < m {
            a
        } else {
            a + 1
        };
        let b0 = if b < m {
            b
        } else {
            b + 1
        };
        assert(nidx[a] == idx[a0]);
        assert(nidx[b] == idx[b0]);
    }
}

proof fn lemma_keys_subset<V>(a: Seq<(Seq<char>, V)>, b: Seq<(Seq<char>, V)>)
    requires
        forall|e| #[trigger] a.contains(e) ==> b.contains(e),
    ensures
        forall|k: Seq<char>| #[trigger] keys_of(a).contains(k) ==> keys_of(b).contains(k),
{
    assert forall|k: Seq<char>| #[trigger] keys_of(a).contains(k) implies keys_of(b).contains(k) by {
        let j = choose|j: int| 0 <= j < keys_of(a).len() && keys_of(a)[j] == k;
        assert(a.contains(a[j]));
        let m = choose|m: int| 0 <= m < b.len() && b[m] == a[j];
        assert(keys_of(b)[m] == k);
    }
}

/// With two distinct keys or more, all in `files`, and `cur` the place of a
/// name, some key lies at a positive distance from `cur`.
proof fn lemma_some_far(
    ks: Seq<Seq<char>>,
    all: Seq<Seq<char>>,
    files: Seq<Seq<char>>,
    cur: int,
    current: Seq<char>,
)
    requires
        ks.no_duplicates(),
        ks.len() >= 2,
        forall|e: Seq<char>| #[trigger] ks.contains(e) ==> all.contains(e),
        forall|j: int| 0 <= j < all.len() ==> files.contains(#[trigger] all[j]),
        cur == first_index(files, current),
        cur >= 0,
    ensures
        exists|j: int| 0 <= j < ks.len() && #[trigger] distance(files, ks[j], cur) > 0,
{
    assert(ks.contains(ks[0]));
    assert(ks.contains(ks[1]));
    let a = choose|j: int| 0 <= j < all.len() && all[j] == ks[0];
    let b = choose|j: int| 0 <= j < all.len() && all[j] == ks[1];
    assert(files.contains(all[a]));
    assert(files.contains(all[b]));
    lemma_first_index(files, ks[0]);
    lemma_first_index(files, ks[1]);
    if distance(files, ks[0], cur) <= 0 && distance(files, ks[1], cur) <= 0 {
        assert(first_index(files, ks[0]) == cur);
        assert(first_index(files, ks[1]) == cur);
        assert(ks[0] == ks[1]);
    }
    assert(distance(files, ks[0], cur) > 0 || distance(files, ks[1], cur) > 0);
}

} // verus!
