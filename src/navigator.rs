//! The image list, the image on screen, and the way back: moving forward
//! and backward with wraparound, to the next image not yet modified, to a
//! random such image, and back through the history.
use rand::seq::IndexedRandom;
use vstd::prelude::*;

use crate::modified::ModifiedSet;
use crate::names::{first_index, image_file_list, is_image_name, lemma_first_index, lemma_lt_irreflexive, name_lt, position_of, strictly_sorted};

verus! {

/// Where a forward or backward step from place `p` of a list of `n` lands.
pub open spec fn step_spec(n: int, p: int, forward: bool) -> int {
    if forward {
        if p + 1 < n {
            p + 1
        } else {
            0
        }
    } else {
        if p > 0 {
            p - 1
        } else {
            n - 1
        }
    }
}

/// Place `i` is looked at by a scan that starts after place `p` (all places
/// when `p` is -1) and wraps around, stopping short of `p`.
pub open spec fn in_scan(n: int, p: int, i: int) -> bool {
    0 <= i < n && i != p
}

/// The order in which such a scan looks at place `i`.
pub open spec fn scan_rank(n: int, p: int, i: int) -> int {
    if p < 0 {
        i
    } else if i > p {
        i - p - 1
    } else {
        i + n - p - 1
    }
}

/// Relies on `rand::seq::IndexedRandom::choose` with the thread-local
/// generator: `None` for an empty slice, else one of its items.
#[verifier::external_body]
fn choose_one(items: &Vec<usize>) -> (r: Option<usize>)
    ensures
        r is None <==> items@.len() == 0,
        r matches Some(x) ==> items@.contains(x),
{
    items.choose(&mut rand::rng()).copied()
}

/// The image list of a directory, the image on screen and the history of
/// images left behind, most recent last.
pub struct Navigator {
    /// File names of the images, ascending.
    pub files: Vec<String>,
    /// The image on screen.
    pub current: Option<String>,
    /// Images left for another, most recent last.
    pub history: Vec<String>,
}

impl Navigator {
    /// The place of the current image in the list; -1 when there is none or
    /// it is not listed.
    pub open spec fn cur_pos(&self) -> int {
        match self.current {
            Some(c) => first_index(self.files.deep_view(), c@),
            None => -1,
        }
    }

    pub fn new() -> (r: Navigator)
        ensures
            r.files@.len() == 0,
            r.current is None,
            r.history@.len() == 0,
    {
        Navigator { files: Vec::new(), current: None, history: Vec::new() }
    }

    /// Rebuilds the list from a directory listing: the `.jpg` and `.png`
    /// names, each once, ascending.
    pub fn set_files(&mut self, listing: &Vec<String>)
        ensures
            strictly_sorted(final(self).files.deep_view()),
            forall|s: Seq<char>| #[trigger]
                final(self).files.deep_view().contains(s) <==> (listing.deep_view().contains(s)
                    && is_image_name(s)),
            final(self).current == old(self).current,
            final(self).history == old(self).history,
    {
        self.files = image_file_list(listing);
    }

    /// The place of the current image in the list.
    pub fn current_position(&self) -> (r: Option<usize>)
        ensures
            match r {
                Some(i) => self.cur_pos() == i,
                None => self.cur_pos() == -1,
            },
    {
        match &self.current {
            Some(c) => position_of(&self.files, c.as_str()),
            None => None,
        }
    }

    /// The place a step forward (`forward`) or backward leads to, wrapping
    /// around at both ends. With no current image the first one; nothing when
    /// the list is empty or the current image is not in it.
    pub fn step_target(&self, forward: bool) -> (r: Option<usize>)
        ensures
            self.files@.len() == 0 ==> r is None,
            self.files@.len() > 0 && self.current is None ==> r == Some(0usize),
            self.files@.len() > 0 && self.current is Some && self.cur_pos() < 0 ==> r is None,
            self.cur_pos() >= 0 ==> (r matches Some(i) && i == step_spec(
                self.files@.len() as int,
                self.cur_pos(),
                forward,
            )),
    {
        let n = self.files.len();
        if n == 0 {
            return None;
        }
        if self.current.is_none() {
            return Some(0);
        }
        match self.current_position() {
            None => None,
            Some(p) => {
                proof {
                    lemma_first_index(self.files.deep_view(), self.current->0@);
                }
                if forward {
                    if p + 1 < n {
                        Some(p + 1)
                    } else {
                        Some(0)
                    }
                } else {
                    if p > 0 {
                        Some(p - 1)
                    } else {
                        Some(n - 1)
                    }
                }
            },
        }
    }

    /// The places whose image is not in `modified`, ascending.
    pub fn unmodified_positions(&self, modified: &ModifiedSet) -> (r: Vec<usize>)
        ensures
            forall|k: int| 0 <= k < r@.len() ==> #[trigger] r@[k] < self.files@.len(),
            forall|i: int|
                0 <= i < self.files@.len() ==> (r@.contains(i as usize) <==> !modified@.contains(
                    #[trigger] self.files.deep_view()[i],
                )),
            forall|a: int, b: int| 0 <= a < b < r@.len() ==> r@[a] < r@[b],
    {
        let mut out: Vec<usize> = Vec::new();
        let mut i: usize = 0;
        while i < self.files.len()
            invariant
                i <= self.files@.len(),
                forall|k: int| 0 <= k < out@.len() ==> #[trigger] out@[k] < i,
                forall|j: int|
                    0 <= j < i ==> (out@.contains(j as usize) <==> !modified@.contains(
                        #[trigger] self.files.deep_view()[j],
                    )),
                forall|a: int, b: int| 0 <= a < b < out@.len() ==> out@[a] < out@[b],
            decreases self.files@.len() - i,
        {
            let ghost before = out@;
            if !modified.contains(self.files[i].as_str()) {
                out.push(i);
            }
            assert forall|j: int|
                0 <= j < i + 1 implies (out@.contains(j as usize) <==> !modified@.contains(
                #[trigger] self.files.deep_view()[j],
            )) by {
                if out@.contains(j as usize) && j < i {
                    let k = choose|k: int| 0 <= k < out@.len() && out@[k] == j as usize;
                    if k < before.len() {
                        assert(before[k] == j as usize);
                    }
                }
                if before.contains(j as usize) {
                    let k = choose|k: int| 0 <= k < before.len() && before[k] == j as usize;
                    assert(out@[k] == j as usize);
                }
                if j == i && !modified@.contains(self.files.deep_view()[j]) {
                    assert(out@[out@.len() - 1] == j as usize);
                }
            }
            i = i + 1;
        }
        out
    }

    /// A place picked at random among those whose image is not in
    /// `modified`; nothing when every image is.
    pub fn random_unmodified(&self, modified: &ModifiedSet) -> (r: Option<usize>)
        ensures
            r is None <==> forall|i: int|
                0 <= i < self.files@.len() ==> modified@.contains(
                    #[trigger] self.files.deep_view()[i],
                ),
            r matches Some(i) ==> i < self.files@.len() && !modified@.contains(
                self.files.deep_view()[i as int],
            ),
    {
        let candidates = self.unmodified_positions(modified);
        let r = choose_one(&candidates);
        proof {
            if r is None {
                assert forall|i: int| 0 <= i < self.files@.len() implies modified@.contains(
                    #[trigger] self.files.deep_view()[i],
                ) by {
                    if !modified@.contains(self.files.deep_view()[i]) {
                        assert(candidates@.contains(i as usize));
                    }
                }
            } else {
                let x = r->0;
                let k = choose|k: int| 0 <= k < candidates@.len() && candidates@[k] == x;
                assert(x < self.files@.len());
                assert(candidates@.contains(x as usize));
                if forall|i: int|
                    0 <= i < self.files@.len() ==> modified@.contains(
                        #[trigger] self.files.deep_view()[i],
                    ) {
                    assert(modified@.contains(self.files.deep_view()[x as int]));
                }
            }
        }
        r
    }

    /// The first place, scanning forward from after the current image and
    /// wrapping around to stop short of it (the whole list when there is no
    /// listed current image), whose image is not in `modified`. Nothing when
    /// there is none: a finding to report, not an error.
    pub fn next_unmodified(&self, modified: &ModifiedSet) -> (r: Option<usize>)
        ensures
            match r {
                Some(i) => {
                    &&& in_scan(self.files@.len() as int, self.cur_pos(), i as int)
                    &&& !modified@.contains(self.files.deep_view()[i as int])
                    &&& forall|j: int|
                        in_scan(self.files@.len() as int, self.cur_pos(), j) && scan_rank(
                            self.files@.len() as int,
                            self.cur_pos(),
                            j,
                        ) < scan_rank(self.files@.len() as int, self.cur_pos(), i as int)
                            ==> modified@.contains(#[trigger] self.files.deep_view()[j])
                },
                None => forall|j: int|
                    in_scan(self.files@.len() as int, self.cur_pos(), j) ==> modified@.contains(
                        #[trigger] self.files.deep_view()[j],
                    ),
            },
    {
        let n = self.files.len();
        let ghost p = self.cur_pos();
        let ghost fv = self.files.deep_view();
        proof {
            if self.current is Some {
                lemma_first_index(fv, self.current->0@);
            }
        }
        let (start, stop) = match self.current_position() {
            Some(q) => (q + 1, q),
            None => (0, 0),
        };
        assert(p >= 0 ==> start == p + 1 && stop == p);
        assert(p < 0 ==> start == 0 && stop == 0);
        // From just after the current image to the end.
        let mut i: usize = start;
        while i < n
            invariant
                n == self.files@.len(),
                fv == self.files.deep_view(),
                p == self.cur_pos(),
                -1 <= p < n,
                start <= i <= n || (start > n && i == start),
                p >= 0 ==> start == p + 1 && stop == p,
                p < 0 ==> start == 0 && stop == 0,
                forall|j: int|
                    in_scan(n as int, p, j) && start <= j < i ==> modified@.contains(
                        #[trigger] fv[j],
                    ),
            decreases n - i,
        {
            if !modified.contains(self.files[i].as_str()) {
                assert forall|j: int|
                    in_scan(n as int, p, j) && scan_rank(n as int, p, j) < scan_rank(
                        n as int,
                        p,
                        i as int,
                    ) implies modified@.contains(#[trigger] fv[j]) by {}
                return Some(i);
            }
            i = i + 1;
        }
        // Then from the start of the list up to the current image.
        let mut k: usize = 0;
        while k < stop
            invariant
                n == self.files@.len(),
                fv == self.files.deep_view(),
                p == self.cur_pos(),
                -1 <= p < n,
                k <= stop,
                p >= 0 ==> start == p + 1 && stop == p,
                p < 0 ==> start == 0 && stop == 0,
                forall|j: int| in_scan(n as int, p, j) && start <= j ==> modified@.contains(
                    #[trigger] fv[j],
                ),
                forall|j: int| in_scan(n as int, p, j) && 0 <= j < k ==> modified@.contains(
                    #[trigger] fv[j],
                ),
            decreases stop - k,
        {
            if !modified.contains(self.files[k].as_str()) {
                assert forall|j: int|
                    in_scan(n as int, p, j) && scan_rank(n as int, p, j) < scan_rank(
                        n as int,
                        p,
                        k as int,
                    ) implies modified@.contains(#[trigger] fv[j]) by {}
                return Some(k);
            }
            k = k + 1;
        }
        None
    }

    /// Makes `name` the current image. The image left behind goes onto the
    /// history when it differs from `name`, unless the move is itself a step
    /// back through the history.
    pub fn visit(&mut self, name: String, from_history: bool)
        ensures
            final(self).current matches Some(c) && c@ == name@,
            final(self).files == old(self).files,
            final(self).history@ == (match old(self).current {
                Some(c) => if !from_history && c@ != name@ {
                    old(self).history@.push(c)
                } else {
                    old(self).history@
                },
                None => old(self).history@,
            }),
    {
        let prev = self.current.take();
        match prev {
            Some(c) => {
                if !from_history && c != name {
                    self.history.push(c);
                }
            },
            None => {},
        }
        self.current = Some(name);
    }

    /// Takes the most recent image off the history, to go back to it.
    pub fn go_back(&mut self) -> (r: Option<String>)
        ensures
            final(self).files == old(self).files,
            final(self).current == old(self).current,
            old(self).history@.len() == 0 ==> r is None && final(self).history@ == old(
                self,
            ).history@,
            old(self).history@.len() > 0 ==> r == Some(old(self).history@.last())
                && final(self).history@ == old(self).history@.drop_last(),
    {
        self.history.pop()
    }
}

/// In a list with no name twice, a step forward from the last place lands
/// on the first, and a step backward from the first lands on the last.
pub proof fn lemma_wraparound(files: Seq<Seq<char>>)
    requires
        files.len() >= 1,
        strictly_sorted(files),
    ensures
        first_index(files, files.last()) == files.len() - 1,
        step_spec(files.len() as int, files.len() - 1, true) == 0,
        first_index(files, files[0]) == 0,
        step_spec(files.len() as int, 0, false) == files.len() - 1,
{
    let n = files.len() as int;
    lemma_first_index(files, files[n - 1]);
    lemma_first_index(files, files[0]);
    assert(files.contains(files[n - 1]));
    let f = first_index(files, files[n - 1]);
    if f < n - 1 {
        assert(name_lt(files[f], files[n - 1]));
        lemma_lt_irreflexive(files[n - 1]);
    }
}

} // verus!
