//! The set of image file names whose labels have been saved, kept across
//! sessions as one name per line.
use vstd::prelude::*;

verus! {

/// A set of file names. Each name is held once.
pub struct ModifiedSet {
    names: Vec<String>,
}

impl View for ModifiedSet {
    type V = Set<Seq<char>>;

    closed spec fn view(&self) -> Set<Seq<char>> {
        self.names.deep_view().to_set()
    }
}

impl ModifiedSet {
    /// Each name is held once.
    pub closed spec fn wf(&self) -> bool {
        self.names.deep_view().no_duplicates()
    }

    pub fn new() -> (r: ModifiedSet)
        ensures
            r.wf(),
            r@ == Set::<Seq<char>>::empty(),
    {
        let r = ModifiedSet { names: Vec::new() };
        assert(r@ =~= Set::<Seq<char>>::empty());
        r
    }

    /// Index of `name` in the list, if it is there.
    fn find(&self, name: &String) -> (r: Option<usize>)
        ensures
            match r {
                Some(i) => i < self.names@.len() && self.names.deep_view()[i as int] == name@,
                None => !self.names.deep_view().contains(name@),
            },
    {
        let mut i: usize = 0;
        while i < self.names.len()
            invariant
                i <= self.names@.len(),
                forall|k: int| 0 <= k < i ==> self.names.deep_view()[k] != name@,
            decreases self.names@.len() - i,
        {
            if self.names[i] == *name {
                return Some(i);
            }
            i = i + 1;
        }
        None
    }

    /// The number of names.
    pub fn len(&self) -> (r: usize)
        requires
            self.wf(),
        ensures
            r == self@.len(),
    {
        proof {
            self.names.deep_view().unique_seq_to_set();
        }
        self.names.len()
    }

    pub fn is_empty(&self) -> (r: bool)
        requires
            self.wf(),
        ensures
            r == (self@.len() == 0),
    {
        self.len() == 0
    }

    pub fn contains(&self, name: &str) -> (r: bool)
        ensures
            r == self@.contains(name@),
    {
        let key = String::from_str(name);
        self.find(&key).is_some()
    }

    /// Adds `name`; a name already there stays once.
    pub fn insert(&mut self, name: String)
        requires
            old(self).wf(),
        ensures
            final(self).wf(),
            final(self)@ == old(self)@.insert(name@),
    {
        let ghost before = self.names.deep_view();
        match self.find(&name) {
            Some(i) => {
                assert(self@ =~= before.to_set().insert(name@));
            },
            None => {
                let ghost v = name@;
                self.names.push(name);
                assert(self.names.deep_view() =~= before.push(v));
                proof {
                    lemma_push_to_set(before, v);
                }
            },
        }
    }

    /// Takes `name` out, as when its image is deleted.
    pub fn remove(&mut self, name: &str)
        requires
            old(self).wf(),
        ensures
            final(self).wf(),
            final(self)@ == old(self)@.remove(name@),
    {
        let key = String::from_str(name);
        let ghost before = self.names.deep_view();
        match self.find(&key) {
            Some(i) => {
                self.names.remove(i);
                let ghost after = self.names.deep_view();
                assert(after =~= before.remove(i as int));
                assert forall|s: Seq<char>| #[trigger] after.contains(s) <==> (before.contains(s)
                    && s != name@) by {
                    if after.contains(s) {
                        let k = choose|k: int| 0 <= k < after.len() && after[k] == s;
                        if k < i {
                            assert(before[k] == s);
                            assert(k != i);
                        } else {
                            assert(before[k + 1] == s);
                        }
                    }
                    if before.contains(s) && s != name@ {
                        let k = choose|k: int| 0 <= k < before.len() && before[k] == s;
                        if k < i {
                            assert(after[k] == s);
                        } else {
                            assert(k != i);
                            assert(after[k - 1] == s);
                        }
                    }
                }
                assert(self@ =~= before.to_set().remove(name@));
            },
            None => {
                assert(self@ =~= before.to_set().remove(name@));
            },
        }
    }

    /// Adds each line of a record file as a name. Names already held stay,
    /// so loading the same file twice changes nothing the second time.
    pub fn load_records(&mut self, lines: &Vec<String>)
        requires
            old(self).wf(),
        ensures
            final(self).wf(),
            final(self)@ == old(self)@.union(lines.deep_view().to_set()),
    {
        let ghost start = self@;
        let mut i: usize = 0;
        while i < lines.len()
            invariant
                i <= lines@.len(),
                self.wf(),
                self@ == start.union(lines.deep_view().subrange(0, i as int).to_set()),
            decreases lines@.len() - i,
        {
            let ghost pre = lines.deep_view().subrange(0, i as int);
            self.insert(lines[i].clone());
            assert(lines.deep_view().subrange(0, i + 1) =~= pre.push(lines.deep_view()[i as int]));
            proof {
                lemma_push_to_set(pre, lines.deep_view()[i as int]);
            }
            assert(self@ =~= start.union(lines.deep_view().subrange(0, i + 1).to_set()));
            i = i + 1;
        }
        assert(lines.deep_view().subrange(0, i as int) =~= lines.deep_view());
    }

    /// The lines of a record file for this set: each name once, in no
    /// particular order.
    pub fn save_records(&self) -> (r: Vec<String>)
        requires
            self.wf(),
        ensures
            r.deep_view().no_duplicates(),
            r.deep_view().to_set() == self@,
    {
        let r = self.names.clone();
        assert(r.deep_view() =~= self.names.deep_view());
        r
    }
}

proof fn lemma_push_to_set(s: Seq<Seq<char>>, x: Seq<char>)
    ensures
        s.push(x).to_set() == s.to_set().insert(x),
{
    assert(s.push(x) =~= s + seq![x]);
    Seq::<Seq<char>>::lemma_to_set_insert_commutes(s, x);
}

/// Saving a set and loading the saved lines into an empty set, in whatever
/// order they come back, gives the same set.
pub proof fn lemma_records_round_trip(
    m: Set<Seq<char>>,
    saved: Seq<Seq<char>>,
    lines: Seq<Seq<char>>,
)
    requires
        saved.to_set() == m,
        lines.to_multiset() == saved.to_multiset(),
    ensures
        Set::<Seq<char>>::empty().union(lines.to_set()) == m,
{
    lines.to_multiset_ensures();
    saved.to_multiset_ensures();
    assert forall|s: Seq<char>| #[trigger] lines.to_set().contains(s) <==> m.contains(s) by {
        assert(lines.to_multiset().count(s) == saved.to_multiset().count(s));
        assert(lines.contains(s) <==> lines.to_multiset().count(s) > 0);
        assert(saved.contains(s) <==> saved.to_multiset().count(s) > 0);
        assert(lines.to_set().contains(s) <==> lines.contains(s));
        assert(saved.to_set().contains(s) <==> saved.contains(s));
    }
    assert(Set::<Seq<char>>::empty().union(lines.to_set()) =~= m);
}

} // verus!
