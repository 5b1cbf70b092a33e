//! The recent-project history: an ordered list of project paths, most
//! recent first, capped at a fixed size. Adding a path moves it to the
//! front; the list never holds the same path twice in a row of adds.
//!
//! The list owns no file: loading and saving it is the caller's concern.

use vstd::prelude::*;
use crate::text::str_eq;
use crate::seqs::lemma_filter_push;

verus! {

/// The most recent projects kept, at most.
pub const MAX_HISTORY_SIZE: usize = 10;

/// Holds of a stored path that differs from the given one.
pub open spec fn other_project(path: Seq<char>) -> spec_fn(Seq<char>) -> bool {
    |p: Seq<char>| p != path
}

/// The history after adding a path: any copy of it already present is
/// removed, the path goes to the front, and the list is cut to the cap.
pub open spec fn history_after_add(ps: Seq<Seq<char>>, path: Seq<char>) -> Seq<Seq<char>> {
    let all = seq![path] + ps.filter(other_project(path));
    if all.len() > MAX_HISTORY_SIZE {
        all.take(MAX_HISTORY_SIZE as int)
    } else {
        all
    }
}

/// The recent-project history.
pub struct HistoryService {
    pub projects: Vec<String>,
}

impl View for HistoryService {
    type V = Seq<Seq<char>>;

    open spec fn view(&self) -> Seq<Seq<char>> {
        self.projects.deep_view()
    }
}

impl HistoryService {
    /// An empty history.
    pub fn new() -> (s: Self)
        ensures
            s@ == Seq::<Seq<char>>::empty(),
    {
        let s = HistoryService { projects: Vec::new() };
        proof {
            assert(s@ =~= Seq::<Seq<char>>::empty());
        }
        s
    }

    /// Adds a project path at the front, dropping any older copy of it
    /// and cutting the list to the cap.
    pub fn add_to_history(&mut self, path: &str)
        ensures
            final(self)@ == history_after_add(old(self)@, path@),
    {
        let ghost pv = self.projects.deep_view();
        let ghost keep = other_project(path@);
        let mut kept: Vec<String> = Vec::new();
        kept.push(String::from_str(path));
        proof {
            assert(kept.deep_view() =~= seq![path@] + pv.take(0).filter(keep));
        }
        let mut i: usize = 0;
        while i < self.projects.len()
            invariant
                0 <= i <= self.projects.len(),
                pv == self.projects.deep_view(),
                pv.len() == self.projects@.len(),
                keep == other_project(path@),
                kept.deep_view() == seq![path@] + pv.take(i as int).filter(keep),
            decreases self.projects.len() - i,
        {
            proof {
                assert(pv.take(i as int).push(pv[i as int]) =~= pv.take(i as int + 1));
                lemma_filter_push(pv.take(i as int), keep, pv[i as int]);
            }
            if !str_eq(self.projects[i].as_str(), path) {
                let ghost before = kept.deep_view();
                kept.push(self.projects[i].clone());
                proof {
                    assert(kept.deep_view() =~= before.push(pv[i as int]));
                    assert(before.push(pv[i as int]) =~= seq![path@] + pv.take(
                        i as int,
                    ).filter(keep).push(pv[i as int]));
                }
            }
            i += 1;
        }
        proof {
            assert(pv.take(pv.len() as int) =~= pv);
        }
        if kept.len() > MAX_HISTORY_SIZE {
            let ghost before = kept.deep_view();
            kept.truncate(MAX_HISTORY_SIZE);
            proof {
                assert(kept.deep_view() =~= before.take(MAX_HISTORY_SIZE as int));
            }
        }
        self.projects = kept;
    }

    /// Removes every copy of a project path from the history.
    pub fn remove_from_history(&mut self, path: &str)
        ensures
            final(self)@ == old(self)@.filter(other_project(path@)),
    {
        let ghost pv = self.projects.deep_view();
        let ghost keep = other_project(path@);
        let mut kept: Vec<String> = Vec::new();
        let mut i: usize = 0;
        while i < self.projects.len()
            invariant
                0 <= i <= self.projects.len(),
                pv == self.projects.deep_view(),
                pv.len() == self.projects@.len(),
                keep == other_project(path@),
                kept.deep_view() == pv.take(i as int).filter(keep),
            decreases self.projects.len() - i,
        {
            proof {
                assert(pv.take(i as int).push(pv[i as int]) =~= pv.take(i as int + 1));
                lemma_filter_push(pv.take(i as int), keep, pv[i as int]);
            }
            if !str_eq(self.projects[i].as_str(), path) {
                let ghost before = kept.deep_view();
                kept.push(self.projects[i].clone());
                proof {
                    assert(kept.deep_view() =~= before.push(pv[i as int]));
                }
            }
            i += 1;
        }
        proof {
            assert(pv.take(pv.len() as int) =~= pv);
        }
        self.projects = kept;
    }

    /// Empties the history.
    pub fn clear_history(&mut self)
        ensures
            final(self)@ == Seq::<Seq<char>>::empty(),
    {
        self.projects = Vec::new();
        proof {
            assert(self@ =~= Seq::<Seq<char>>::empty());
        }
    }
}

} // verus!
