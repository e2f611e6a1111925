//! The watcher's bookkeeping: which changed files a batch of file-system
//! events asks to regenerate.
use vstd::prelude::*;
use crate::config::string_views;
use crate::paths::{watchable_path, is_watchable_path};

verus! {

broadcast use vstd::string::group_string_axioms;

/// The component views of a list of paths.
pub open spec fn path_views(v: Seq<Vec<String>>) -> Seq<Seq<Seq<char>>> {
    v.map_values(|p: Vec<String>| string_views(p@))
}

/// `acc` after noting the paths `ps` of a write or create event: each
/// watchable path not yet noted is appended, in order.
pub open spec fn note_paths(acc: Seq<Seq<Seq<char>>>, ps: Seq<Seq<Seq<char>>>) -> Seq<Seq<Seq<char>>>
    decreases ps.len(),
{
    if ps.len() == 0 {
        acc
    } else {
        let a = note_paths(acc, ps.drop_last());
        let p = ps.last();
        if watchable_path(p) && !a.contains(p) {
            a.push(p)
        } else {
            a
        }
    }
}

/// The changed Ruby files of one batch of watcher events: each watchable
/// path once, in the order first reported.
pub struct ChangeSet {
    paths: Vec<Vec<String>>,
}

impl View for ChangeSet {
    type V = Seq<Seq<Seq<char>>>;

    closed spec fn view(&self) -> Seq<Seq<Seq<char>>> {
        path_views(self.paths@)
    }
}

fn same_path(a: &Vec<String>, b: &Vec<String>) -> (r: bool)
    ensures
        r == (string_views(a@) == string_views(b@)),
{
    if a.len() != b.len() {
        assert(string_views(a@).len() != string_views(b@).len());
        return false;
    }
    for i in 0..a.len()
        invariant
            a@.len() == b@.len(),
            forall|k: int| 0 <= k < i ==> a@[k]@ == b@[k]@,
    {
        if a[i] != b[i] {
            assert(string_views(a@)[i as int] != string_views(b@)[i as int]);
            return false;
        }
    }
    assert(string_views(a@) =~= string_views(b@));
    true
}

fn has_path(list: &Vec<Vec<String>>, p: &Vec<String>) -> (r: bool)
    ensures
        r == path_views(list@).contains(string_views(p@)),
{
    for j in 0..list.len()
        invariant
            forall|k: int| 0 <= k < j ==> path_views(list@)[k] != string_views(p@),
    {
        assert(path_views(list@)[j as int] == string_views(list@[j as int]@));
        if same_path(&list[j], p) {
            return true;
        }
    }
    false
}

impl ChangeSet {
    /// No changes yet.
    pub fn new() -> (r: ChangeSet)
        ensures
            r@ == Seq::<Seq<Seq<char>>>::empty(),
    {
        let r = ChangeSet { paths: Vec::new() };
        assert(r@ =~= Seq::<Seq<Seq<char>>>::empty());
        r
    }

    /// Notes the paths of one event; `writes` tells whether the event is a
    /// modification or a creation, the only kinds that count.
    pub fn note_event(&mut self, writes: bool, paths: &Vec<Vec<String>>)
        ensures
            final(self)@ == (if writes {
                note_paths(old(self)@, path_views(paths@))
            } else {
                old(self)@
            }),
    {
        if !writes {
            return;
        }
        let ghost start = self@;
        let ghost pv = path_views(paths@);
        assert(pv.subrange(0, 0) =~= Seq::<Seq<Seq<char>>>::empty());
        for i in 0..paths.len()
            invariant
                pv == path_views(paths@),
                self@ == note_paths(start, pv.subrange(0, i as int)),
        {
            let ghost q = pv.subrange(0, i + 1);
            assert(q.drop_last() =~= pv.subrange(0, i as int));
            assert(q.last() == string_views(paths@[i as int]@));
            let p = &paths[i];
            if is_watchable_path(p) {
                let seen = has_path(&self.paths, p);
                if !seen {
                    let ghost before = self@;
                    assert(!before.contains(string_views(p@)));
                    self.paths.push(p.clone());
                    assert(self@ =~= before.push(string_views(p@)));
                } else {
                    assert(self@.contains(string_views(p@)));
                }
            }
        }
        assert(pv.subrange(0, pv.len() as int) =~= pv);
    }

    /// The noted paths, in the order first reported.
    pub fn paths(&self) -> (r: &Vec<Vec<String>>)
        ensures
            path_views(r@) == self@,
    {
        &self.paths
    }
}

/// Noting events never lists a path twice.
pub proof fn law_changes_listed_once(acc: Seq<Seq<Seq<char>>>, ps: Seq<Seq<Seq<char>>>)
    requires
        acc.no_duplicates(),
    ensures
        note_paths(acc, ps).no_duplicates(),
    decreases ps.len(),
{
    if ps.len() > 0 {
        law_changes_listed_once(acc, ps.drop_last());
        let a = note_paths(acc, ps.drop_last());
        let p = ps.last();
        if watchable_path(p) && !a.contains(p) {
            assert forall|i: int, j: int| 0 <= i < j < a.push(p).len() implies a.push(p)[i] != a.push(p)[j] by {
                if j == a.len() {
                    assert(a.push(p)[i] == a[i]);
                }
            }
        }
    }
}

/// After noting events, a path is listed exactly when it was listed
/// before or is a watchable path of the events.
pub proof fn law_changes_cover_events(acc: Seq<Seq<Seq<char>>>, ps: Seq<Seq<Seq<char>>>, x: Seq<Seq<char>>)
    ensures
        note_paths(acc, ps).contains(x) <==> (acc.contains(x) || (ps.contains(x) && watchable_path(x))),
    decreases ps.len(),
{
    if ps.len() > 0 {
        let init = ps.drop_last();
        law_changes_cover_events(acc, init, x);
        let a = note_paths(acc, init);
        let p = ps.last();
        assert(ps =~= init.push(p));
        if ps.contains(x) && !init.contains(x) {
            let k = choose|k: int| 0 <= k < ps.len() && ps[k] == x;
            if k < init.len() {
                assert(init[k] == x);
            }
        }
        if init.contains(x) {
            let k = choose|k: int| 0 <= k < init.len() && init[k] == x;
            assert(ps[k] == x);
        }
        if watchable_path(p) && !a.contains(p) {
            if a.push(p).contains(x) && x != p {
                let k = choose|k: int| 0 <= k < a.push(p).len() && a.push(p)[k] == x;
                assert(a[k] == x);
            }
            if a.contains(x) {
                let k = choose|k: int| 0 <= k < a.len() && a[k] == x;
                assert(a.push(p)[k] == x);
            }
            assert(a.push(p)[a.len() as int] == p);
        }
        assert(ps[ps.len() - 1] == p);
    }
}

} // verus!
