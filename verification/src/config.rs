//! The project configuration kept in `.sentinel.toml`: watched folders, the
//! output directory, the shared type directories, and whether classes are
//! written with their superclass.
use vstd::prelude::*;
use crate::text::{chars_of, string_of};

verus! {

broadcast use vstd::string::group_string_axioms;

/// Sentinel's configuration.
#[derive(Debug)]
pub struct SentinelConfig {
    /// Folders whose Ruby files are watched and transpiled.
    pub folders: Vec<String>,
    /// Where generated `.rbs` files are written.
    pub output: String,
    /// Directories that `# @rbs import <name>` resolves from.
    pub shared_paths: Vec<String>,
    /// Whether classes are written as `class Foo < Bar`.
    pub emit_superclasses: bool,
}

pub open spec fn string_views(v: Seq<String>) -> Seq<Seq<char>> {
    v.map_values(|s: String| s@)
}

/// `s` without its trailing `/` characters (`trim_end_matches('/')`).
pub open spec fn trim_slashes(s: Seq<char>) -> Seq<char>
    decreases s.len(),
{
    if s.len() > 0 && s.last() == '/' {
        trim_slashes(s.drop_last())
    } else {
        s
    }
}

/// The folder list after adding `folder`, and whether it was added: the
/// folder, trailing slashes removed, is appended unless already listed.
pub open spec fn spec_add(folders: Seq<Seq<char>>, folder: Seq<char>) -> (Seq<Seq<char>>, bool) {
    let n = trim_slashes(folder);
    if folders.contains(n) {
        (folders, false)
    } else {
        (folders.push(n), true)
    }
}

/// `folders` without the entries equal to `x`, in order.
pub open spec fn without(folders: Seq<Seq<char>>, x: Seq<char>) -> Seq<Seq<char>>
    decreases folders.len(),
{
    if folders.len() == 0 {
        seq![]
    } else {
        without(folders.drop_last(), x) + if folders.last() == x {
            seq![]
        } else {
            seq![folders.last()]
        }
    }
}

/// The folder list after removing `folder` (trailing slashes removed), and
/// whether it was listed.
pub open spec fn spec_remove(folders: Seq<Seq<char>>, folder: Seq<char>) -> (Seq<Seq<char>>, bool) {
    let n = trim_slashes(folder);
    (without(folders, n), folders.contains(n))
}

pub proof fn lemma_without(folders: Seq<Seq<char>>, x: Seq<char>)
    ensures
        !without(folders, x).contains(x),
        without(folders, x).len() <= folders.len(),
        folders.contains(x) ==> without(folders, x).len() < folders.len(),
        !folders.contains(x) ==> without(folders, x) == folders,
        forall|y: Seq<char>| y != x ==> (without(folders, x).contains(y) <==> folders.contains(y)),
    decreases folders.len(),
{
    if folders.len() > 0 {
        let init = folders.drop_last();
        lemma_without(init, x);
        let w = without(folders, x);
        let wi = without(init, x);
        assert(folders =~= init.push(folders.last()));
        if folders.last() == x {
            assert(w =~= wi);
        } else {
            assert(w =~= wi.push(folders.last()));
        }
        assert forall|y: Seq<char>| folders.contains(y) <==> (init.contains(y) || y == folders.last()) by {
            if folders.contains(y) {
                let k = choose|k: int| 0 <= k < folders.len() && folders[k] == y;
                if k < folders.len() - 1 {
                    assert(init[k] == y);
                }
            }
            if init.contains(y) {
                let k = choose|k: int| 0 <= k < init.len() && init[k] == y;
                assert(folders[k] == y);
            }
            if y == folders.last() {
                assert(folders[folders.len() - 1] == y);
            }
        }
        assert forall|y: Seq<char>| w.contains(y) <==> (wi.contains(y) || (y == folders.last() && y != x)) by {
            if folders.last() == x {
            } else {
                if w.contains(y) {
                    let k = choose|k: int| 0 <= k < w.len() && w[k] == y;
                    if k < w.len() - 1 {
                        assert(wi[k] == y);
                    }
                }
                if wi.contains(y) {
                    let k = choose|k: int| 0 <= k < wi.len() && wi[k] == y;
                    assert(w[k] == y);
                }
                if y == folders.last() {
                    assert(w[w.len() - 1] == y);
                }
            }
        }
    } else {
        assert(without(folders, x) =~= folders);
    }
}

/// Normalizing a folder removes its trailing `/` characters and nothing
/// else: the folder is the normalized text followed by `/` characters only,
/// and the normalized text does not end in `/`.
pub proof fn law_trim_only_trailing_slashes(s: Seq<char>)
    ensures
        trim_slashes(s).len() <= s.len(),
        s.subrange(0, trim_slashes(s).len() as int) == trim_slashes(s),
        forall|k: int| trim_slashes(s).len() <= k < s.len() ==> s[k] == '/',
        trim_slashes(s).len() == 0 || trim_slashes(s).last() != '/',
    decreases s.len(),
{
    if s.len() > 0 && s.last() == '/' {
        law_trim_only_trailing_slashes(s.drop_last());
        let t = trim_slashes(s.drop_last());
        assert(s.subrange(0, t.len() as int) =~= s.drop_last().subrange(0, t.len() as int));
        assert forall|k: int| t.len() <= k < s.len() implies s[k] == '/' by {
            if k < s.len() - 1 {
                assert(s[k] == s.drop_last()[k]);
            }
        }
    } else {
        assert(s.subrange(0, s.len() as int) =~= s);
    }
}

/// Adding a folder that is not listed and has no trailing `/` appends
/// exactly that text.
pub proof fn law_add_appends_text(folders: Seq<Seq<char>>, folder: Seq<char>)
    requires
        folder.len() == 0 || folder.last() != '/',
        !folders.contains(folder),
    ensures
        spec_add(folders, folder) == (folders.push(folder), true),
{
    law_trim_only_trailing_slashes(folder);
    assert(trim_slashes(folder) == folder);
}

/// Adding a folder that was just added changes nothing and reports `false`.
pub proof fn law_add_idempotent(folders: Seq<Seq<char>>, folder: Seq<char>)
    ensures
        spec_add(spec_add(folders, folder).0, folder) == (spec_add(folders, folder).0, false),
{
    let n = trim_slashes(folder);
    if !folders.contains(n) {
        assert(folders.push(n)[folders.len() as int] == n);
    }
}

/// Removing a folder that was just added gives back the list as it was.
pub proof fn law_remove_undoes_add(folders: Seq<Seq<char>>, folder: Seq<char>)
    requires
        spec_add(folders, folder).1,
    ensures
        spec_remove(spec_add(folders, folder).0, folder) == (folders, true),
{
    let n = trim_slashes(folder);
    let added = folders.push(n);
    lemma_without(folders, n);
    assert(added.drop_last() =~= folders);
    assert(added[folders.len() as int] == n);
    assert(without(added, n) == without(folders, n));
}

/// After a removal the folder is no longer listed, and every other folder
/// is listed exactly when it was before.
pub proof fn law_remove_removes(folders: Seq<Seq<char>>, folder: Seq<char>)
    ensures
        !spec_remove(folders, folder).0.contains(trim_slashes(folder)),
        forall|y: Seq<char>| y != trim_slashes(folder) ==> (spec_remove(folders, folder).0.contains(y)
            <==> folders.contains(y)),
{
    lemma_without(folders, trim_slashes(folder));
}

impl Default for SentinelConfig {
    /// The configuration used when `.sentinel.toml` does not exist: the `app`
    /// folder, output to `sig/generated`, shared types in `sig/shared`, no
    /// superclasses.
    fn default() -> (r: Self)
        ensures
            string_views(r.folders@) == seq!["app"@],
            r.output@ == "sig/generated"@,
            string_views(r.shared_paths@) == seq!["sig/shared"@],
            !r.emit_superclasses,
    {
        let mut folders: Vec<String> = Vec::new();
        folders.push(String::from_str("app"));
        let mut shared_paths: Vec<String> = Vec::new();
        shared_paths.push(String::from_str("sig/shared"));
        let r = SentinelConfig {
            folders,
            output: String::from_str("sig/generated"),
            shared_paths,
            emit_superclasses: false,
        };
        assert(string_views(r.folders@) =~= seq!["app"@]);
        assert(string_views(r.shared_paths@) =~= seq!["sig/shared"@]);
        r
    }
}

fn trim_slashes_of(s: &str) -> (r: String)
    ensures
        r@ == trim_slashes(s@),
{
    let c = chars_of(s);
    let mut n = c.len();
    assert(c@.subrange(0, c@.len() as int) =~= c@);
    while n > 0 && c[n - 1] == '/'
        invariant
            n <= c@.len(),
            trim_slashes(s@) == trim_slashes(c@.subrange(0, n as int)),
        decreases n,
    {
        assert(c@.subrange(0, n as int).drop_last() =~= c@.subrange(0, n - 1));
        n = n - 1;
    }
    let t = crate::text::copy_range(&c, 0, n);
    assert(c@.subrange(0, c@.len() as int) =~= c@);
    string_of(&t)
}

impl SentinelConfig {
    /// Adds a folder (trailing slashes removed) to the watch list. Returns
    /// `true` if it was added, `false` if it was already listed.
    pub fn add_folder(&mut self, folder: &str) -> (r: bool)
        ensures
            (string_views(final(self).folders@), r) == spec_add(string_views(old(self).folders@), folder@),
            final(self).output == old(self).output,
            final(self).shared_paths == old(self).shared_paths,
            final(self).emit_superclasses == old(self).emit_superclasses,
    {
        let normalized = trim_slashes_of(folder);
        let ghost fv = string_views(self.folders@);
        for i in 0..self.folders.len()
            invariant
                fv == string_views(self.folders@),
                normalized@ == trim_slashes(folder@),
                forall|j: int| 0 <= j < i ==> fv[j] != normalized@,
        {
            if self.folders[i] == normalized {
                assert(fv[i as int] == normalized@);
                return false;
            }
        }
        assert(!fv.contains(normalized@));
        self.folders.push(normalized);
        assert(string_views(self.folders@) =~= fv.push(trim_slashes(folder@)));
        true
    }

    /// Removes a folder (trailing slashes removed) from the watch list.
    /// Returns `true` if it was listed.
    pub fn remove_folder(&mut self, folder: &str) -> (r: bool)
        ensures
            (string_views(final(self).folders@), r) == spec_remove(string_views(old(self).folders@), folder@),
            final(self).output == old(self).output,
            final(self).shared_paths == old(self).shared_paths,
            final(self).emit_superclasses == old(self).emit_superclasses,
    {
        let normalized = trim_slashes_of(folder);
        let ghost fv = string_views(self.folders@);
        let before = self.folders.len();
        let mut kept: Vec<String> = Vec::new();
        let mut old_folders: Vec<String> = Vec::new();
        core::mem::swap(&mut old_folders, &mut self.folders);
        assert(string_views(old_folders@) == fv);
        for i in 0..old_folders.len()
            invariant
                fv == string_views(old_folders@),
                normalized@ == trim_slashes(folder@),
                string_views(kept@) == without(fv.subrange(0, i as int), normalized@),
        {
            assert(fv.subrange(0, i + 1).drop_last() =~= fv.subrange(0, i as int));
            assert(fv.subrange(0, i + 1).last() == old_folders@[i as int]@);
            if old_folders[i] != normalized {
                let ghost prev = string_views(kept@);
                kept.push(old_folders[i].clone());
                assert(string_views(kept@) =~= prev.push(old_folders@[i as int]@));
            } else {
                assert(without(fv.subrange(0, i + 1), normalized@) =~= without(fv.subrange(0, i as int), normalized@));
            }
        }
        assert(fv.subrange(0, fv.len() as int) =~= fv);
        self.folders = kept;
        proof {
            lemma_without(fv, normalized@);
        }
        let removed = self.folders.len() < before;
        proof {
            if removed {
                assert(fv.contains(normalized@));
            } else {
                if fv.contains(normalized@) {
                    assert(without(fv, normalized@).len() < fv.len());
                }
            }
        }
        removed
    }

    /// The output directory.
    pub fn output_path(&self) -> (r: String)
        ensures
            r@ == self.output@,
    {
        self.output.clone()
    }

    /// The watched folders.
    pub fn folder_paths(&self) -> (r: Vec<String>)
        ensures
            string_views(r@) == string_views(self.folders@),
    {
        let mut r: Vec<String> = Vec::new();
        for i in 0..self.folders.len()
            invariant
                string_views(r@) == string_views(self.folders@).subrange(0, i as int),
        {
            let ghost prev = string_views(r@);
            r.push(self.folders[i].clone());
            assert(string_views(r@) =~= prev.push(self.folders@[i as int]@));
            assert(string_views(self.folders@).subrange(0, i + 1) =~= string_views(self.folders@).subrange(0, i as int).push(self.folders@[i as int]@));
        }
        assert(string_views(self.folders@).subrange(0, self.folders@.len() as int) =~= string_views(self.folders@));
        r
    }

    /// The shared type directories.
    pub fn shared_type_paths(&self) -> (r: Vec<String>)
        ensures
            string_views(r@) == string_views(self.shared_paths@),
    {
        let mut r: Vec<String> = Vec::new();
        for i in 0..self.shared_paths.len()
            invariant
                string_views(r@) == string_views(self.shared_paths@).subrange(0, i as int),
        {
            let ghost prev = string_views(r@);
            r.push(self.shared_paths[i].clone());
            assert(string_views(r@) =~= prev.push(self.shared_paths@[i as int]@));
            assert(string_views(self.shared_paths@).subrange(0, i + 1) =~= string_views(self.shared_paths@).subrange(0, i as int).push(self.shared_paths@[i as int]@));
        }
        assert(string_views(self.shared_paths@).subrange(0, self.shared_paths@.len() as int) =~= string_views(self.shared_paths@));
        r
    }
}

} // verus!
