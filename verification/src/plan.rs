//! The shared install machinery: `add`, `init` and `update` all build a
//! `Plan` (what files to write, what Cargo.toml needs, what olivaw.toml will
//! record), present it, then carry it out: component files first, then
//! Cargo.toml, then olivaw.toml last, so the manifest only ever describes
//! files that exist on disk.
use vstd::prelude::*;

use crate::project::RelPath;
use crate::project::cargo::CargoEditOutcome;
use crate::project::manifest::InstalledComponent;
use crate::registry::ComponentId;
use crate::text::str_eq;

verus! {

/// Whether a planned write creates a file or replaces one.
#[derive(Debug, Clone, Copy, PartialEq, Eq, Structural)]
pub enum WriteKind {
    Create,
    /// Only reachable via --force or a confirmed update.
    Overwrite,
}

/// One file to write.
pub struct FileWrite {
    pub dest: RelPath,
    pub contents: Vec<u8>,
    pub kind: WriteKind,
}

/// A crate a component needs in the user's Cargo.toml.
#[derive(Debug)]
pub struct CargoDep {
    pub name: String,
    pub req: String,
    pub needed_by: ComponentId,
}

impl Clone for CargoDep {
    fn clone(&self) -> (res: CargoDep)
        ensures
            res == *self,
    {
        CargoDep { name: self.name.clone(), req: self.req.clone(), needed_by: self.needed_by.clone() }
    }
}

/// What carrying out a plan did.
pub struct ExecReport {
    pub written: Vec<RelPath>,
    pub cargo: Option<CargoEditOutcome>,
}

/// Files to write, crates to require, manifest records to store.
pub struct Plan {
    pub file_writes: Vec<FileWrite>,
    pub cargo_deps: Vec<CargoDep>,
    pub manifest_updates: Vec<(ComponentId, InstalledComponent)>,
}

/// The name and requirement of a cargo dependency.
pub open spec fn dep_key(d: CargoDep) -> (Seq<char>, Seq<char>) {
    (d.name@, d.req@)
}

/// Some dependency of `s` has `key`.
pub open spec fn has_key(s: Seq<CargoDep>, key: (Seq<char>, Seq<char>)) -> bool {
    exists|i: int| 0 <= i < s.len() && dep_key(#[trigger] s[i]) == key
}

/// `s` with every dependency dropped whose name and requirement already
/// occurred earlier: the first of each (name, requirement) pair stays, in
/// order.
pub open spec fn first_of_each(s: Seq<CargoDep>) -> Seq<CargoDep>
    decreases s.len(),
{
    if s.len() == 0 {
        s
    } else {
        let r = first_of_each(s.drop_last());
        if has_key(s.drop_last(), dep_key(s.last())) { r } else { r.push(s.last()) }
    }
}

impl Plan {
    /// An empty plan.
    pub fn new() -> (p: Plan)
        ensures
            p.file_writes@.len() == 0,
            p.cargo_deps@.len() == 0,
            p.manifest_updates@.len() == 0,
    {
        Plan { file_writes: Vec::new(), cargo_deps: Vec::new(), manifest_updates: Vec::new() }
    }

    /// Deduplicate cargo deps across components: the same name and
    /// requirement collapse to the first; conflicting requirements keep
    /// both so the report can show them.
    pub fn dedupe_cargo_deps(&mut self)
        ensures
            final(self).cargo_deps@ == first_of_each(old(self).cargo_deps@),
            final(self).file_writes@ == old(self).file_writes@,
            final(self).manifest_updates@ == old(self).manifest_updates@,
    {
        let mut all: Vec<CargoDep> = Vec::new();
        std::mem::swap(&mut all, &mut self.cargo_deps);
        let mut kept: Vec<CargoDep> = Vec::new();
        let mut i: usize = 0;
        while i < all.len()
            invariant
                i <= all@.len(),
                kept@ == first_of_each(all@.take(i as int)),
            decreases all@.len() - i,
        {
            let d = &all[i];
            let ghost t = all@.take(i as int);
            let ghost t1 = all@.take(i + 1);
            proof { law_dedupe_keeps_one_of_each(t); }
            let seen = Self::contains_dep(&kept, d);
            assert(t1.drop_last() =~= t);
            assert(t1.last() == *d);
            assert(seen == has_key(t, dep_key(*d)));
            if !seen {
                kept.push(d.clone());
            }
            i = i + 1;
        }
        assert(all@.take(all@.len() as int) =~= all@);
        self.cargo_deps = kept;
    }

    /// Whether some dependency of `v` has the name and requirement of `d`.
    fn contains_dep(v: &Vec<CargoDep>, d: &CargoDep) -> (res: bool)
        ensures
            res == has_key(v@, dep_key(*d)),
    {
        let mut i: usize = 0;
        while i < v.len()
            invariant
                i <= v@.len(),
                forall|j: int| 0 <= j < i ==> dep_key(#[trigger] v@[j]) != dep_key(*d),
            decreases v@.len() - i,
        {
            if str_eq(v[i].name.as_str(), d.name.as_str()) && str_eq(v[i].req.as_str(), d.req.as_str()) {
                assert(dep_key(v@[i as int]) == dep_key(*d));
                return true;
            }
            i = i + 1;
        }
        false
    }
}

/// After deduplication no two dependencies share a name and requirement,
/// and every (name, requirement) pair of the input is still present.
pub proof fn law_dedupe_keeps_one_of_each(s: Seq<CargoDep>)
    ensures
        forall|i: int, j: int| 0 <= i < j < first_of_each(s).len()
            ==> dep_key(#[trigger] first_of_each(s)[i]) != dep_key(#[trigger] first_of_each(s)[j]),
        forall|k: (Seq<char>, Seq<char>)|
            #![trigger has_key(s, k)]
            #![trigger has_key(first_of_each(s), k)]
            has_key(s, k) <==> has_key(first_of_each(s), k),
    decreases s.len(),
{
    if s.len() > 0 {
        let p = s.drop_last();
        law_dedupe_keeps_one_of_each(p);
        let r = first_of_each(p);
        let f = first_of_each(s);
        let last = s.last();
        let present = has_key(p, dep_key(last));
        assert forall|k: (Seq<char>, Seq<char>)| has_key(s, k) implies has_key(f, k) by {
            let j = choose|j: int| 0 <= j < s.len() && dep_key(#[trigger] s[j]) == k;
            if j < p.len() {
                assert(p[j] == s[j]);
                assert(has_key(p, k));
                assert(has_key(r, k));
                let m = choose|m: int| 0 <= m < r.len() && dep_key(#[trigger] r[m]) == k;
                assert(f[m] == r[m]);
            } else if !present {
                assert(f[r.len() as int] == last);
            } else {
                assert(has_key(r, k));
                let m = choose|m: int| 0 <= m < r.len() && dep_key(#[trigger] r[m]) == k;
                assert(f[m] == r[m]);
            }
        }
        assert forall|k: (Seq<char>, Seq<char>)| has_key(f, k) implies has_key(s, k) by {
            let j = choose|j: int| 0 <= j < f.len() && dep_key(#[trigger] f[j]) == k;
            if j < r.len() {
                assert(f[j] == r[j]);
                assert(has_key(r, k));
                assert(has_key(p, k));
                let m = choose|m: int| 0 <= m < p.len() && dep_key(#[trigger] p[m]) == k;
                assert(s[m] == p[m]);
            } else {
                assert(s[s.len() - 1] == last);
            }
        }
        if !present {
            assert forall|i: int, j: int| 0 <= i < j < f.len() implies dep_key(#[trigger] f[i]) != dep_key(#[trigger] f[j]) by {
                if j == f.len() - 1 {
                    assert(f[i] == r[i]);
                    assert(f[j] == last);
                    if dep_key(r[i]) == dep_key(last) {
                        assert(has_key(r, dep_key(last)));
                    }
                } else {
                    assert(f[i] == r[i] && f[j] == r[j]);
                }
            }
        }
    }
}

/// Deduplicating twice gives what deduplicating once gave: a second
/// `dedupe_cargo_deps` changes nothing.
pub proof fn law_dedupe_idempotent(s: Seq<CargoDep>)
    ensures
        first_of_each(first_of_each(s)) == first_of_each(s),
{
    law_dedupe_keeps_one_of_each(s);
    lemma_distinct_keys_kept(first_of_each(s));
}

/// A sequence whose (name, requirement) pairs are all distinct is left as
/// it is by deduplication.
proof fn lemma_distinct_keys_kept(s: Seq<CargoDep>)
    requires
        forall|i: int, j: int| 0 <= i < j < s.len() ==> dep_key(#[trigger] s[i]) != dep_key(#[trigger] s[j]),
    ensures
        first_of_each(s) == s,
    decreases s.len(),
{
    if s.len() > 0 {
        let p = s.drop_last();
        assert forall|i: int, j: int| 0 <= i < j < p.len() implies dep_key(#[trigger] p[i]) != dep_key(#[trigger] p[j]) by {
            assert(p[i] == s[i] && p[j] == s[j]);
        }
        lemma_distinct_keys_kept(p);
        if has_key(p, dep_key(s.last())) {
            let m = choose|m: int| 0 <= m < p.len() && dep_key(#[trigger] p[m]) == dep_key(s.last());
            assert(p[m] == s[m]);
            assert(dep_key(s[m]) != dep_key(s[s.len() - 1]));
        }
        assert(p.push(s.last()) =~= s);
    }
}

} // verus!
