//! The user's project: the `RelPath` safety type for destinations inside it.
//!
//! olivaw never writes outside the project directory. `RelPath` is the only
//! path type the plan executor accepts, and no value of it can name a place
//! outside the root: destinations read from `component.toml` are data and are
//! treated as hostile until proven safe here.
use vstd::prelude::*;

use crate::text::{chars_of, string_from_chars};

pub mod cargo;
pub mod manifest;

verus! {

/// `std::path::PathBuf`, carried through as an opaque value.
#[verifier::external_type_specification]
#[verifier::external_body]
pub struct ExPathBuf(std::path::PathBuf);

/// `std::path::Path`, carried through as an opaque value.
#[verifier::external_type_specification]
#[verifier::external_body]
pub struct ExPath(std::path::Path);

/// The path `base.join(rel)` (`std::path::Path::join`) builds: `rel`
/// adjoined to `base` with the platform's separator, or `rel` alone when it
/// is absolute. Joining touches no file system and reads no environment.
pub uninterp spec fn joined_path(base: &std::path::Path, rel: Seq<char>) -> std::path::PathBuf;

/// The path a `PathBuf` holds, borrowed (`std::path::PathBuf::as_path`).
pub uninterp spec fn borrowed_path(p: &std::path::PathBuf) -> &std::path::Path;

/// `root.join(rel)` (`std::path::Path::join`): the result is named
/// (`joined_path`); a path has no view here, so nothing more is stated.
#[verifier::external_body]
pub(crate) fn path_join(root: &std::path::Path, rel: &str) -> (res: std::path::PathBuf)
    ensures
        res == joined_path(root, rel@),
{
    root.join(rel)
}

/// `PathBuf::as_path`: borrows the path the buffer holds (named
/// `borrowed_path`).
pub assume_specification[ std::path::PathBuf::as_path ](p: &std::path::PathBuf) -> (res: &std::path::Path)
    ensures
        res == borrowed_path(p),
;

/// A project rooted at the directory containing `Cargo.toml`.
pub struct Project {
    pub root: std::path::PathBuf,
}

impl Project {
    /// `<root>/olivaw.toml`.
    pub fn manifest_path(&self) -> (res: std::path::PathBuf)
        ensures
            res == joined_path(borrowed_path(&self.root), "olivaw.toml"@),
    {
        path_join(self.root.as_path(), "olivaw.toml")
    }

    /// `<root>/Cargo.toml`.
    pub fn cargo_toml_path(&self) -> (res: std::path::PathBuf)
        ensures
            res == joined_path(borrowed_path(&self.root), "Cargo.toml"@),
    {
        path_join(self.root.as_path(), "Cargo.toml")
    }
}

/// A path as `RelPath::new` records it is a fixed point of validation: it
/// is accepted again, and recorded unchanged.
pub proof fn law_recorded_path_is_canonical(s: Seq<char>)
    requires
        path_error_of(s) is None,
    ensures
        path_error_of(normalized(s)) is None,
        normalized(normalized(s)) == normalized(s),
{
    let n = normalized(s);
    let ps = segments(s);
    let ks = kept_segments(ps);
    RelPath::lemma_segments_slash_free(s);
    RelPath::lemma_kept_from(ps);
    assert forall|i: int| 0 <= i < ks.len() implies slash_free(#[trigger] ks[i]) && !is_parent_segment(ks[i])
        && is_kept_segment(ks[i]) by {
        let j = choose|j: int| 0 <= j < ps.len() && ps[j] == ks[i];
        assert(slash_free(ps[j]));
        assert(!is_parent_segment(ps[j]));
    }
    assert(ks.len() >= 1) by {
        if ks.len() == 0 {
            assert(n =~= Seq::<char>::empty());
        }
    }
    RelPath::lemma_segments_of_join(ks);
    assert(segments(n) == ks);
    RelPath::lemma_kept_all(ks);
    assert(normalized(n) == n);
    assert(!has_parent_segment(n)) by {
        if has_parent_segment(n) {
            let i = choose|i: int| 0 <= i < segments(n).len() && is_parent_segment(#[trigger] segments(n)[i]);
            assert(!is_parent_segment(ks[i]));
        }
    }
}

/// The pieces of `s` between slashes, in order (a path with `n` slashes has
/// `n + 1` pieces, some possibly empty).
pub open spec fn segments(s: Seq<char>) -> Seq<Seq<char>>
    decreases s.len(),
{
    if s.len() == 0 {
        seq![Seq::<char>::empty()]
    } else {
        let r = segments(s.drop_last());
        if s.last() == '/' {
            r.push(Seq::<char>::empty())
        } else {
            r.update(r.len() - 1, r.last().push(s.last()))
        }
    }
}

/// The segment `..`.
pub open spec fn is_parent_segment(p: Seq<char>) -> bool {
    p == seq!['.', '.']
}

/// A segment that survives normalization: not empty and not `.`.
pub open spec fn is_kept_segment(p: Seq<char>) -> bool {
    p.len() > 0 && p != seq!['.']
}

/// The segments of `ps` that survive normalization, in order.
pub open spec fn kept_segments(ps: Seq<Seq<char>>) -> Seq<Seq<char>>
    decreases ps.len(),
{
    if ps.len() == 0 {
        ps
    } else {
        let r = kept_segments(ps.drop_last());
        if is_kept_segment(ps.last()) { r.push(ps.last()) } else { r }
    }
}

/// `ps` joined with single slashes.
pub open spec fn join_with_slash(ps: Seq<Seq<char>>) -> Seq<char>
    decreases ps.len(),
{
    if ps.len() == 0 {
        Seq::<char>::empty()
    } else if ps.len() == 1 {
        ps[0]
    } else {
        join_with_slash(ps.drop_last()) + seq!['/'] + ps.last()
    }
}

/// `s` with empty and `.` segments dropped: `./src//lib.rs` is `src/lib.rs`.
pub open spec fn normalized(s: Seq<char>) -> Seq<char> {
    join_with_slash(kept_segments(segments(s)))
}

/// `s` starts like a Windows drive (`C:`).
pub open spec fn has_drive_prefix(s: Seq<char>) -> bool {
    s.len() >= 2 && (('a' <= s[0] && s[0] <= 'z') || ('A' <= s[0] && s[0] <= 'Z')) && s[1] == ':'
}

/// `s` names the filesystem root, a UNC share or a drive rather than a
/// place under the project.
pub open spec fn is_rooted(s: Seq<char>) -> bool {
    s.len() > 0 && (s[0] == '/' || s[0] == '\\' || has_drive_prefix(s))
}

/// Some segment of `s` is `..`.
pub open spec fn has_parent_segment(s: Seq<char>) -> bool {
    exists|i: int| 0 <= i < segments(s).len() && is_parent_segment(#[trigger] segments(s)[i])
}

/// Why a destination path was refused.
#[derive(Debug, Clone, PartialEq, Eq)]
pub enum PathError {
    /// The path is empty.
    Empty,
    /// The path, or what is left of it once `.` and empty segments are
    /// dropped, starts with `~`.
    HomeDir(String),
    /// The path has a `..` segment.
    ParentDir(String),
    /// The path, or what is left of it once normalized, is absolute or
    /// carries a drive or UNC prefix.
    NotRelative(String),
    /// Nothing is left of the path once `.` and empty segments are dropped.
    ResolvesToNothing(String),
}

/// Which refusal, if any, `s` meets, in the order the checks are made.
/// `s` is accepted as a project-relative destination.
pub open spec fn is_accepted_path(s: Seq<char>) -> bool {
    path_error_of(s) is None
}

pub open spec fn path_error_of(s: Seq<char>) -> Option<PathError> {
    if s.len() == 0 {
        Some(PathError::Empty)
    } else if s[0] == '~' {
        Some(PathError::HomeDir(arbitrary()))
    } else if is_rooted(s) {
        Some(PathError::NotRelative(arbitrary()))
    } else if has_parent_segment(s) {
        Some(PathError::ParentDir(arbitrary()))
    } else if normalized(s).len() == 0 {
        Some(PathError::ResolvesToNothing(arbitrary()))
    } else if normalized(s)[0] == '~' {
        Some(PathError::HomeDir(arbitrary()))
    } else if is_rooted(normalized(s)) {
        Some(PathError::NotRelative(arbitrary()))
    } else {
        None
    }
}

/// The two errors are the same kind of refusal.
pub open spec fn same_kind(a: PathError, b: PathError) -> bool {
    match (a, b) {
        (PathError::Empty, PathError::Empty) => true,
        (PathError::HomeDir(_), PathError::HomeDir(_)) => true,
        (PathError::ParentDir(_), PathError::ParentDir(_)) => true,
        (PathError::NotRelative(_), PathError::NotRelative(_)) => true,
        (PathError::ResolvesToNothing(_), PathError::ResolvesToNothing(_)) => true,
        _ => false,
    }
}

/// The explanation of each refusal.
pub open spec fn path_message(e: PathError) -> Seq<char> {
    match e {
        PathError::Empty => "empty destination path in component manifest"@,
        PathError::HomeDir(s) => "destination path '"@ + s@ + "' must not reference the home directory"@,
        PathError::ParentDir(s) => "destination path '"@ + s@ + "' must not contain '..'"@,
        PathError::NotRelative(s) => "destination path '"@ + s@ + "' must be relative to the project root"@,
        PathError::ResolvesToNothing(s) => "destination path '"@ + s@ + "' resolves to nothing"@,
    }
}

impl PathError {
    /// The explanation shown to the user.
    pub fn message(&self) -> (res: String)
        ensures
            res@ == path_message(*self),
    {
        let mut out = String::new();
        match self {
            PathError::Empty => {
                out.push_str("empty destination path in component manifest");
            },
            PathError::HomeDir(s) => {
                out.push_str("destination path '");
                out.push_str(s.as_str());
                out.push_str("' must not reference the home directory");
            },
            PathError::ParentDir(s) => {
                out.push_str("destination path '");
                out.push_str(s.as_str());
                out.push_str("' must not contain '..'");
            },
            PathError::NotRelative(s) => {
                out.push_str("destination path '");
                out.push_str(s.as_str());
                out.push_str("' must be relative to the project root");
            },
            PathError::ResolvesToNothing(s) => {
                out.push_str("destination path '");
                out.push_str(s.as_str());
                out.push_str("' resolves to nothing");
            },
        }
        out
    }
}

/// A relative path proven safe at construction: no absolute paths, no `..`,
/// no `~`, no drive/UNC prefixes. Joining it under a root cannot escape it.
#[derive(Debug, PartialEq, Eq, PartialOrd, Ord)]
pub struct RelPath(String);

impl Clone for RelPath {
    fn clone(&self) -> (res: RelPath)
        ensures
            res == *self,
    {
        proof { use_type_invariant(self); }
        RelPath(self.0.clone())
    }
}

/// What every `RelPath` holds: a slash-separated list of plain names, none
/// of them empty, `.` or `..` (so it neither starts at the root nor climbs
/// out of the directory it is joined under).
pub open spec fn is_safe_relative(s: Seq<char>) -> bool {
    forall|i: int| 0 <= i < segments(s).len() ==> {
        &&& is_kept_segment(#[trigger] segments(s)[i])
        &&& !is_parent_segment(segments(s)[i])
    }
}

/// `p` holds no slash.
pub open spec fn slash_free(p: Seq<char>) -> bool {
    forall|j: int| 0 <= j < p.len() ==> p[j] != '/'
}

impl RelPath {
    /// The path's characters.
    pub closed spec fn view(&self) -> Seq<char> {
        self.0@
    }

    #[verifier::type_invariant]
    closed spec fn safe(self) -> bool {
        is_safe_relative(self.0@)
    }

    /// Validate and normalize a destination path: `Ok` exactly when no
    /// refusal applies, holding `s` with `.` and empty segments dropped.
    pub fn new(s: &str) -> (res: Result<RelPath, PathError>)
        ensures
            res is Ok <==> path_error_of(s@) is None,
            res matches Ok(p) ==> p.view() == normalized(s@) && is_safe_relative(p.view()),
            res matches Err(e) ==> path_error_of(s@) matches Some(k) && same_kind(e, k),
            res matches Err(e) ==> match e {
                PathError::Empty => true,
                PathError::HomeDir(t) => t@ == s@,
                PathError::ParentDir(t) => t@ == s@,
                PathError::NotRelative(t) => t@ == s@,
                PathError::ResolvesToNothing(t) => t@ == s@,
            },
    {
        let cs = chars_of(s);
        let n = cs.len();
        if n == 0 {
            return Err(PathError::Empty);
        }
        if cs[0] == '~' {
            return Err(PathError::HomeDir(string_from_chars(&cs)));
        }
        let c0 = cs[0];
        if c0 == '/' || c0 == '\\' || (n >= 2 && (('a' <= c0 && c0 <= 'z') || ('A' <= c0 && c0 <= 'Z')) && cs[1] == ':') {
            return Err(PathError::NotRelative(string_from_chars(&cs)));
        }
        let mut out: Vec<char> = Vec::new();
        let mut cur: Vec<char> = Vec::new();
        let mut saw_parent = false;
        let mut i: usize = 0;
        assert(cs@.take(0) =~= Seq::<char>::empty());
        while i < n
            invariant
                cs@ == s@,
                n == cs@.len(),
                i <= n,
                segments(cs@.take(i as int)).len() >= 1,
                cur@ == segments(cs@.take(i as int)).last(),
                out@ == join_with_slash(kept_segments(segments(cs@.take(i as int)).drop_last())),
                saw_parent <==> exists|j: int| 0 <= j < segments(cs@.take(i as int)).len() - 1
                    && is_parent_segment(#[trigger] segments(cs@.take(i as int))[j]),
            decreases n - i,
        {
            let c = cs[i];
            let ghost t = cs@.take(i as int);
            let ghost t1 = cs@.take(i + 1);
            assert(t1.drop_last() =~= t);
            assert(t1.last() == c);
            proof { Self::lemma_segments_nonempty(t); }
            if c == '/' {
                let ghost ps = segments(t);
                assert(segments(t1) == ps.push(Seq::<char>::empty()));
                assert(segments(t1).drop_last() =~= ps);
                let parent = Self::is_dot_dot(&cur);
                let keep = Self::is_kept(&cur);
                proof { Self::lemma_out_empty_iff(ps.drop_last()); }
                if keep {
                    if out.len() > 0 {
                        out.push('/');
                    }
                    let mut j: usize = 0;
                    let ghost before = out@;
                    while j < cur.len()
                        invariant
                            j <= cur@.len(),
                            out@ == before + cur@.take(j as int),
                        decreases cur@.len() - j,
                    {
                        out.push(cur[j]);
                        j = j + 1;
                    }
                    assert(cur@.take(cur@.len() as int) =~= cur@);
                    proof { Self::lemma_join_push(kept_segments(ps.drop_last()), cur@); }
                    assert(ps.drop_last().push(ps.last()) =~= ps);
                }
                assert(kept_segments(ps) == if is_kept_segment(ps.last()) {
                    kept_segments(ps.drop_last()).push(ps.last())
                } else {
                    kept_segments(ps.drop_last())
                });
                if parent {
                    saw_parent = true;
                }
                proof {
                    let ps1 = segments(t1);
                    if saw_parent {
                        if parent {
                            assert(is_parent_segment(ps1[ps.len() - 1]));
                        } else {
                            let j = choose|j: int| 0 <= j < ps.len() - 1 && is_parent_segment(#[trigger] ps[j]);
                            assert(ps1[j] == ps[j]);
                        }
                    } else {
                        assert forall|j: int| 0 <= j < ps1.len() - 1 implies !is_parent_segment(#[trigger] ps1[j]) by {
                            assert(ps1[j] == ps[j]);
                        }
                    }
                }
                cur = Vec::new();
            } else {
                let ghost ps = segments(t);
                cur.push(c);
                assert(segments(t1) == ps.update(ps.len() - 1, ps.last().push(c)));
                assert(segments(t1).drop_last() =~= ps.drop_last());
                proof {
                    let ps1 = segments(t1);
                    if saw_parent {
                        let j = choose|j: int| 0 <= j < ps.len() - 1 && is_parent_segment(#[trigger] ps[j]);
                        assert(ps1[j] == ps[j]);
                    } else {
                        assert forall|j: int| 0 <= j < ps1.len() - 1 implies !is_parent_segment(#[trigger] ps1[j]) by {
                            assert(ps1[j] == ps[j]);
                        }
                    }
                }
            }
            i = i + 1;
        }
        assert(cs@.take(n as int) =~= s@);
        let ghost ps = segments(s@);
        proof { Self::lemma_segments_nonempty(s@); }
        assert(ps.drop_last().push(ps.last()) =~= ps);
        let last_parent = Self::is_dot_dot(&cur);
        if saw_parent || last_parent {
            proof {
                if last_parent {
                    assert(is_parent_segment(ps[ps.len() - 1]));
                } else {
                    let j = choose|j: int| 0 <= j < ps.len() - 1 && is_parent_segment(#[trigger] ps[j]);
                    assert(is_parent_segment(ps[j]));
                }
            }
            return Err(PathError::ParentDir(string_from_chars(&cs)));
        }
        proof {
            assert forall|j: int| 0 <= j < ps.len() implies !is_parent_segment(#[trigger] ps[j]) by {
                if j < ps.len() - 1 {
                } else {
                    assert(ps[j] == cur@);
                }
            }
        }
        proof { Self::lemma_out_empty_iff(ps.drop_last()); }
        if Self::is_kept(&cur) {
            if out.len() > 0 {
                out.push('/');
            }
            let mut j: usize = 0;
            let ghost before = out@;
            while j < cur.len()
                invariant
                    j <= cur@.len(),
                    out@ == before + cur@.take(j as int),
                decreases cur@.len() - j,
            {
                out.push(cur[j]);
                j = j + 1;
            }
            assert(cur@.take(cur@.len() as int) =~= cur@);
            proof { Self::lemma_join_push(kept_segments(ps.drop_last()), cur@); }
        }
        assert(out@ == normalized(s@));
        if out.len() == 0 {
            return Err(PathError::ResolvesToNothing(string_from_chars(&cs)));
        }
        if out[0] == '~' {
            return Err(PathError::HomeDir(string_from_chars(&cs)));
        }
        let o0 = out[0];
        if o0 == '/' || o0 == '\\' || (out.len() >= 2 && (('a' <= o0 && o0 <= 'z') || ('A' <= o0 && o0 <= 'Z')) && out[1] == ':') {
            return Err(PathError::NotRelative(string_from_chars(&cs)));
        }
        let text = string_from_chars(&out);
        proof { Self::lemma_normalized_is_safe(s@); }
        Ok(RelPath(text))
    }

    /// `cur` is the segment `..`.
    fn is_dot_dot(cur: &Vec<char>) -> (res: bool)
        ensures
            res == is_parent_segment(cur@),
    {
        let r = cur.len() == 2 && cur[0] == '.' && cur[1] == '.';
        proof {
            if r {
                assert(cur@ =~= seq!['.', '.']);
            }
        }
        r
    }

    /// `cur` survives normalization.
    fn is_kept(cur: &Vec<char>) -> (res: bool)
        ensures
            res == is_kept_segment(cur@),
    {
        let dot = cur.len() == 1 && cur[0] == '.';
        proof {
            if dot {
                assert(cur@ =~= seq!['.']);
            }
            if cur@ == seq!['.'] {
                assert(cur@.len() == 1);
            }
        }
        cur.len() > 0 && !dot
    }

    proof fn lemma_segments_nonempty(s: Seq<char>)
        ensures
            segments(s).len() >= 1,
        decreases s.len(),
    {
        if s.len() > 0 {
            Self::lemma_segments_nonempty(s.drop_last());
        }
    }

    proof fn lemma_out_empty_iff(ps: Seq<Seq<char>>)
        ensures
            join_with_slash(kept_segments(ps)).len() == 0 <==> kept_segments(ps).len() == 0,
    {
        Self::lemma_kept_from(ps);
        let ks = kept_segments(ps);
        if ks.len() > 0 {
            assert(ks.len() == 1 || ks.len() >= 2);
            assert(is_kept_segment(ks[ks.len() - 1]));
            if ks.len() >= 2 {
                assert(join_with_slash(ks).len() >= ks.last().len());
            } else {
                assert(is_kept_segment(ks[0]));
            }
        }
    }

    proof fn lemma_join_push(ps: Seq<Seq<char>>, x: Seq<char>)
        ensures
            join_with_slash(ps.push(x)) == if ps.len() == 0 {
                x
            } else {
                join_with_slash(ps) + seq!['/'] + x
            },
    {
        assert(ps.push(x).drop_last() =~= ps);
        if ps.len() == 0 {
            assert(ps.push(x)[0] == x);
        }
    }

    proof fn lemma_segments_slash_free(s: Seq<char>)
        ensures
            forall|i: int| 0 <= i < segments(s).len() ==> slash_free(#[trigger] segments(s)[i]),
        decreases s.len(),
    {
        if s.len() > 0 {
            Self::lemma_segments_slash_free(s.drop_last());
            Self::lemma_segments_nonempty(s.drop_last());
            let r = segments(s.drop_last());
            if s.last() != '/' {
                assert forall|i: int| 0 <= i < segments(s).len() implies slash_free(#[trigger] segments(s)[i]) by {
                    if i == r.len() - 1 {
                        assert(slash_free(r[i]));
                        assert(segments(s)[i] == r[i].push(s.last()));
                    } else {
                        assert(segments(s)[i] == r[i]);
                    }
                }
            } else {
                assert forall|i: int| 0 <= i < segments(s).len() implies slash_free(#[trigger] segments(s)[i]) by {
                    if i < r.len() {
                        assert(segments(s)[i] == r[i]);
                    }
                }
            }
        }
    }

    proof fn lemma_kept_from(ps: Seq<Seq<char>>)
        ensures
            forall|i: int| 0 <= i < kept_segments(ps).len() ==> {
                &&& is_kept_segment(#[trigger] kept_segments(ps)[i])
                &&& exists|j: int| 0 <= j < ps.len() && ps[j] == kept_segments(ps)[i]
            },
        decreases ps.len(),
    {
        if ps.len() > 0 {
            Self::lemma_kept_from(ps.drop_last());
            let r = kept_segments(ps.drop_last());
            assert forall|i: int| 0 <= i < kept_segments(ps).len() implies {
                &&& is_kept_segment(#[trigger] kept_segments(ps)[i])
                &&& exists|j: int| 0 <= j < ps.len() && ps[j] == kept_segments(ps)[i]
            } by {
                if i < r.len() {
                    assert(kept_segments(ps)[i] == r[i]);
                    let j = choose|j: int| 0 <= j < ps.drop_last().len() && ps.drop_last()[j] == r[i];
                    assert(ps[j] == r[i]);
                } else {
                    assert(ps[ps.len() - 1] == kept_segments(ps)[i]);
                }
            }
        }
    }

    proof fn lemma_segments_of_slash_free(y: Seq<char>)
        requires
            slash_free(y),
        ensures
            segments(y) == seq![y],
        decreases y.len(),
    {
        if y.len() == 0 {
            assert(y =~= Seq::<char>::empty());
        } else {
            Self::lemma_segments_of_slash_free(y.drop_last());
            assert(y.drop_last().push(y.last()) =~= y);
            assert(segments(y) =~= seq![y]);
        }
    }

    proof fn lemma_segments_after_slash(x: Seq<char>, y: Seq<char>)
        requires
            slash_free(y),
        ensures
            segments(x + seq!['/'] + y) == segments(x).push(y),
        decreases y.len(),
    {
        if y.len() == 0 {
            assert(x + seq!['/'] + y =~= x.push('/'));
            assert((x.push('/')).drop_last() =~= x);
            assert(y =~= Seq::<char>::empty());
        } else {
            let y0 = y.drop_last();
            Self::lemma_segments_after_slash(x, y0);
            let w = x + seq!['/'] + y;
            assert(w.drop_last() =~= x + seq!['/'] + y0);
            assert(w.last() == y.last());
            assert(y0.push(y.last()) =~= y);
            assert(segments(w) =~= segments(x).push(y));
        }
    }

    proof fn lemma_segments_of_join(qs: Seq<Seq<char>>)
        requires
            qs.len() >= 1,
            forall|i: int| 0 <= i < qs.len() ==> slash_free(#[trigger] qs[i]),
        ensures
            segments(join_with_slash(qs)) == qs,
        decreases qs.len(),
    {
        if qs.len() == 1 {
            Self::lemma_segments_of_slash_free(qs[0]);
            assert(qs =~= seq![qs[0]]);
        } else {
            let q0 = qs.drop_last();
            assert forall|i: int| 0 <= i < q0.len() implies slash_free(#[trigger] q0[i]) by {
                assert(q0[i] == qs[i]);
            }
            Self::lemma_segments_of_join(q0);
            assert(slash_free(qs[qs.len() - 1]));
            Self::lemma_segments_after_slash(join_with_slash(q0), qs.last());
            assert(q0.push(qs.last()) =~= qs);
        }
    }

    proof fn lemma_normalized_is_safe(s: Seq<char>)
        requires
            !has_parent_segment(s),
            normalized(s).len() > 0,
        ensures
            is_safe_relative(normalized(s)),
    {
        let ps = segments(s);
        let ks = kept_segments(ps);
        Self::lemma_segments_slash_free(s);
        Self::lemma_kept_from(ps);
        assert forall|i: int| 0 <= i < ks.len() implies slash_free(#[trigger] ks[i]) && !is_parent_segment(ks[i]) by {
            let j = choose|j: int| 0 <= j < ps.len() && ps[j] == ks[i];
            assert(slash_free(ps[j]));
            assert(!is_parent_segment(ps[j]));
        }
        assert(ks.len() >= 1);
        Self::lemma_segments_of_join(ks);
    }

    proof fn lemma_segments_concat(x: Seq<char>, y: Seq<char>)
        ensures
            segments(x + seq!['/'] + y) == segments(x) + segments(y),
        decreases y.len(),
    {
        if y.len() == 0 {
            assert(x + seq!['/'] + y =~= x.push('/'));
            assert((x.push('/')).drop_last() =~= x);
            assert(segments(y) == seq![Seq::<char>::empty()]);
        } else {
            let y0 = y.drop_last();
            Self::lemma_segments_concat(x, y0);
            Self::lemma_segments_nonempty(y0);
            let w = x + seq!['/'] + y;
            assert(w.drop_last() =~= x + seq!['/'] + y0);
            assert(w.last() == y.last());
            assert(segments(w) =~= segments(x) + segments(y));
        }
    }

    /// Segments that all survive normalization survive it unchanged.
    proof fn lemma_kept_all(ks: Seq<Seq<char>>)
        requires
            forall|i: int| 0 <= i < ks.len() ==> is_kept_segment(#[trigger] ks[i]),
        ensures
            kept_segments(ks) == ks,
        decreases ks.len(),
    {
        if ks.len() > 0 {
            let d = ks.drop_last();
            assert forall|i: int| 0 <= i < d.len() implies is_kept_segment(#[trigger] d[i]) by {
                assert(d[i] == ks[i]);
            }
            Self::lemma_kept_all(d);
            assert(is_kept_segment(ks[ks.len() - 1]));
            assert(d.push(ks.last()) =~= ks);
        }
    }

    /// Prefix with a (validated) directory: `dir/self`.
    pub fn prefixed(&self, dir: &RelPath) -> (res: RelPath)
        ensures
            res.view() == dir.view() + seq!['/'] + self.view(),
            is_safe_relative(res.view()),
    {
        proof {
            use_type_invariant(self);
            use_type_invariant(dir);
            Self::lemma_segments_concat(dir.0@, self.0@);
        }
        let mut out = dir.0.clone();
        out.push('/');
        out.push_str(self.0.as_str());
        proof {
            let ps = segments(out@);
            assert(out@ == dir.0@ + seq!['/'] + self.0@);
            assert forall|i: int| 0 <= i < ps.len() implies {
                &&& is_kept_segment(#[trigger] ps[i])
                &&& !is_parent_segment(ps[i])
            } by {
                if i < segments(dir.0@).len() {
                    assert(ps[i] == segments(dir.0@)[i]);
                } else {
                    assert(ps[i] == segments(self.0@)[i - segments(dir.0@).len()]);
                }
            }
        }
        RelPath(out)
    }

    /// Absolute path under `root`. Safe by construction.
    pub fn join_under(&self, root: &std::path::Path) -> (res: std::path::PathBuf)
        ensures
            res == joined_path(root, self.view()),
    {
        path_join(root, self.0.as_str())
    }

    /// The path as text.
    pub fn as_str(&self) -> (res: &str)
        ensures
            res@ == self.view(),
            is_safe_relative(res@),
    {
        proof { use_type_invariant(self); }
        self.0.as_str()
    }
}

} // verus!
