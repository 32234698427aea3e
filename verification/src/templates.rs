//! Project scaffolds for `olivaw init`: the hardware targets, and the
//! substitution that turns embedded template files into a plan.
use vstd::prelude::*;
use vstd::string::*;
use vstd::utf8::*;

use crate::plan::{FileWrite, Plan, WriteKind};
use crate::project::{PathError, RelPath, is_accepted_path, normalized, path_error_of, same_kind};
use crate::text::{contains_seq, replace_all, replace_all_str, starts_with, str_contains, str_eq};

verus! {

/// Hardware target of a scaffold.
#[derive(Debug, Clone, Copy, PartialEq, Eq, Structural)]
pub enum Target {
    Esp32,
    Rp2040,
    Linux,
}

impl Target {
    /// The target's name as written on the command line and in olivaw.toml.
    pub fn as_str(self) -> (s: &'static str)
        ensures
            s@ == match self {
                Target::Esp32 => "esp32"@,
                Target::Rp2040 => "rp2040"@,
                Target::Linux => "linux"@,
            },
    {
        match self {
            Target::Esp32 => "esp32",
            Target::Rp2040 => "rp2040",
            Target::Linux => "linux",
        }
    }
}


/// One file of an embedded template directory: its path below the
/// templates root (`<dir>/...`) and its bytes.
pub struct TemplateFile {
    pub path: String,
    pub contents: Vec<u8>,
}

/// One top-level template directory and every file below it, in the order
/// the embedded tree lists them.
pub struct TemplateDir {
    pub name: String,
    pub files: Vec<TemplateFile>,
}

/// Why a scaffold cannot be built.
#[derive(Debug)]
pub enum TemplateError {
    /// The embedded templates lack this directory.
    MissingDir(String),
    /// A template file does not lie below its directory.
    OutsideRoot(String),
    /// A template file's path is not a safe project path.
    InvalidPath { path: String, cause: PathError },
}

impl TemplateError {
    /// The explanation shown to the user.
    pub fn message(&self) -> (res: String)
        ensures
            res@ == match self {
                TemplateError::MissingDir(d) => "missing embedded template dir '"@ + d@
                    + "' — this is a build bug in olivaw"@,
                TemplateError::OutsideRoot(_) => "template path outside its root"@,
                TemplateError::InvalidPath { path, cause } => "invalid template path '"@ + path@ + "'"@,
            },
    {
        let mut out = String::new();
        match self {
            TemplateError::MissingDir(d) => {
                out.push_str("missing embedded template dir '");
                out.push_str(d.as_str());
                out.push_str("' — this is a build bug in olivaw");
            },
            TemplateError::OutsideRoot(_) => {
                out.push_str("template path outside its root");
            },
            TemplateError::InvalidPath { path, .. } => {
                out.push_str("invalid template path '");
                out.push_str(path.as_str());
                out.push_str("'");
            },
        }
        out
    }
}

/// The placeholder that `init` replaces with the project's name.
pub const PROJECT_NAME_TOKEN: &'static str = "{{project_name}}";

/// `std::str::from_utf8`: the text `bytes` encode, when they are valid
/// UTF-8; the contract restates that documented behaviour over vstd's
/// `valid_utf8` and `decode_utf8`.
#[verifier::external_body]
fn utf8_text(bytes: &[u8]) -> (res: Option<&str>)
    ensures
        res is Some <==> valid_utf8(bytes@),
        res matches Some(t) ==> t@ == decode_utf8(bytes@),
{
    std::str::from_utf8(bytes).ok()
}

/// A template file's bytes in the scaffold: UTF-8 text that holds the
/// placeholder has every occurrence replaced by the project's name;
/// anything else is copied as it is.
pub open spec fn rendered(bytes: Seq<u8>, project_name: Seq<char>) -> Seq<u8> {
    if valid_utf8(bytes) && contains_seq(decode_utf8(bytes), PROJECT_NAME_TOKEN@) {
        encode_utf8(replace_all(decode_utf8(bytes), PROJECT_NAME_TOKEN@, project_name))
    } else {
        bytes
    }
}

/// Substitute the project's name into a template file's bytes.
pub fn render_template(bytes: Vec<u8>, project_name: &str) -> (res: Vec<u8>)
    ensures
        res@ == rendered(bytes@, project_name@),
{
    let replaced = match utf8_text(bytes.as_slice()) {
        Some(text) => {
            if str_contains(text, PROJECT_NAME_TOKEN) {
                proof { reveal_strlit("{{project_name}}"); }
                let r = replace_all_str(text, PROJECT_NAME_TOKEN, project_name);
                Some(r.as_str().as_bytes_vec())
            } else {
                None
            }
        },
        None => None,
    };
    match replaced {
        Some(r) => r,
        None => bytes,
    }
}

/// The path of a file below `dir`, relative to `dir`, with the packaged
/// name `gitignore` restored to `.gitignore`; `None` when the file is not
/// below `dir`.
pub open spec fn stripped(path: Seq<char>, dir: Seq<char>) -> Option<Seq<char>> {
    if starts_with(path, dir + seq!['/']) {
        let rel = path.skip(dir.len() + 1int);
        Some(if rel == "gitignore"@ { ".gitignore"@ } else { rel })
    } else {
        None
    }
}

/// The file lies below `dir` and its relative path is a safe destination.
pub open spec fn template_file_ok(f: TemplateFile, dir: Seq<char>) -> bool {
    stripped(f.path@, dir) matches Some(rel) && is_accepted_path(rel)
}

/// The writes for template files below `dir`: each to its relative path,
/// normalized, with the name substituted, as a new file.
pub open spec fn template_writes(files: Seq<TemplateFile>, dir: Seq<char>, project_name: Seq<char>)
    -> Seq<(Seq<char>, Seq<u8>, WriteKind)>
{
    files.map_values(|f: TemplateFile| (
        normalized(stripped(f.path@, dir)->Some_0),
        rendered(f.contents@, project_name),
        WriteKind::Create,
    ))
}

/// Each planned write as path, bytes and kind.
pub open spec fn planned_files(ws: Seq<FileWrite>) -> Seq<(Seq<char>, Seq<u8>, WriteKind)> {
    ws.map_values(|w: FileWrite| (w.dest.view(), w.contents@, w.kind))
}

/// The first directory named `name`.
pub open spec fn dir_named(dirs: Seq<TemplateDir>, name: Seq<char>) -> Option<TemplateDir>
    decreases dirs.len(),
{
    if dirs.len() == 0 {
        None
    } else if dirs[0].name@ == name {
        Some(dirs[0])
    } else {
        dir_named(dirs.drop_first(), name)
    }
}

/// Find the directory named `name`.
fn find_dir<'a>(dirs: &'a Vec<TemplateDir>, name: &str) -> (res: Option<&'a TemplateDir>)
    ensures
        res matches Some(d) ==> dir_named(dirs@, name@) == Some(*d),
        res is None ==> dir_named(dirs@, name@) is None,
{
    let mut i: usize = 0;
    assert(dirs@.skip(0) =~= dirs@);
    while i < dirs.len()
        invariant
            i <= dirs@.len(),
            dir_named(dirs@, name@) == dir_named(dirs@.skip(i as int), name@),
        decreases dirs@.len() - i,
    {
        assert(dirs@.skip(i as int).drop_first() =~= dirs@.skip(i + 1));
        if str_eq(dirs[i].name.as_str(), name) {
            return Some(&dirs[i]);
        }
        i = i + 1;
    }
    None
}

/// The path of a file below `dir`, relative to it, `gitignore` restored.
fn strip_dir(path: &str, dir: &str) -> (res: Option<String>)
    ensures
        match stripped(path@, dir@) {
            Some(r) => res matches Some(s) && s@ == r,
            None => res is None,
        },
{
    let mut prefix = dir.to_owned();
    prefix.push('/');
    assert(prefix@ =~= dir@ + seq!['/']);
    if !crate::text::str_starts_with(path, prefix.as_str()) {
        return None;
    }
    let cs = crate::text::chars_of(path);
    let ds = crate::text::chars_of(dir);
    let n = cs.len();
    assert(ds@.len() + 1 <= cs@.len() == n);
    let rel = crate::text::string_from_range(&cs, ds.len() + 1, n);
    assert(rel@ =~= path@.skip(dir@.len() + 1int));
    if str_eq(rel.as_str(), "gitignore") {
        Some(".gitignore".to_owned())
    } else {
        Some(rel)
    }
}

/// Every file of `d` lies below it at a safe relative path.
pub open spec fn all_files_ok(d: TemplateDir) -> bool {
    forall|i: int| 0 <= i < d.files@.len() ==> template_file_ok(#[trigger] d.files@[i], d.name@)
}

/// `i` is the first file of `d` that does not lie below it at a safe
/// relative path.
pub open spec fn first_bad_file(d: TemplateDir, i: int) -> bool {
    &&& 0 <= i < d.files@.len()
    &&& !template_file_ok(d.files@[i], d.name@)
    &&& forall|j: int| 0 <= j < i ==> template_file_ok(#[trigger] d.files@[j], d.name@)
}

/// `e` is the refusal of template file `f` below `dir`: `OutsideRoot` with
/// its path when it is not below `dir`, else `InvalidPath` with the
/// relative path and the refusal of that path.
pub open spec fn is_file_error(f: TemplateFile, dir: Seq<char>, e: TemplateError) -> bool {
    match stripped(f.path@, dir) {
        None => e matches TemplateError::OutsideRoot(p) && p@ == f.path@,
        Some(rel) => {
            &&& e matches TemplateError::InvalidPath { path, cause }
            &&& e->path@ == rel
            &&& path_error_of(rel) matches Some(k)
            &&& same_kind(e->cause, path_error_of(rel)->Some_0)
        },
    }
}

/// Append the writes for the files of `dir` to `plan`; fail at the first
/// file that is not below `dir` or not at a safe relative path.
fn collect_files(dir: &TemplateDir, project_name: &str, plan: &mut Plan) -> (res: Result<(), TemplateError>)
    ensures
        res is Ok <==> all_files_ok(*dir),
        res is Ok ==> planned_files(final(plan).file_writes@)
            == planned_files(old(plan).file_writes@) + template_writes(dir.files@, dir.name@, project_name@),
        res matches Err(e) ==> exists|i: int| #[trigger] first_bad_file(*dir, i) && is_file_error(dir.files@[i], dir.name@, e),
        final(plan).cargo_deps@ == old(plan).cargo_deps@,
        final(plan).manifest_updates@ == old(plan).manifest_updates@,
{
    let ghost w0 = planned_files(plan.file_writes@);
    let mut i: usize = 0;
    while i < dir.files.len()
        invariant
            w0 == planned_files(old(plan).file_writes@),
            i <= dir.files@.len(),
            forall|j: int| 0 <= j < i ==> template_file_ok(#[trigger] dir.files@[j], dir.name@),
            planned_files(plan.file_writes@) == w0 + template_writes(dir.files@.take(i as int), dir.name@, project_name@),
            plan.cargo_deps@ == old(plan).cargo_deps@,
            plan.manifest_updates@ == old(plan).manifest_updates@,
        decreases dir.files@.len() - i,
    {
        let file = &dir.files[i];
        let rel = match strip_dir(file.path.as_str(), dir.name.as_str()) {
            Some(r) => r,
            None => {
                let e = TemplateError::OutsideRoot(file.path.clone());
                assert(first_bad_file(*dir, i as int));
                return Err(e);
            },
        };
        let dest = match RelPath::new(rel.as_str()) {
            Ok(d) => d,
            Err(e) => {
                let err = TemplateError::InvalidPath { path: rel, cause: e };
                assert(first_bad_file(*dir, i as int));
                return Err(err);
            },
        };
        let bytes = file.contents.clone();
        assert(bytes@ =~= file.contents@);
        let contents = render_template(bytes, project_name);
        let ghost before = plan.file_writes@;
        plan.file_writes.push(FileWrite { dest, contents, kind: WriteKind::Create });
        proof {
            assert(planned_files(plan.file_writes@) =~= planned_files(before).push(
                (normalized(rel@), rendered(file.contents@, project_name@), WriteKind::Create)));
            assert(template_writes(dir.files@.take(i + 1), dir.name@, project_name@) =~= template_writes(
                dir.files@.take(i as int), dir.name@, project_name@).push(
                (normalized(rel@), rendered(file.contents@, project_name@), WriteKind::Create)));
        }
        i = i + 1;
    }
    assert(dir.files@.take(dir.files@.len() as int) =~= dir.files@);
    Ok(())
}

/// What a scaffold writes for `target`: the files of `common/`, then those
/// of the target's own directory, each with the name substituted.
pub open spec fn scaffold_writes(dirs: Seq<TemplateDir>, target: Target, project_name: Seq<char>)
    -> Seq<(Seq<char>, Seq<u8>, WriteKind)>
{
    let c = dir_named(dirs, "common"@)->Some_0;
    let t = dir_named(dirs, target.name())->Some_0;
    template_writes(c.files@, c.name@, project_name) + template_writes(t.files@, t.name@, project_name)
}

/// The scaffold can be built: both directories exist and every file in
/// them lies at a safe relative path.
pub open spec fn scaffold_ok(dirs: Seq<TemplateDir>, target: Target) -> bool {
    &&& dir_named(dirs, "common"@) matches Some(c) && all_files_ok(c)
    &&& dir_named(dirs, target.name()) matches Some(t) && all_files_ok(t)
}

impl Target {
    /// The target's name.
    pub open spec fn name(self) -> Seq<char> {
        match self {
            Target::Esp32 => "esp32"@,
            Target::Rp2040 => "rp2040"@,
            Target::Linux => "linux"@,
        }
    }
}

/// Build the scaffold plan for `project_name` at `target` from the
/// embedded template directories `dirs`: every file under `common/` plus
/// those under the target's directory, with the placeholder substituted,
/// each created new. The manifest is the caller's to write.
pub fn scaffold_plan(project_name: &str, target: Target, dirs: &Vec<TemplateDir>) -> (res: Result<Plan, TemplateError>)
    ensures
        res is Ok <==> scaffold_ok(dirs@, target),
        res matches Ok(p) ==> {
            &&& planned_files(p.file_writes@) == scaffold_writes(dirs@, target, project_name@)
            &&& p.cargo_deps@.len() == 0
            &&& p.manifest_updates@.len() == 0
        },
        res matches Err(TemplateError::MissingDir(d)) ==> {
            ||| d@ == "common"@ && dir_named(dirs@, "common"@) is None
            ||| d@ == target.name() && dir_named(dirs@, "common"@) is Some && dir_named(dirs@, target.name()) is None
        },
        res matches Err(e) ==> (e is MissingDir) == (dir_named(dirs@, "common"@) is None
            || (dir_named(dirs@, "common"@) matches Some(c) && all_files_ok(c) && dir_named(dirs@, target.name()) is None)),
        res matches Err(e) ==> !(e is MissingDir) ==> {
            let c = dir_named(dirs@, "common"@)->Some_0;
            ||| exists|i: int| #[trigger] first_bad_file(c, i) && is_file_error(c.files@[i], c.name@, e)
            ||| all_files_ok(c) && (dir_named(dirs@, target.name()) matches Some(t)
                && exists|i: int| #[trigger] first_bad_file(t, i) && is_file_error(t.files@[i], t.name@, e))
        },
{
    let mut plan = Plan::new();
    let common = match find_dir(dirs, "common") {
        Some(d) => d,
        None => {
            return Err(TemplateError::MissingDir("common".to_owned()));
        },
    };
    match collect_files(common, project_name, &mut plan) {
        Ok(()) => {},
        Err(e) => {
            return Err(e);
        },
    }
    let name = target.as_str();
    let own = match find_dir(dirs, name) {
        Some(d) => d,
        None => {
            return Err(TemplateError::MissingDir(name.to_owned()));
        },
    };
    match collect_files(own, project_name, &mut plan) {
        Ok(()) => {},
        Err(e) => {
            proof {
                let i = choose|i: int| #[trigger] first_bad_file(*own, i) && is_file_error(own.files@[i], own.name@, e);
                assert(dir_named(dirs@, target.name()) == Some(*own));
                assert(first_bad_file(dir_named(dirs@, target.name())->Some_0, i));
            }
            return Err(e);
        },
    }
    assert(planned_files(plan.file_writes@) =~= scaffold_writes(dirs@, target, project_name@));
    Ok(plan)
}

/// A character allowed in a project name.
pub open spec fn is_name_char(c: char) -> bool {
    ('a' <= c <= 'z') || ('A' <= c <= 'Z') || ('0' <= c <= '9') || c == '-' || c == '_'
}

/// A name `init` accepts for a new project directory: non-empty, ASCII
/// letters, digits, `-` and `_` only.
pub open spec fn is_project_name(name: Seq<char>) -> bool {
    name.len() > 0 && forall|i: int| 0 <= i < name.len() ==> is_name_char(#[trigger] name[i])
}

/// An ASCII letter of either case or an ASCII digit, by code point.
pub open spec fn is_ascii_alphanumeric(c: char) -> bool {
    (48 <= c as int && c as int <= 57) || (65 <= c as int && c as int <= 90) || (97 <= c as int && c as int <= 122)
}

/// The ASCII lower-case form of `c`.
pub open spec fn ascii_lower(c: char) -> char {
    if 65 <= c as int && c as int <= 90 { ((c as int) + 32) as char } else { c }
}

/// `init` accepts exactly the non-empty names of ASCII letters of either
/// case, ASCII digits, `-` and `_`; and a name is accepted exactly when its
/// lower-case form is.
pub proof fn law_project_names(name: Seq<char>)
    ensures
        is_project_name(name) <==> (name.len() > 0 && forall|i: int| 0 <= i < name.len()
            ==> is_ascii_alphanumeric(#[trigger] name[i]) || name[i] == '-' || name[i] == '_'),
        is_project_name(name) <==> is_project_name(name.map_values(|c: char| ascii_lower(c))),
{
    let low = name.map_values(|c: char| ascii_lower(c));
    assert forall|i: int| 0 <= i < name.len() implies
        (is_name_char(#[trigger] name[i]) <==> (is_ascii_alphanumeric(name[i]) || name[i] == '-' || name[i] == '_'))
        && (is_name_char(name[i]) <==> is_name_char(low[i])) by {
        let c = name[i];
        assert(low[i] == ascii_lower(c));
        assert('a' as int == 97 && 'z' as int == 122 && 'A' as int == 65 && 'Z' as int == 90);
        assert('0' as int == 48 && '9' as int == 57 && '-' as int == 45 && '_' as int == 95);
        if 65 <= c as int && c as int <= 90 {
            assert((((c as int) + 32) as char) as int == (c as int) + 32);
        }
    }
    if is_project_name(low) && name.len() > 0 {
        assert forall|i: int| 0 <= i < name.len() implies is_name_char(#[trigger] name[i]) by {
            assert(is_name_char(low[i]));
        }
    }
    if is_project_name(name) {
        assert forall|i: int| 0 <= i < low.len() implies is_name_char(#[trigger] low[i]) by {
            assert(is_name_char(name[i]));
        }
    }
}

/// Check a project name given to `init`; the error explains the rule.
pub fn check_project_name(name: &str) -> (res: Result<(), String>)
    ensures
        res is Ok <==> is_project_name(name@),
        res matches Err(m) ==> m@ == "'"@ + name@ + "' is not a valid project name — use letters, digits, '-' and '_'"@,
{
    let cs = crate::text::chars_of(name);
    let mut ok = cs.len() > 0;
    let mut i: usize = 0;
    while i < cs.len()
        invariant
            cs@ == name@,
            i <= cs@.len(),
            ok == (cs@.len() > 0 && forall|j: int| 0 <= j < i ==> is_name_char(#[trigger] cs@[j])),
        decreases cs@.len() - i,
    {
        let c = cs[i];
        let good = ('a' <= c && c <= 'z') || ('A' <= c && c <= 'Z') || ('0' <= c && c <= '9') || c == '-' || c == '_';
        ok = ok && good;
        i = i + 1;
    }
    if ok {
        Ok(())
    } else {
        let mut m = String::new();
        m.push_str("'");
        m.push_str(name);
        m.push_str("' is not a valid project name — use letters, digits, '-' and '_'");
        Err(m)
    }
}

/// Scan a scaffold for files that already exist (`exists`, one per planned
/// write): with `force` they become overwrites; without it they are
/// returned as conflicts and the plan is left as it was.
pub fn mark_existing(plan: &mut Plan, exists: &Vec<bool>, force: bool) -> (conflicts: Vec<RelPath>)
    requires
        exists@.len() == old(plan).file_writes@.len(),
    ensures
        final(plan).cargo_deps@ == old(plan).cargo_deps@,
        final(plan).manifest_updates@ == old(plan).manifest_updates@,
        final(plan).file_writes@.len() == old(plan).file_writes@.len(),
        forall|i: int| 0 <= i < exists@.len() ==> {
            let w = #[trigger] final(plan).file_writes@[i];
            let v = old(plan).file_writes@[i];
            &&& w.dest == v.dest
            &&& w.contents@ == v.contents@
            &&& w.kind == if exists@[i] && force { WriteKind::Overwrite } else { v.kind }
        },
        conflicts@ == if force {
            Seq::empty()
        } else {
            crate::install::existing_dests(old(plan).file_writes@.map_values(|w: FileWrite| w.dest), exists@, exists@.len())
        },
{
    let ghost dests = plan.file_writes@.map_values(|w: FileWrite| w.dest);
    let mut conflicts: Vec<RelPath> = Vec::new();
    let mut i: usize = 0;
    while i < exists.len()
        invariant
            exists@.len() == old(plan).file_writes@.len(),
            dests == old(plan).file_writes@.map_values(|w: FileWrite| w.dest),
            i <= exists@.len(),
            plan.cargo_deps@ == old(plan).cargo_deps@,
            plan.manifest_updates@ == old(plan).manifest_updates@,
            plan.file_writes@.len() == old(plan).file_writes@.len(),
            forall|j: int| i <= j < exists@.len() ==> plan.file_writes@[j] == old(plan).file_writes@[j],
            forall|j: int| 0 <= j < i ==> {
                let w = #[trigger] plan.file_writes@[j];
                let v = old(plan).file_writes@[j];
                &&& w.dest == v.dest
                &&& w.contents@ == v.contents@
                &&& w.kind == if exists@[j] && force { WriteKind::Overwrite } else { v.kind }
            },
            conflicts@ == if force {
                Seq::empty()
            } else {
                crate::install::existing_dests(dests, exists@, i as nat)
            },
        decreases exists@.len() - i,
    {
        if exists[i] {
            if force {
                plan.file_writes[i].kind = WriteKind::Overwrite;
            } else {
                assert(dests[i as int] == plan.file_writes@[i as int].dest);
                conflicts.push(plan.file_writes[i].dest.clone());
            }
        }
        i = i + 1;
    }
    conflicts
}
} // verus!
