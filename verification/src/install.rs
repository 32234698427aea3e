//! What `add` and `update` decide before anything is written: where each
//! file of a component lands, what the plan records for it, and which
//! existing files stand in the way.
use vstd::prelude::*;

use crate::checksum::{checksum_text, sha256_hex};
use crate::drift::{FileState, file_state_of, recorded_checksum};
use crate::plan::{CargoDep, FileWrite, Plan, WriteKind};
use crate::project::manifest::InstalledComponent;
use crate::project::{PathError, RelPath, is_accepted_path, normalized, path_error_of, same_kind};
use crate::registry::{Component, ComponentId, keys_ascending, lemma_lex_transitive, lemma_lex_trichotomy, lex_less, str_less};
use crate::resolve::ResolvedInstall;
use crate::text::{
    decimal, push_decimal, starts_with, str_eq, str_starts_with, trim_end_all, trim_end_matches_all,
    trim_start_all, trim_start_matches_all, views,
};

verus! {

/// Why a component cannot be installed.
#[derive(Debug)]
pub enum InstallError {
    /// A `[[files]]` destination of the component is not a safe project path.
    UnsafeDestination { component: String, cause: PathError },
}

impl InstallError {
    /// The explanation shown to the user.
    pub fn message(&self) -> (res: String)
        ensures
            res@ == match self {
                InstallError::UnsafeDestination { component, cause } => "component "@ + component@
                    + " declares an unsafe destination — registry bug, please report it: "@
                    + crate::project::path_message(*cause),
            },
    {
        match self {
            InstallError::UnsafeDestination { component, cause } => {
                let mut out = String::new();
                out.push_str("component ");
                out.push_str(component.as_str());
                out.push_str(" declares an unsafe destination — registry bug, please report it: ");
                let m = cause.message();
                out.push_str(m.as_str());
                out
            },
        }
    }
}

/// Where a file declared with destination `dest` lands: the normalized
/// destination, under `prefix` when one is given.
pub open spec fn landing_path(dest: Seq<char>, prefix: Option<Seq<char>>) -> Seq<char> {
    match prefix {
        Some(d) => d + seq!['/'] + normalized(dest),
        None => normalized(dest),
    }
}

/// The prefix directory's path, if any.
pub open spec fn prefix_view(prefix: Option<&RelPath>) -> Option<Seq<char>> {
    match prefix {
        Some(p) => Some(p.view()),
        None => None,
    }
}

/// Where each file of `component` lands, in declaration order. Fails at the
/// first destination that is not a safe project path.
pub fn install_destinations(id: &ComponentId, component: &Component, prefix: Option<&RelPath>) -> (res: Result<Vec<RelPath>, InstallError>)
    ensures
        res matches Ok(ds) ==> {
            &&& ds@.len() == component.files@.len()
            &&& forall|j: int| 0 <= j < ds@.len() ==> is_accepted_path(#[trigger] component.files@[j].dest@)
            &&& forall|j: int| 0 <= j < ds@.len()
                    ==> (#[trigger] ds@[j]).view() == landing_path(component.files@[j].dest@, prefix_view(prefix))
        },
        res matches Err(InstallError::UnsafeDestination { component: who, cause }) ==> {
            &&& who@ == id.path()
            &&& exists|j: int| #![trigger component.files@[j]]
                    0 <= j < component.files@.len()
                    && (forall|i: int| 0 <= i < j ==> is_accepted_path(#[trigger] component.files@[i].dest@))
                    && (path_error_of(component.files@[j].dest@) matches Some(k) && same_kind(cause, k))
        },
{
    let mut out: Vec<RelPath> = Vec::new();
    let mut j: usize = 0;
    while j < component.files.len()
        invariant
            j <= component.files@.len(),
            out@.len() == j,
            forall|k: int| 0 <= k < j ==> is_accepted_path(#[trigger] component.files@[k].dest@),
            forall|k: int| 0 <= k < j ==> (#[trigger] out@[k]).view() == landing_path(component.files@[k].dest@, prefix_view(prefix)),
        decreases component.files@.len() - j,
    {
        let p = match RelPath::new(component.files[j].dest.as_str()) {
            Ok(p) => p,
            Err(e) => {
                return Err(InstallError::UnsafeDestination { component: id.to_string(), cause: e });
            },
        };
        let d = match prefix {
            Some(dir) => p.prefixed(dir),
            None => p,
        };
        let ghost before = out@;
        out.push(d);
        assert(forall|k: int| 0 <= k < j ==> out@[k] == before[k]);
        j = j + 1;
    }
    Ok(out)
}

/// `checksums` with `file` recorded as `sum`: replacing the record of
/// `file` met first, else inserting it before the first file that sorts
/// after it (at the end when there is none).
pub open spec fn with_checksum(checksums: Seq<(Seq<char>, Seq<char>)>, file: Seq<char>, sum: Seq<char>)
    -> Seq<(Seq<char>, Seq<char>)>
    decreases checksums.len(),
{
    if checksums.len() == 0 {
        seq![(file, sum)]
    } else if checksums[0].0 == file {
        checksums.update(0, (file, sum))
    } else if lex_less(file, checksums[0].0) {
        seq![(file, sum)] + checksums
    } else {
        seq![checksums[0]] + with_checksum(checksums.drop_first(), file, sum)
    }
}

/// The files of checksum records, in order.
pub open spec fn sum_files(checksums: Seq<(Seq<char>, Seq<char>)>) -> Seq<Seq<char>> {
    checksums.map_values(|p: (Seq<char>, Seq<char>)| p.0)
}

/// Recording a checksum keeps ascending files ascending (each file once).
pub proof fn lemma_with_checksum_ascending(checksums: Seq<(Seq<char>, Seq<char>)>, file: Seq<char>, sum: Seq<char>)
    requires
        keys_ascending(sum_files(checksums)),
    ensures
        keys_ascending(sum_files(with_checksum(checksums, file, sum))),
        forall|g: Seq<char>| #[trigger] sum_files(with_checksum(checksums, file, sum)).contains(g)
            ==> g == file || sum_files(checksums).contains(g),
        checksums.len() > 0 && file != checksums[0].0 && !lex_less(file, checksums[0].0)
            ==> with_checksum(checksums, file, sum)[0] == checksums[0],
    decreases checksums.len(),
{
    let w = with_checksum(checksums, file, sum);
    let fs = sum_files(checksums);
    let ws = sum_files(w);
    if checksums.len() == 0 {
        assert(ws =~= seq![file]);
    } else if checksums[0].0 == file {
        assert(ws =~= fs);
    } else if lex_less(file, checksums[0].0) {
        assert(ws =~= seq![file] + fs);
        assert forall|i: int, j: int| 0 <= i < j < ws.len() implies lex_less(#[trigger] ws[i], #[trigger] ws[j]) by {
            if i == 0 {
                assert(ws[j] == fs[j - 1]);
                if j - 1 > 0 {
                    assert(lex_less(fs[0], fs[j - 1]));
                    lemma_lex_transitive(file, fs[0], fs[j - 1]);
                }
            } else {
                assert(ws[i] == fs[i - 1] && ws[j] == fs[j - 1]);
            }
        }
        assert forall|g: Seq<char>| #[trigger] ws.contains(g) implies g == file || fs.contains(g) by {
            let k = choose|k: int| 0 <= k < ws.len() && ws[k] == g;
            if k > 0 { assert(fs[k - 1] == g); }
        }
    } else {
        let rest = checksums.drop_first();
        assert(sum_files(rest) =~= fs.drop_first());
        assert forall|i: int, j: int| 0 <= i < j < sum_files(rest).len()
            implies lex_less(#[trigger] sum_files(rest)[i], #[trigger] sum_files(rest)[j]) by {
            assert(sum_files(rest)[i] == fs[i + 1] && sum_files(rest)[j] == fs[j + 1]);
        }
        lemma_with_checksum_ascending(rest, file, sum);
        let wr = with_checksum(rest, file, sum);
        assert(ws =~= seq![fs[0]] + sum_files(wr));
        lemma_lex_trichotomy(file, fs[0]);
        assert forall|i: int, j: int| 0 <= i < j < ws.len() implies lex_less(#[trigger] ws[i], #[trigger] ws[j]) by {
            if i == 0 {
                let g = ws[j];
                assert(g == sum_files(wr)[j - 1]);
                assert(sum_files(wr).contains(g));
                if g != file {
                    assert(sum_files(rest).contains(g));
                    let k = choose|k: int| 0 <= k < sum_files(rest).len() && sum_files(rest)[k] == g;
                    assert(fs[k + 1] == g);
                }
            } else {
                assert(ws[i] == sum_files(wr)[i - 1] && ws[j] == sum_files(wr)[j - 1]);
            }
        }
        assert forall|g: Seq<char>| #[trigger] ws.contains(g) implies g == file || fs.contains(g) by {
            let k = choose|k: int| 0 <= k < ws.len() && ws[k] == g;
            if k > 0 {
                assert(sum_files(wr).contains(g));
                if g != file {
                    assert(sum_files(rest).contains(g));
                    let m = choose|m: int| 0 <= m < sum_files(rest).len() && sum_files(rest)[m] == g;
                    assert(fs[m + 1] == g);
                }
            } else {
                assert(fs[0] == g);
            }
        }
        assert(w[0] == checksums[0]);
    }
}

/// The records of `checksums`, as characters.
pub open spec fn checksum_views(checksums: Seq<(String, String)>) -> Seq<(Seq<char>, Seq<char>)> {
    checksums.map_values(|p: (String, String)| (p.0@, p.1@))
}

/// The checksums recorded for files `files` with contents `contents`, in
/// order, a later record of the same file replacing the earlier.
pub open spec fn recorded_sums(files: Seq<Seq<char>>, contents: Seq<Seq<u8>>) -> Seq<(Seq<char>, Seq<char>)>
    decreases files.len(),
{
    if files.len() == 0 || contents.len() < files.len() {
        Seq::empty()
    } else {
        with_checksum(
            recorded_sums(files.drop_last(), contents.take(files.len() - 1)),
            files.last(),
            checksum_text(contents[files.len() - 1]),
        )
    }
}

/// Record `sum` for `file`: replace its record met first, else insert it
/// before the first file that sorts after it.
fn upsert_checksum(checksums: &mut Vec<(String, String)>, file: String, sum: String)
    ensures
        checksum_views(final(checksums)@) == with_checksum(checksum_views(old(checksums)@), file@, sum@),
{
    let ghost cv = checksum_views(checksums@);
    let ghost f = file@;
    let ghost sm = sum@;
    let mut i: usize = 0;
    assert(cv.take(0) + cv.skip(0) =~= cv);
    while i < checksums.len()
        invariant
            cv == checksum_views(checksums@),
            checksums@ == old(checksums)@,
            i <= checksums@.len(),
            f == file@,
            sm == sum@,
            with_checksum(cv, f, sm) == cv.take(i as int) + with_checksum(cv.skip(i as int), f, sm),
        decreases checksums@.len() - i,
    {
        let ghost rest = cv.skip(i as int);
        assert(rest[0] == cv[i as int]);
        if str_eq(checksums[i].0.as_str(), file.as_str()) {
            checksums.set(i, (file, sum));
            proof {
                assert(rest[0].0 == f);
                assert(with_checksum(rest, f, sm) == rest.update(0, (f, sm)));
                assert(checksum_views(checksums@) =~= cv.take(i as int) + rest.update(0, (f, sm)));
            }
            return;
        }
        if str_less(file.as_str(), checksums[i].0.as_str()) {
            checksums.insert(i, (file, sum));
            proof {
                assert(with_checksum(rest, f, sm) == seq![(f, sm)] + rest);
                assert(checksum_views(checksums@) =~= cv.take(i as int) + (seq![(f, sm)] + rest));
            }
            return;
        }
        proof {
            assert(rest.drop_first() =~= cv.skip(i + 1));
            assert(cv.take(i as int) + (seq![rest[0]] + with_checksum(rest.drop_first(), f, sm))
                =~= cv.take(i + 1) + with_checksum(cv.skip(i + 1), f, sm));
        }
        i = i + 1;
    }
    checksums.push((file, sum));
    proof {
        assert(cv.skip(i as int) =~= Seq::<(Seq<char>, Seq<char>)>::empty());
        assert(cv.take(i as int) =~= cv);
        assert(checksum_views(checksums@) =~= cv.push((f, sm)));
    }
}


/// How `add` writes a file: over an existing file or as a new one.
pub open spec fn write_kind_for(exists: bool) -> WriteKind {
    if exists { WriteKind::Overwrite } else { WriteKind::Create }
}

/// The first `n` destinations that already exist, in order: the files that
/// block an install unless it is forced.
pub open spec fn existing_dests(dests: Seq<RelPath>, exists: Seq<bool>, n: nat) -> Seq<RelPath>
    decreases n,
{
    if n == 0 {
        Seq::empty()
    } else {
        let r = existing_dests(dests, exists, (n - 1) as nat);
        if exists[n - 1] { r.push(dests[n - 1]) } else { r }
    }
}

/// `add` writes over a file exactly when it already exists, and creates it
/// otherwise.
pub proof fn law_add_overwrites_only_existing_files(exists: bool)
    ensures
        write_kind_for(exists) == WriteKind::Overwrite <==> exists,
        write_kind_for(exists) == WriteKind::Create <==> !exists,
{
}

/// The number of `true`s among the first `n` of `flags`.
pub open spec fn true_count(flags: Seq<bool>, n: nat) -> nat
    decreases n,
{
    if n == 0 { 0 } else { true_count(flags, (n - 1) as nat) + if flags[n - 1] { 1nat } else { 0nat } }
}

/// Every destination that already exists blocks the install, and only
/// those do: each existing destination is among the blocking files, and
/// there are as many blocking files as existing destinations.
pub proof fn law_existing_files_block(dests: Seq<RelPath>, present: Seq<bool>, n: nat)
    requires
        n <= dests.len(),
        n <= present.len(),
    ensures
        forall|i: int| 0 <= i < n && #[trigger] present[i] ==> existing_dests(dests, present, n).contains(dests[i]),
        existing_dests(dests, present, n).len() == true_count(present, n),
    decreases n,
{
    if n > 0 {
        let m = (n - 1) as nat;
        law_existing_files_block(dests, present, m);
        let r = existing_dests(dests, present, m);
        let e = existing_dests(dests, present, n);
        assert forall|i: int| 0 <= i < n && #[trigger] present[i] implies e.contains(dests[i]) by {
            if i < m {
                assert(r.contains(dests[i]));
                let j = choose|j: int| 0 <= j < r.len() && r[j] == dests[i];
                if present[m as int] {
                    assert(e[j] == r[j]);
                }
            } else {
                assert(e[r.len() as int] == dests[i]);
            }
        }
    }
}

/// The paths of `dests`, as characters.
pub open spec fn dest_views(dests: Seq<RelPath>) -> Seq<Seq<char>> {
    dests.map_values(|d: RelPath| d.view())
}

/// The contents, as bytes.
pub open spec fn byte_views(contents: Seq<Vec<u8>>) -> Seq<Seq<u8>> {
    contents.map_values(|c: Vec<u8>| c@)
}

/// Each planned write as destination, bytes and kind.
pub open spec fn write_views(ws: Seq<FileWrite>) -> Seq<(RelPath, Seq<u8>, WriteKind)> {
    ws.map_values(|w: FileWrite| (w.dest, w.contents@, w.kind))
}

/// The writes for the first `n` files: file `i` goes to `dests[i]` with
/// `contents[i]` when `kinds[i]` gives a kind, and is skipped when it gives
/// none.
pub open spec fn planned_writes(
    dests: Seq<RelPath>,
    contents: Seq<Seq<u8>>,
    kinds: Seq<Option<WriteKind>>,
    n: nat,
) -> Seq<(RelPath, Seq<u8>, WriteKind)>
    decreases n,
{
    if n == 0 {
        Seq::empty()
    } else {
        let r = planned_writes(dests, contents, kinds, (n - 1) as nat);
        match kinds[n - 1] {
            Some(k) => r.push((dests[n - 1], contents[n - 1], k)),
            None => r,
        }
    }
}

/// What the manifest records for an install: the component's version, the
/// install time, the destinations in order, and the checksum of the content
/// vendored to each.
pub open spec fn is_install_record(
    rec: InstalledComponent,
    component: Component,
    installed_at: Seq<char>,
    dests: Seq<RelPath>,
    contents: Seq<Vec<u8>>,
) -> bool {
    &&& rec.version@ == component.component.version@
    &&& rec.installed_at@ == installed_at
    &&& views(rec.files@) == dest_views(dests)
    &&& checksum_views(rec.checksums@) == recorded_sums(dest_views(dests), byte_views(contents))
    &&& keys_ascending(sum_files(checksum_views(rec.checksums@)))
}

/// The crates `component` needs, each marked as needed by `id`.
pub open spec fn is_component_deps(ds: Seq<CargoDep>, id: ComponentId, component: Component) -> bool {
    &&& ds.len() == component.dependencies.cargo@.len()
    &&& forall|i: int| 0 <= i < ds.len() ==> {
            &&& (#[trigger] ds[i]).name@ == component.dependencies.cargo@[i].0@
            &&& ds[i].req@ == component.dependencies.cargo@[i].1@
            &&& ds[i].needed_by == id
        }
}

/// Add one component to `plan`: the writes that `kinds` asks for, the
/// component's crates, and its manifest record. `dests`, `contents` and
/// `kinds` give, per file of the component in declaration order, where it
/// lands, what it holds, and how it is written (`None`: not at all).
pub fn plan_component(
    plan: &mut Plan,
    id: &ComponentId,
    component: &Component,
    dests: &Vec<RelPath>,
    contents: &Vec<Vec<u8>>,
    kinds: &Vec<Option<WriteKind>>,
    installed_at: &str,
)
    requires
        contents@.len() == dests@.len(),
        kinds@.len() == dests@.len(),
    ensures
        write_views(final(plan).file_writes@) == write_views(old(plan).file_writes@)
            + planned_writes(dests@, byte_views(contents@), kinds@, dests@.len()),
        final(plan).cargo_deps@.take(old(plan).cargo_deps@.len() as int) == old(plan).cargo_deps@,
        is_component_deps(final(plan).cargo_deps@.skip(old(plan).cargo_deps@.len() as int), *id, *component),
        final(plan).manifest_updates@.drop_last() == old(plan).manifest_updates@,
        final(plan).manifest_updates@.len() == old(plan).manifest_updates@.len() + 1,
        final(plan).manifest_updates@.last().0 == *id,
        is_install_record(final(plan).manifest_updates@.last().1, *component, installed_at@, dests@, contents@),
{
    let ghost w0 = write_views(plan.file_writes@);
    let mut files: Vec<String> = Vec::new();
    let mut checksums: Vec<(String, String)> = Vec::new();
    let mut i: usize = 0;
    while i < dests.len()
        invariant
            w0 == write_views(old(plan).file_writes@),
            i <= dests@.len(),
            contents@.len() == dests@.len(),
            kinds@.len() == dests@.len(),
            write_views(plan.file_writes@) == w0 + planned_writes(dests@, byte_views(contents@), kinds@, i as nat),
            plan.cargo_deps@ == old(plan).cargo_deps@,
            plan.manifest_updates@ == old(plan).manifest_updates@,
            views(files@) == dest_views(dests@.take(i as int)),
            checksum_views(checksums@) == recorded_sums(dest_views(dests@.take(i as int)), byte_views(contents@.take(i as int))),
            keys_ascending(sum_files(checksum_views(checksums@))),
        decreases dests@.len() - i,
    {
        let dest = &dests[i];
        let sum = sha256_hex(contents[i].as_slice());
        let name = dest.as_str().to_string();
        proof {
            let t = dest_views(dests@.take(i as int));
            let t1 = dest_views(dests@.take(i + 1));
            let b = byte_views(contents@.take(i as int));
            let b1 = byte_views(contents@.take(i + 1));
            assert(t1.drop_last() =~= t);
            assert(t1.last() == dest.view());
            assert(b1.take(i as int) =~= b);
            assert(b1[i as int] == contents@[i as int]@);
            assert(name@ == dest.view());
            assert(views(files@.push(name)) =~= views(files@).push(name@));
            assert(views(files@.push(name)) =~= t1);
        }
        files.push(name);
        let ghost cv0 = checksum_views(checksums@);
        let file_name = dest.as_str().to_string();
        let ghost fname = file_name@;
        let ghost sumv = sum@;
        upsert_checksum(&mut checksums, file_name, sum);
        proof { lemma_with_checksum_ascending(cv0, fname, sumv); }
        match kinds[i] {
            Some(kind) => {
                let ghost before = plan.file_writes@;
                let bytes = contents[i].clone();
                assert(bytes@ =~= contents@[i as int]@);
                plan.file_writes.push(FileWrite { dest: dest.clone(), contents: bytes, kind });
                assert(write_views(plan.file_writes@) =~= write_views(before).push((*dest, contents@[i as int]@, kind)));
            },
            None => {},
        }
        assert(byte_views(contents@)[i as int] == contents@[i as int]@);
        i = i + 1;
    }
    assert(dests@.take(dests@.len() as int) =~= dests@);
    assert(contents@.take(contents@.len() as int) =~= contents@);
    let cargo = &component.dependencies.cargo;
    let ghost d0 = plan.cargo_deps@;
    let ghost w1 = plan.file_writes@;
    let mut k: usize = 0;
    while k < cargo.len()
        invariant
            cargo@ == component.dependencies.cargo@,
            k <= cargo@.len(),
            d0 == old(plan).cargo_deps@,
            plan.file_writes@ == w1,
            plan.manifest_updates@ == old(plan).manifest_updates@,
            plan.cargo_deps@.len() == d0.len() + k,
            plan.cargo_deps@.take(d0.len() as int) == d0,
            forall|m: int| 0 <= m < k ==> {
                let d = #[trigger] plan.cargo_deps@[d0.len() + m];
                &&& d.name@ == cargo@[m].0@
                &&& d.req@ == cargo@[m].1@
                &&& d.needed_by == *id
            },
        decreases cargo@.len() - k,
    {
        let ghost before = plan.cargo_deps@;
        plan.cargo_deps.push(CargoDep { name: cargo[k].0.clone(), req: cargo[k].1.clone(), needed_by: id.clone() });
        assert(plan.cargo_deps@.take(d0.len() as int) =~= before.take(d0.len() as int));
        assert(forall|m: int| 0 <= m < before.len() ==> plan.cargo_deps@[m] == before[m]);
        k = k + 1;
    }
    proof {
        let tail = plan.cargo_deps@.skip(d0.len() as int);
        assert forall|m: int| 0 <= m < tail.len() implies {
            &&& (#[trigger] tail[m]).name@ == component.dependencies.cargo@[m].0@
            &&& tail[m].req@ == component.dependencies.cargo@[m].1@
            &&& tail[m].needed_by == *id
        } by {
            assert(tail[m] == plan.cargo_deps@[d0.len() + m]);
        }
    }
    let ghost u0 = plan.manifest_updates@;
    plan.manifest_updates.push((
        id.clone(),
        InstalledComponent {
            version: component.component.version.clone(),
            installed_at: installed_at.to_string(),
            files,
            checksums,
        },
    ));
    assert(plan.manifest_updates@.drop_last() =~= u0);
}

/// How `add` writes each file: always, over what exists and as new
/// otherwise.
pub fn add_write_kinds(exists: &Vec<bool>) -> (kinds: Vec<Option<WriteKind>>)
    ensures
        kinds@.len() == exists@.len(),
        forall|i: int| 0 <= i < exists@.len() ==> #[trigger] kinds@[i] == Some(write_kind_for(exists@[i])),
{
    let mut kinds: Vec<Option<WriteKind>> = Vec::new();
    let mut i: usize = 0;
    while i < exists.len()
        invariant
            i <= exists@.len(),
            kinds@.len() == i,
            forall|j: int| 0 <= j < i ==> #[trigger] kinds@[j] == Some(write_kind_for(exists@[j])),
        decreases exists@.len() - i,
    {
        kinds.push(Some(if exists[i] { WriteKind::Overwrite } else { WriteKind::Create }));
        i = i + 1;
    }
    kinds
}

/// The destinations that block a write: those that exist, in order, unless
/// `force` is set.
pub fn blocking_files(dests: &Vec<RelPath>, exists: &Vec<bool>, force: bool) -> (res: Vec<RelPath>)
    requires
        exists@.len() == dests@.len(),
    ensures
        res@ == if force { Seq::empty() } else { existing_dests(dests@, exists@, dests@.len()) },
{
    let mut out: Vec<RelPath> = Vec::new();
    if force {
        return out;
    }
    let mut i: usize = 0;
    while i < dests.len()
        invariant
            exists@.len() == dests@.len(),
            i <= dests@.len(),
            out@ == existing_dests(dests@, exists@, i as nat),
        decreases dests@.len() - i,
    {
        if exists[i] {
            out.push(dests[i].clone());
        }
        i = i + 1;
    }
    out
}

/// What `add` does about components that the requested one pulls in.
#[derive(Debug, Clone, Copy, PartialEq, Eq, Structural)]
pub enum ExtrasDecision {
    /// Nothing extra, or `--force` given: go ahead.
    Proceed,
    /// List them and ask (default yes).
    Ask,
    /// Non-interactive without `--force`: refuse.
    Refuse,
}

/// The decision for `extras` pulled-in components.
pub open spec fn extras_decision_of(extras: nat, force: bool, interactive: bool) -> ExtrasDecision {
    if extras == 0 || force {
        ExtrasDecision::Proceed
    } else if interactive {
        ExtrasDecision::Ask
    } else {
        ExtrasDecision::Refuse
    }
}

/// Decide what to do about `extras` pulled-in components.
pub fn extras_decision(extras: usize, force: bool, interactive: bool) -> (d: ExtrasDecision)
    ensures
        d == extras_decision_of(extras as nat, force, interactive),
{
    if extras == 0 || force {
        ExtrasDecision::Proceed
    } else if interactive {
        ExtrasDecision::Ask
    } else {
        ExtrasDecision::Refuse
    }
}

/// Extra components are never vendored without consent: with any extras,
/// no `--force` and no terminal to ask on, `add` refuses; it proceeds only
/// with no extras or with `--force`, and asks exactly when there are extras,
/// no `--force` and a terminal. How many extras there are beyond the first
/// does not change the decision.
pub proof fn law_extras_need_consent(extras: nat, other: nat, force: bool, interactive: bool)
    ensures
        (extras > 0 && !force && !interactive) ==> extras_decision_of(extras, force, interactive) == ExtrasDecision::Refuse,
        extras_decision_of(extras, force, interactive) == ExtrasDecision::Proceed <==> (extras == 0 || force),
        extras_decision_of(extras, force, interactive) == ExtrasDecision::Ask <==> (extras > 0 && !force && interactive),
        (extras > 0 && other > 0) ==> extras_decision_of(extras, force, interactive) == extras_decision_of(other, force, interactive),
{
}

/// How many of the installs were pulled in as dependencies rather than
/// requested.
pub open spec fn extra_count(installs: Seq<ResolvedInstall>) -> nat
    decreases installs.len(),
{
    if installs.len() == 0 {
        0
    } else {
        extra_count(installs.drop_last()) + if installs.last().requested { 0nat } else { 1nat }
    }
}

/// Count the installs pulled in as dependencies.
pub fn count_extras(installs: &Vec<ResolvedInstall>) -> (n: usize)
    ensures
        n == extra_count(installs@),
{
    let mut n: usize = 0;
    let mut i: usize = 0;
    while i < installs.len()
        invariant
            i <= installs@.len(),
            n == extra_count(installs@.take(i as int)),
            n <= i,
        decreases installs@.len() - i,
    {
        assert(installs@.take(i + 1).drop_last() =~= installs@.take(i as int));
        if !installs[i].requested {
            n = n + 1;
        }
        i = i + 1;
    }
    assert(installs@.take(installs@.len() as int) =~= installs@);
    n
}

/// `"s"` unless `n` is one.
pub open spec fn plural_s(n: nat) -> Seq<char> {
    if n == 1 { ""@ } else { "s"@ }
}

/// Why a non-interactive `add` without `--force` refuses to pull in
/// `extras` more components for `id`.
pub fn extras_refusal_message(id: &ComponentId, extras: usize) -> (res: String)
    ensures
        res@ == id.path() + " pulls in "@ + decimal(extras as nat) + " more component"@ + plural_s(extras as nat)
            + " (listed above) — re-run with --force to confirm non-interactively"@,
{
    let mut out = id.to_string();
    out.push_str(" pulls in ");
    push_decimal(&mut out, extras as u64);
    out.push_str(" more component");
    if extras != 1 {
        out.push_str("s");
    }
    proof { reveal_strlit(""); }
    out.push_str(" (listed above) — re-run with --force to confirm non-interactively");
    out
}

/// The conflicting paths, one per line, each indented by two spaces.
pub open spec fn conflict_listing(conflicts: Seq<Seq<char>>) -> Seq<char>
    decreases conflicts.len(),
{
    if conflicts.len() == 0 {
        Seq::empty()
    } else if conflicts.len() == 1 {
        "  "@ + conflicts[0]
    } else {
        conflict_listing(conflicts.drop_last()) + "\n  "@ + conflicts.last()
    }
}

/// The refusal when files already exist: the listing, the way out with
/// `--force` and, for `add`, the hint to `update` the component instead.
pub open spec fn conflict_text(conflicts: Seq<Seq<char>>, update_hint: Option<Seq<char>>) -> Seq<char> {
    "these files already exist:\n"@ + conflict_listing(conflicts) + "\nre-run with --force to overwrite them"@
        + match update_hint {
            Some(p) => ", or use 'olivaw update "@ + p + "' if the component is already installed"@,
            None => ""@,
        }
}

/// Explain that `conflicts` already exist. `update_hint` names the
/// component that `update` could refresh instead, when there is one.
pub fn conflict_message(conflicts: &Vec<RelPath>, update_hint: Option<&ComponentId>) -> (res: String)
    ensures
        res@ == conflict_text(dest_views(conflicts@), match update_hint {
            Some(id) => Some(id.path()),
            None => None,
        }),
{
    let mut listing = String::new();
    let mut i: usize = 0;
    while i < conflicts.len()
        invariant
            i <= conflicts@.len(),
            listing@ == conflict_listing(dest_views(conflicts@.take(i as int))),
        decreases conflicts@.len() - i,
    {
        let ghost t = dest_views(conflicts@.take(i as int));
        let ghost t1 = dest_views(conflicts@.take(i + 1));
        assert(t1.drop_last() =~= t);
        assert(t1.last() == conflicts@[i as int].view());
        if i == 0 {
            listing.push_str("  ");
        } else {
            listing.push_str("\n  ");
        }
        listing.push_str(conflicts[i].as_str());
        i = i + 1;
    }
    assert(conflicts@.take(conflicts@.len() as int) =~= conflicts@);
    let mut out = String::new();
    out.push_str("these files already exist:\n");
    out.push_str(listing.as_str());
    out.push_str("\nre-run with --force to overwrite them");
    match update_hint {
        Some(id) => {
            out.push_str(", or use 'olivaw update ");
            let p = id.to_string();
            out.push_str(p.as_str());
            out.push_str("' if the component is already installed");
        },
        None => {
            proof { reveal_strlit(""); }
        },
    }
    out
}

/// The first path of `ws` under `examples/`, if any.
pub open spec fn first_example(ws: Seq<Seq<char>>) -> Option<Seq<char>>
    decreases ws.len(),
{
    if ws.len() == 0 {
        None
    } else if starts_with(ws[0], "examples/"@) {
        Some(ws[0])
    } else {
        first_example(ws.drop_first())
    }
}

/// The example name `cargo run --example` takes for a written path.
pub open spec fn example_name(path: Seq<char>) -> Seq<char> {
    trim_end_all(trim_start_all(path, "examples/"@), ".rs"@)
}

/// The example to suggest after an install: the name of the first written
/// file under `examples/`, without that directory and the `.rs` suffix.
pub fn try_it_example(written: &Vec<RelPath>) -> (res: Option<String>)
    ensures
        match first_example(dest_views(written@)) {
            Some(p) => res matches Some(n) && n@ == example_name(p),
            None => res is None,
        },
{
    let mut i: usize = 0;
    assert(dest_views(written@).skip(0) =~= dest_views(written@));
    while i < written.len()
        invariant
            i <= written@.len(),
            first_example(dest_views(written@)) == first_example(dest_views(written@).skip(i as int)),
        decreases written@.len() - i,
    {
        let ghost rest = dest_views(written@).skip(i as int);
        assert(rest[0] == written@[i as int].view());
        assert(rest.drop_first() =~= dest_views(written@).skip(i + 1));
        let w = written[i].as_str();
        if str_starts_with(w, "examples/") {
            let stem = trim_start_matches_all(w, "examples/");
            let name = trim_end_matches_all(stem.as_str(), ".rs");
            return Some(name);
        }
        i = i + 1;
    }
    None
}

/// The sum recorded for `file` in `sums`: the first record of it.
pub open spec fn sum_of(sums: Seq<(Seq<char>, Seq<char>)>, file: Seq<char>) -> Option<Seq<char>>
    decreases sums.len(),
{
    if sums.len() == 0 {
        None
    } else if sums[0].0 == file {
        Some(sums[0].1)
    } else {
        sum_of(sums.drop_first(), file)
    }
}

proof fn lemma_recorded_checksum_views(cs: Seq<(String, String)>, file: Seq<char>)
    ensures
        recorded_checksum(cs, file) == sum_of(checksum_views(cs), file),
    decreases cs.len(),
{
    if cs.len() > 0 {
        assert(checksum_views(cs).drop_first() =~= checksum_views(cs.drop_first()));
        lemma_recorded_checksum_views(cs.drop_first(), file);
    }
}

#[verifier::spinoff_prover]
proof fn lemma_sum_of_with_checksum(sums: Seq<(Seq<char>, Seq<char>)>, file: Seq<char>, sum: Seq<char>, g: Seq<char>)
    ensures
        sum_of(with_checksum(sums, file, sum), g) == if g == file { Some(sum) } else { sum_of(sums, g) },
    decreases sums.len(),
{
    if sums.len() == 0 {
        assert(with_checksum(sums, file, sum).drop_first() =~= Seq::<(Seq<char>, Seq<char>)>::empty());
    } else if sums[0].0 == file {
        assert(with_checksum(sums, file, sum).drop_first() =~= sums.drop_first());
    } else if lex_less(file, sums[0].0) {
        assert(with_checksum(sums, file, sum).drop_first() =~= sums);
    } else {
        assert(with_checksum(sums, file, sum).drop_first() =~= with_checksum(sums.drop_first(), file, sum));
        lemma_sum_of_with_checksum(sums.drop_first(), file, sum, g);
    }
}

proof fn lemma_recorded_sums_last_write(files: Seq<Seq<char>>, contents: Seq<Seq<u8>>, i: int)
    requires
        files.len() == contents.len(),
        0 <= i < files.len(),
        forall|j: int| i < j < files.len() ==> files[j] != files[i],
    ensures
        sum_of(recorded_sums(files, contents), files[i]) == Some(checksum_text(contents[i])),
    decreases files.len(),
{
    let n = files.len();
    let prev = recorded_sums(files.drop_last(), contents.take(n - 1));
    lemma_sum_of_with_checksum(prev, files.last(), checksum_text(contents[n - 1]), files[i]);
    if i < n - 1 {
        assert(files.drop_last()[i] == files[i]);
        assert(contents.take(n - 1)[i] == contents[i]);
        lemma_recorded_sums_last_write(files.drop_last(), contents.take(n - 1), i);
    }
}

/// Right after an install or an update, each vendored file whose
/// destination no later file of the component shares checks `Clean`
/// against the manifest record, as long as the disk holds what was
/// vendored there (or bytes with the same checksum, as an up-to-date file
/// that `update` leaves alone).
pub proof fn law_fresh_install_checks_clean(
    rec: InstalledComponent,
    component: Component,
    installed_at: Seq<char>,
    dests: Seq<RelPath>,
    contents: Seq<Vec<u8>>,
    i: int,
    disk: Seq<u8>,
)
    requires
        is_install_record(rec, component, installed_at, dests, contents),
        contents.len() == dests.len(),
        0 <= i < dests.len(),
        forall|j: int| i < j < dests.len() ==> (#[trigger] dests[j]).view() != dests[i].view(),
        checksum_text(disk) == checksum_text(contents[i]@),
    ensures
        file_state_of(rec, dests[i].view(), true, Some(disk)) == FileState::Clean,
{
    let files = dest_views(dests);
    let bytes = byte_views(contents);
    assert forall|j: int| i < j < files.len() implies files[j] != files[i] by {
        assert(files[j] == dests[j].view());
    }
    lemma_recorded_sums_last_write(files, bytes, i);
    lemma_recorded_checksum_views(rec.checksums@, dests[i].view());
}
} // verus!
