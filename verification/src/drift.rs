//! Drift between what was vendored and what is on disk: the per-file state
//! `check` reports, and the per-file action `update` takes. The rule that
//! matters: a file whose content differs from what was recorded at install
//! time was edited by the user and is never classified as safe to
//! overwrite.
use vstd::prelude::*;

use crate::checksum::{checksum_text, sha256_hex};
use crate::project::{RelPath, path_error_of};
use crate::project::manifest::InstalledComponent;
use crate::plan::WriteKind;
use crate::text::{decimal, push_decimal, str_eq, views};

verus! {

/// Drift state of one vendored file.
#[derive(Debug, Clone, PartialEq, Eq, Structural)]
pub enum FileState {
    Clean,
    /// Disk content differs from the recorded install-time hash: the user
    /// (or something else) edited it.
    Modified,
    Missing,
    /// No recorded checksum (manifest predates it or was hand-edited), or
    /// the recorded path is not a safe project path.
    Unknown,
}

/// The checksum recorded for `file`: the first record keyed `file`.
pub open spec fn recorded_checksum(checksums: Seq<(String, String)>, file: Seq<char>) -> Option<Seq<char>>
    decreases checksums.len(),
{
    if checksums.len() == 0 {
        None
    } else if checksums[0].0@ == file {
        Some(checksums[0].1@)
    } else {
        recorded_checksum(checksums.drop_first(), file)
    }
}

/// The recorded checksum for `file`, if any.
pub fn lookup_checksum<'a>(checksums: &'a Vec<(String, String)>, file: &str) -> (res: Option<&'a String>)
    ensures
        res matches Some(c) ==> recorded_checksum(checksums@, file@) == Some(c@),
        res is None ==> recorded_checksum(checksums@, file@) is None,
{
    let mut i: usize = 0;
    assert(checksums@.skip(0) =~= checksums@);
    while i < checksums.len()
        invariant
            i <= checksums@.len(),
            recorded_checksum(checksums@, file@) == recorded_checksum(checksums@.skip(i as int), file@),
        decreases checksums@.len() - i,
    {
        let ghost rest = checksums@.skip(i as int);
        assert(rest.drop_first() =~= checksums@.skip(i + 1));
        if str_eq(checksums[i].0.as_str(), file) {
            return Some(&checksums[i].1);
        }
        i = i + 1;
    }
    None
}

/// The state of a recorded file given what reading it gave (`None` when it
/// could not be read).
pub open spec fn file_state_of(installed: InstalledComponent, file: Seq<char>, rel_ok: bool, disk: Option<Seq<u8>>) -> FileState {
    if !rel_ok {
        FileState::Unknown
    } else {
        match disk {
            None => FileState::Missing,
            Some(bytes) => match recorded_checksum(installed.checksums@, file) {
                None => FileState::Unknown,
                Some(recorded) => if checksum_text(bytes) == recorded {
                    FileState::Clean
                } else {
                    FileState::Modified
                },
            },
        }
    }
}

/// What `check` reports of a recorded file: clean exactly when it was read
/// and its checksum is the one recorded at install time; modified exactly
/// when it was read and a different checksum was recorded; missing exactly
/// when it could not be read; unknown when its path is unsafe or no
/// checksum was recorded.
pub proof fn law_check_compares_with_the_recorded_checksum(
    installed: InstalledComponent,
    file: Seq<char>,
    rel_ok: bool,
    disk: Option<Seq<u8>>,
)
    ensures
        file_state_of(installed, file, rel_ok, disk) == FileState::Clean <==> (rel_ok && disk is Some
            && recorded_checksum(installed.checksums@, file) == Some(checksum_text(disk->Some_0))),
        file_state_of(installed, file, rel_ok, disk) == FileState::Modified <==> (rel_ok && disk is Some
            && recorded_checksum(installed.checksums@, file) is Some
            && recorded_checksum(installed.checksums@, file) != Some(checksum_text(disk->Some_0))),
        file_state_of(installed, file, rel_ok, disk) == FileState::Missing <==> (rel_ok && disk is None),
        file_state_of(installed, file, rel_ok, disk) == FileState::Unknown <==> (!rel_ok
            || (disk is Some && recorded_checksum(installed.checksums@, file) is None)),
{
}

/// Compare one recorded file's content with its recorded hash. `disk` is
/// the file's content as read from under the project root, `None` when it
/// could not be read; a recorded path that is not a safe project path is
/// `Unknown` whatever was read.
pub fn file_state(installed: &InstalledComponent, file: &str, disk: Option<&[u8]>) -> (st: FileState)
    ensures
        st == file_state_of(*installed, file@, path_error_of(file@) is None, match disk {
            Some(b) => Some(b@),
            None => None,
        }),
{
    let ok = match RelPath::new(file) {
        Ok(_) => true,
        Err(_) => false,
    };
    if !ok {
        return FileState::Unknown;
    }
    match disk {
        None => FileState::Missing,
        Some(bytes) => match lookup_checksum(&installed.checksums, file) {
            None => FileState::Unknown,
            Some(recorded) => {
                let actual = sha256_hex(bytes);
                if str_eq(actual.as_str(), recorded.as_str()) {
                    FileState::Clean
                } else {
                    FileState::Modified
                }
            },
        },
    }
}

/// What `update` does with one file of the new version.
#[derive(Debug)]
pub enum FileAction {
    /// Disk already matches incoming content.
    UpToDate,
    /// Disk matches the recorded hash; upstream changed the file.
    /// `new_len_delta` is (lines added, lines removed), counted in newlines.
    Upstream { new_len_delta: (usize, usize) },
    /// Disk differs from the recorded hash: the user edited this file.
    UserModified { old: Vec<u8> },
    /// Recorded file is gone from disk; will be restored.
    Restore,
    /// New file introduced by the new version.
    New,
}

/// The number of newline bytes in `data`.
pub open spec fn newline_count(data: Seq<u8>) -> nat
    decreases data.len(),
{
    if data.len() == 0 {
        0
    } else {
        newline_count(data.drop_last()) + if data.last() == 10 { 1nat } else { 0nat }
    }
}

/// Some recorded file of `installed` is `dest`.
pub open spec fn is_recorded_file(installed: InstalledComponent, dest: Seq<char>) -> bool {
    exists|i: int| 0 <= i < installed.files@.len() && (#[trigger] installed.files@[i])@ == dest
}

/// The number of newline bytes in `data`.
fn count_newlines(data: &[u8]) -> (n: usize)
    ensures
        n == newline_count(data@),
{
    let mut n: usize = 0;
    let mut i: usize = 0;
    while i < data.len()
        invariant
            i <= data@.len(),
            n == newline_count(data@.take(i as int)),
            n <= i,
        decreases data@.len() - i,
    {
        assert(data@.take(i + 1).drop_last() =~= data@.take(i as int));
        if data[i] == 10 {
            n = n + 1;
        }
        i = i + 1;
    }
    assert(data@.take(data@.len() as int) =~= data@);
    n
}

/// What `update` does with a file of the new version that lands at
/// `dest` with content `incoming`, given what is on disk there (`None`
/// when it could not be read).
pub open spec fn update_action(installed: InstalledComponent, dest: Seq<char>, incoming: Seq<u8>, disk: Option<Vec<u8>>) -> FileAction {
    match disk {
        None => if is_recorded_file(installed, dest) { FileAction::Restore } else { FileAction::New },
        Some(d) => if checksum_text(d@) == checksum_text(incoming) {
            FileAction::UpToDate
        } else if recorded_checksum(installed.checksums@, dest) == Some(checksum_text(d@)) {
            FileAction::Upstream { new_len_delta: (
                (if newline_count(incoming) >= newline_count(d@) { newline_count(incoming) - newline_count(d@) } else { 0 }) as usize,
                (if newline_count(d@) >= newline_count(incoming) { newline_count(d@) - newline_count(incoming) } else { 0 }) as usize,
            ) }
        } else {
            FileAction::UserModified { old: d }
        },
    }
}

/// Classify one file of the new version. `disk` is the file's current
/// content (`None` when it could not be read).
///
/// Missing from disk: `Restore` if it was recorded at install time, else
/// `New`. Present and equal (by checksum) to the incoming content:
/// `UpToDate`. Present, different, and matching the recorded checksum:
/// `Upstream`. Anything else, including no recorded checksum, is
/// `UserModified`: when in doubt, the local file is protected.
pub fn classify_update(installed: &InstalledComponent, dest: &RelPath, incoming: &[u8], disk: Option<Vec<u8>>)
    -> (a: FileAction)
    ensures
        a == update_action(*installed, dest.view(), incoming@, disk),
{
    match disk {
        None => {
            let mut i: usize = 0;
            let mut found = false;
            while i < installed.files.len()
                invariant
                    i <= installed.files@.len(),
                    found ==> is_recorded_file(*installed, dest.view()),
                    !found ==> forall|j: int| 0 <= j < i ==> (#[trigger] installed.files@[j])@ != dest.view(),
                decreases installed.files@.len() - i,
            {
                if !found && str_eq(installed.files[i].as_str(), dest.as_str()) {
                    found = true;
                }
                i = i + 1;
            }
            if found { FileAction::Restore } else { FileAction::New }
        },
        Some(disk_bytes) => {
            let disk_sha = sha256_hex(disk_bytes.as_slice());
            let incoming_sha = sha256_hex(incoming);
            if str_eq(disk_sha.as_str(), incoming_sha.as_str()) {
                FileAction::UpToDate
            } else {
                let same = match lookup_checksum(&installed.checksums, dest.as_str()) {
                    Some(r) => str_eq(r.as_str(), disk_sha.as_str()),
                    None => false,
                };
                if same {
                    let old_lines = count_newlines(disk_bytes.as_slice());
                    let new_lines = count_newlines(incoming);
                    FileAction::Upstream {
                        new_len_delta: (new_lines.saturating_sub(old_lines), old_lines.saturating_sub(new_lines)),
                    }
                } else {
                    FileAction::UserModified { old: disk_bytes }
                }
            }
        },
    }
}

/// `update` protects exactly the files the user edited. A file on disk
/// that still has the checksum recorded at install time and differs from
/// the incoming content is an upstream change, whatever the line counts of
/// the two versions; a file counts as modified by the user only when its
/// checksum is neither the recorded one nor the incoming one; a file whose
/// content already is the incoming one is up to date. An upstream change
/// reports how many lines it adds or removes, never both.
pub proof fn law_update_protects_only_edited_files(
    installed: InstalledComponent,
    dest: Seq<char>,
    incoming: Seq<u8>,
    d: Vec<u8>,
)
    ensures
        (checksum_text(d@) != checksum_text(incoming)
            && recorded_checksum(installed.checksums@, dest) == Some(checksum_text(d@)))
            ==> update_action(installed, dest, incoming, Some(d)) is Upstream,
        update_action(installed, dest, incoming, Some(d)) is UserModified
            ==> recorded_checksum(installed.checksums@, dest) != Some(checksum_text(d@))
                && checksum_text(d@) != checksum_text(incoming),
        update_action(installed, dest, incoming, Some(d)) is UpToDate
            <==> checksum_text(d@) == checksum_text(incoming),
        update_action(installed, dest, incoming, Some(d)) matches FileAction::UserModified { old }
            ==> old@ == d@,
        update_action(installed, dest, incoming, Some(d)) matches FileAction::Upstream { new_len_delta }
            ==> ((newline_count(incoming) <= usize::MAX && newline_count(d@) <= usize::MAX)
                ==> new_len_delta.0 - new_len_delta.1 == newline_count(incoming) - newline_count(d@)
                    && (new_len_delta.0 == 0 || new_len_delta.1 == 0)),
{
}

/// A file missing from disk is put back: restored when it was installed,
/// new otherwise; never left out and never treated as edited.
pub proof fn law_update_restores_missing_files(installed: InstalledComponent, dest: Seq<char>, incoming: Seq<u8>)
    ensures
        update_action(installed, dest, incoming, None) == if is_recorded_file(installed, dest) {
            FileAction::Restore
        } else {
            FileAction::New
        },
{
}

/// The next step of `update` once every file is classified.
#[derive(Debug, Clone, Copy, PartialEq, Eq, Structural)]
pub enum UpdateStep {
    /// Nothing pending and nothing dropped: say it is up to date.
    UpToDate,
    /// `--dry-run`: show the changes, write nothing.
    DryRun,
    /// Write without asking.
    Apply,
    /// Locally modified files and no terminal to ask on: refuse.
    Refuse,
    /// Ask whether to overwrite the locally modified files; the default
    /// answer is No.
    AskOverwriteEdits,
    /// Ask whether to apply; the default answer is Yes.
    AskApply,
}

/// The step `update` takes: `pending` files need writing, `dropped` files
/// left the component, `modified` of the pending ones carry local edits.
pub open spec fn update_step_of(pending: nat, dropped: nat, modified: nat, force: bool, dry_run: bool, interactive: bool) -> UpdateStep {
    if pending == 0 && dropped == 0 {
        UpdateStep::UpToDate
    } else if dry_run {
        UpdateStep::DryRun
    } else if pending == 0 {
        UpdateStep::Apply
    } else if modified > 0 && !force {
        if interactive { UpdateStep::AskOverwriteEdits } else { UpdateStep::Refuse }
    } else if !force && interactive {
        UpdateStep::AskApply
    } else {
        UpdateStep::Apply
    }
}

/// Decide what `update` does next.
pub fn update_step(pending: usize, dropped: usize, modified: usize, force: bool, dry_run: bool, interactive: bool)
    -> (step: UpdateStep)
    ensures
        step == update_step_of(pending as nat, dropped as nat, modified as nat, force, dry_run, interactive),
{
    if pending == 0 && dropped == 0 {
        UpdateStep::UpToDate
    } else if dry_run {
        UpdateStep::DryRun
    } else if pending == 0 {
        UpdateStep::Apply
    } else if modified > 0 && !force {
        if interactive { UpdateStep::AskOverwriteEdits } else { UpdateStep::Refuse }
    } else if !force && interactive {
        UpdateStep::AskApply
    } else {
        UpdateStep::Apply
    }
}

/// Locally modified files are never overwritten without `--force` or an
/// explicit answer: without `--force`, a pending update that touches a
/// modified file either refuses or asks with the default answer No.
pub proof fn law_edits_need_force_or_consent(pending: nat, dropped: nat, modified: nat, dry_run: bool, interactive: bool)
    requires
        0 < modified <= pending,
    ensures
        update_step_of(pending, dropped, modified, false, dry_run, interactive) != UpdateStep::Apply,
        update_step_of(pending, dropped, modified, false, dry_run, interactive) != UpdateStep::AskApply,
        !dry_run ==> (update_step_of(pending, dropped, modified, false, dry_run, interactive) == if interactive {
            UpdateStep::AskOverwriteEdits
        } else {
            UpdateStep::Refuse
        }),
{
}

/// What `update` does next, case by case: nothing to write and nothing
/// dropped is up to date; a dry run only shows; `--force` applies without
/// asking; without `--force`, pending edits of the user are refused without
/// a terminal and asked about (default No) with one, and other pending
/// changes are asked about (default Yes) with a terminal and applied
/// without one; dropped files alone are just reported.
pub proof fn law_update_step_cases(pending: nat, dropped: nat, modified: nat, force: bool, dry_run: bool, interactive: bool)
    ensures
        update_step_of(pending, dropped, modified, force, dry_run, interactive) == UpdateStep::UpToDate
            <==> (pending == 0 && dropped == 0),
        update_step_of(pending, dropped, modified, force, dry_run, interactive) == UpdateStep::DryRun
            <==> ((pending > 0 || dropped > 0) && dry_run),
        ((pending > 0 || dropped > 0) && !dry_run && force)
            ==> update_step_of(pending, dropped, modified, force, dry_run, interactive) == UpdateStep::Apply,
        (pending == 0 && dropped > 0 && !dry_run)
            ==> update_step_of(pending, dropped, modified, force, dry_run, interactive) == UpdateStep::Apply,
        update_step_of(pending, dropped, modified, force, dry_run, interactive) == UpdateStep::Refuse
            <==> (pending > 0 && !dry_run && modified > 0 && !force && !interactive),
        update_step_of(pending, dropped, modified, force, dry_run, interactive) == UpdateStep::AskOverwriteEdits
            <==> (pending > 0 && !dry_run && modified > 0 && !force && interactive),
        update_step_of(pending, dropped, modified, force, dry_run, interactive) == UpdateStep::AskApply
            <==> (pending > 0 && !dry_run && modified == 0 && !force && interactive),
        (pending > 0 && !dry_run && modified == 0 && !interactive)
            ==> update_step_of(pending, dropped, modified, force, dry_run, interactive) == UpdateStep::Apply,
{
}

/// Files the new version no longer has are exactly the recorded files it
/// does not list, each kept in recorded order.
pub proof fn law_dropped_files(recorded: Seq<Seq<char>>, incoming: Seq<Seq<char>>)
    ensures
        forall|f: Seq<char>| #![trigger dropped_of(recorded, incoming).contains(f)]
            dropped_of(recorded, incoming).contains(f) <==> (recorded.contains(f) && !incoming.contains(f)),
        dropped_of(recorded, incoming).len() <= recorded.len(),
    decreases recorded.len(),
{
    if recorded.len() > 0 {
        let p = recorded.drop_last();
        law_dropped_files(p, incoming);
        let r = dropped_of(p, incoming);
        assert forall|f: Seq<char>| dropped_of(recorded, incoming).contains(f)
            <==> (recorded.contains(f) && !incoming.contains(f)) by {
            if recorded.contains(f) && !incoming.contains(f) {
                let i = choose|i: int| 0 <= i < recorded.len() && recorded[i] == f;
                if i < p.len() {
                    assert(p[i] == f);
                    assert(p.contains(f));
                    assert(r.contains(f));
                    let j = choose|j: int| 0 <= j < r.len() && r[j] == f;
                    if !incoming.contains(recorded.last()) {
                        assert(r.push(recorded.last())[j] == f);
                    }
                } else {
                    assert(r.push(recorded.last())[r.len() as int] == f);
                }
            }
            if dropped_of(recorded, incoming).contains(f) {
                let j = choose|j: int| 0 <= j < dropped_of(recorded, incoming).len() && dropped_of(recorded, incoming)[j] == f;
                if j < r.len() {
                    if !incoming.contains(recorded.last()) {
                        assert(r.push(recorded.last())[j] == r[j]);
                    }
                    assert(r[j] == f);
                    assert(r.contains(f));
                    assert(p.contains(f));
                    let i = choose|i: int| 0 <= i < p.len() && p[i] == f;
                    assert(recorded[i] == f);
                } else {
                    assert(f == recorded.last());
                    assert(recorded[recorded.len() - 1] == f);
                }
            }
        }
    }
}

/// A dry run never writes.
pub proof fn law_dry_run_writes_nothing(pending: nat, dropped: nat, modified: nat, force: bool, interactive: bool)
    ensures
        update_step_of(pending, dropped, modified, force, true, interactive) == UpdateStep::DryRun
            || update_step_of(pending, dropped, modified, force, true, interactive) == UpdateStep::UpToDate,
{
}


/// How `update` writes each file: every file that is not already up to
/// date is overwritten; up-to-date files are left alone.
pub open spec fn update_kind_of(a: FileAction) -> Option<WriteKind> {
    if a is UpToDate { None } else { Some(WriteKind::Overwrite) }
}

/// The write kind of each classified file.
pub fn update_write_kinds(actions: &Vec<FileAction>) -> (kinds: Vec<Option<WriteKind>>)
    ensures
        kinds@.len() == actions@.len(),
        forall|i: int| 0 <= i < actions@.len() ==> #[trigger] kinds@[i] == update_kind_of(actions@[i]),
{
    let mut kinds: Vec<Option<WriteKind>> = Vec::new();
    let mut i: usize = 0;
    while i < actions.len()
        invariant
            i <= actions@.len(),
            kinds@.len() == i,
            forall|j: int| 0 <= j < i ==> #[trigger] kinds@[j] == update_kind_of(actions@[j]),
        decreases actions@.len() - i,
    {
        let k = match &actions[i] {
            FileAction::UpToDate => None,
            _ => Some(WriteKind::Overwrite),
        };
        kinds.push(k);
        i = i + 1;
    }
    kinds
}

/// How many files need writing: those not already up to date.
pub open spec fn pending_count(actions: Seq<FileAction>) -> nat
    decreases actions.len(),
{
    if actions.len() == 0 {
        0
    } else {
        pending_count(actions.drop_last()) + if actions.last() is UpToDate { 0nat } else { 1nat }
    }
}

/// `update` writes every file that is not already up to date, upstream
/// changes included, each as an overwrite; only up-to-date files are
/// skipped.
pub proof fn law_update_writes_every_pending_file(a: FileAction)
    ensures
        update_kind_of(a) is None <==> a is UpToDate,
        !(a is UpToDate) ==> update_kind_of(a) == Some(WriteKind::Overwrite),
{
}

/// The number of files `update` writes.
pub open spec fn written_count(actions: Seq<FileAction>) -> nat
    decreases actions.len(),
{
    if actions.len() == 0 {
        0
    } else {
        written_count(actions.drop_last()) + if update_kind_of(actions.last()) is Some { 1nat } else { 0nat }
    }
}

/// `update` writes exactly as many files as it reports pending.
pub proof fn law_writes_match_pending(actions: Seq<FileAction>)
    ensures
        written_count(actions) == pending_count(actions),
    decreases actions.len(),
{
    if actions.len() > 0 {
        law_writes_match_pending(actions.drop_last());
    }
}

/// How many files carry local edits.
pub open spec fn modified_count(actions: Seq<FileAction>) -> nat
    decreases actions.len(),
{
    if actions.len() == 0 {
        0
    } else {
        modified_count(actions.drop_last()) + if actions.last() is UserModified { 1nat } else { 0nat }
    }
}

/// How many files are pending and how many of them carry local edits.
pub fn pending_and_modified(actions: &Vec<FileAction>) -> (res: (usize, usize))
    ensures
        res.0 == pending_count(actions@),
        res.1 == modified_count(actions@),
        res.1 <= res.0,
{
    let mut p: usize = 0;
    let mut m: usize = 0;
    let mut i: usize = 0;
    while i < actions.len()
        invariant
            i <= actions@.len(),
            p == pending_count(actions@.take(i as int)),
            m == modified_count(actions@.take(i as int)),
            m <= p <= i,
        decreases actions@.len() - i,
    {
        assert(actions@.take(i + 1).drop_last() =~= actions@.take(i as int));
        assert(actions@.take(i + 1).last() == actions@[i as int]);
        match &actions[i] {
            FileAction::UpToDate => {},
            FileAction::UserModified { .. } => {
                p = p + 1;
                m = m + 1;
            },
            _ => {
                p = p + 1;
            },
        }
        i = i + 1;
    }
    assert(actions@.take(actions@.len() as int) =~= actions@);
    (p, m)
}

/// The recorded files that the new version no longer has, in recorded
/// order.
pub open spec fn dropped_of(recorded: Seq<Seq<char>>, incoming: Seq<Seq<char>>) -> Seq<Seq<char>>
    decreases recorded.len(),
{
    if recorded.len() == 0 {
        Seq::empty()
    } else {
        let r = dropped_of(recorded.drop_last(), incoming);
        if incoming.contains(recorded.last()) { r } else { r.push(recorded.last()) }
    }
}

/// Files recorded at install time but absent from the new version: they
/// are reported, never deleted.
pub fn dropped_files(recorded: &Vec<String>, incoming: &Vec<RelPath>) -> (res: Vec<String>)
    ensures
        views(res@) == dropped_of(views(recorded@), incoming.view().map_values(|d: RelPath| d.view())),
{
    let ghost inc = incoming@.map_values(|d: RelPath| d.view());
    let mut out: Vec<String> = Vec::new();
    let mut i: usize = 0;
    while i < recorded.len()
        invariant
            inc == incoming@.map_values(|d: RelPath| d.view()),
            i <= recorded@.len(),
            views(out@) == dropped_of(views(recorded@.take(i as int)), inc),
        decreases recorded@.len() - i,
    {
        let ghost t1 = views(recorded@.take(i + 1));
        assert(t1.drop_last() =~= views(recorded@.take(i as int)));
        assert(t1.last() == recorded@[i as int]@);
        let mut found = false;
        let mut j: usize = 0;
        while j < incoming.len()
            invariant
                inc == incoming@.map_values(|d: RelPath| d.view()),
                i < recorded@.len(),
                j <= incoming@.len(),
                found == exists|m: int| 0 <= m < j && inc[m] == recorded@[i as int]@,
            decreases incoming@.len() - j,
        {
            assert(inc[j as int] == incoming@[j as int].view());
            if str_eq(incoming[j].as_str(), recorded[i].as_str()) {
                found = true;
            }
            j = j + 1;
        }
        proof {
            if found {
                let m = choose|m: int| 0 <= m < j && inc[m] == recorded@[i as int]@;
                assert(inc.contains(recorded@[i as int]@));
            } else {
                assert(!inc.contains(recorded@[i as int]@));
            }
        }
        if !found {
            let ghost before = out@;
            out.push(recorded[i].clone());
            assert(views(out@) =~= views(before).push(recorded@[i as int]@));
        }
        i = i + 1;
    }
    assert(recorded@.take(recorded@.len() as int) =~= recorded@);
    out
}

/// The version shown for an update: `v<new>` when unchanged, else
/// `<old> → <new>`.
pub fn version_line(installed: &str, incoming: &str) -> (res: String)
    ensures
        res@ == if installed@ == incoming@ { "v"@ + incoming@ } else { installed@ + " → "@ + incoming@ },
{
    let mut out = String::new();
    if str_eq(installed, incoming) {
        out.push_str("v");
        out.push_str(incoming);
    } else {
        out.push_str(installed);
        out.push_str(" → ");
        out.push_str(incoming);
    }
    out
}

/// The bytes read for a file, if it could be read.
pub open spec fn read_view(r: Option<Vec<u8>>) -> Option<Seq<u8>> {
    match r {
        Some(b) => Some(b@),
        None => None,
    }
}

/// Compare every recorded file of `installed` with its recorded hash.
/// `disk` holds, per recorded file in order, its content as read from
/// under the project root, `None` when it could not be read.
pub fn scan(installed: &InstalledComponent, disk: &Vec<Option<Vec<u8>>>) -> (res: Vec<(String, FileState)>)
    requires
        disk@.len() == installed.files@.len(),
    ensures
        res@.len() == installed.files@.len(),
        forall|i: int| 0 <= i < res@.len() ==> {
            &&& (#[trigger] res@[i]).0@ == installed.files@[i]@
            &&& res@[i].1 == file_state_of(*installed, installed.files@[i]@, path_error_of(installed.files@[i]@) is None,
                    read_view(disk@[i]))
        },
{
    let mut out: Vec<(String, FileState)> = Vec::new();
    let mut i: usize = 0;
    while i < installed.files.len()
        invariant
            disk@.len() == installed.files@.len(),
            i <= installed.files@.len(),
            out@.len() == i,
            forall|j: int| 0 <= j < i ==> {
                &&& (#[trigger] out@[j]).0@ == installed.files@[j]@
                &&& out@[j].1 == file_state_of(*installed, installed.files@[j]@, path_error_of(installed.files@[j]@) is None,
                        read_view(disk@[j]))
            },
        decreases installed.files@.len() - i,
    {
        let file = &installed.files[i];
        let st = match &disk[i] {
            Some(bytes) => file_state(installed, file.as_str(), Some(bytes.as_slice())),
            None => file_state(installed, file.as_str(), None),
        };
        out.push((file.clone(), st));
        i = i + 1;
    }
    out
}

/// What `check` found wrong with one component: how many files are not
/// clean, and whether any is modified or missing.
pub open spec fn issue_count(states: Seq<(String, FileState)>) -> nat
    decreases states.len(),
{
    if states.len() == 0 {
        0
    } else {
        issue_count(states.drop_last()) + if states.last().1 == FileState::Clean { 0nat } else { 1nat }
    }
}

/// Some file is in state `st`.
pub open spec fn has_state(states: Seq<(String, FileState)>, st: FileState) -> bool {
    exists|i: int| 0 <= i < states.len() && (#[trigger] states[i]).1 == st
}

/// The issues among one component's file states, and whether some file is
/// modified and whether some is missing.
pub fn summarize_states(states: &Vec<(String, FileState)>) -> (res: (usize, bool, bool))
    ensures
        res.0 == issue_count(states@),
        res.1 == has_state(states@, FileState::Modified),
        res.2 == has_state(states@, FileState::Missing),
{
    let mut issues: usize = 0;
    let mut modified = false;
    let mut missing = false;
    let mut i: usize = 0;
    while i < states.len()
        invariant
            i <= states@.len(),
            issues == issue_count(states@.take(i as int)),
            issues <= i,
            modified == has_state(states@.take(i as int), FileState::Modified),
            missing == has_state(states@.take(i as int), FileState::Missing),
        decreases states@.len() - i,
    {
        let ghost t = states@.take(i as int);
        let ghost t1 = states@.take(i + 1);
        assert(t1.drop_last() =~= t);
        assert(t1.last() == states@[i as int]);
        proof {
            assert forall|st: FileState| has_state(t1, st) == (has_state(t, st) || states@[i as int].1 == st) by {
                if has_state(t1, st) {
                    let k = choose|k: int| 0 <= k < t1.len() && (#[trigger] t1[k]).1 == st;
                    if k < i {
                        assert(t[k] == t1[k]);
                    }
                }
                if has_state(t, st) {
                    let k = choose|k: int| 0 <= k < t.len() && (#[trigger] t[k]).1 == st;
                    assert(t1[k] == t[k]);
                }
                assert(t1[i as int] == states@[i as int]);
            }
        }
        match states[i].1 {
            FileState::Clean => {},
            FileState::Modified => {
                issues = issues + 1;
                modified = true;
            },
            FileState::Missing => {
                issues = issues + 1;
                missing = true;
            },
            FileState::Unknown => {
                issues = issues + 1;
            },
        }
        i = i + 1;
    }
    assert(states@.take(states@.len() as int) =~= states@);
    (issues, modified, missing)
}

/// The fix `check` suggests for a component with modified files.
pub fn modified_fix(path: &str) -> (res: String)
    ensures
        res@ == "modified → olivaw update "@ + path@ + "   (shows a diff first; your edits are safe)"@,
{
    let mut out = String::new();
    out.push_str("modified → olivaw update ");
    out.push_str(path);
    out.push_str("   (shows a diff first; your edits are safe)");
    out
}

/// The sum of `counts`.
pub open spec fn total(counts: Seq<usize>) -> nat
    decreases counts.len(),
{
    if counts.len() == 0 {
        0
    } else {
        total(counts.drop_last()) + counts.last() as nat
    }
}

/// What `check` concludes: the number of issues (each file that is not
/// clean, per component, plus each declared crate missing from Cargo.toml)
/// and the exit code: 0 when there is none, 1 otherwise. (Code 2, could not
/// run, is for a failure before any of this.)
pub fn check_verdict(file_issues: &Vec<usize>, missing_crates: usize) -> (res: (usize, u8))
    requires
        total(file_issues@) + missing_crates <= usize::MAX,
    ensures
        res.0 == total(file_issues@) + missing_crates,
        res.1 == if res.0 == 0 { 0u8 } else { 1u8 },
{
    let mut sum: usize = 0;
    let mut i: usize = 0;
    while i < file_issues.len()
        invariant
            i <= file_issues@.len(),
            sum == total(file_issues@.take(i as int)),
            total(file_issues@) + missing_crates <= usize::MAX,
        decreases file_issues@.len() - i,
    {
        assert(file_issues@.take(i + 1).drop_last() =~= file_issues@.take(i as int));
        proof { lemma_total_prefix(file_issues@, i + 1); }
        sum = sum + file_issues[i];
        i = i + 1;
    }
    assert(file_issues@.take(file_issues@.len() as int) =~= file_issues@);
    let issues = sum + missing_crates;
    (issues, if issues == 0 { 0 } else { 1 })
}

/// A prefix sums to no more than the whole.
proof fn lemma_total_prefix(counts: Seq<usize>, n: int)
    requires
        0 <= n <= counts.len(),
    ensures
        total(counts.take(n)) <= total(counts),
    decreases counts.len() - n,
{
    if n < counts.len() {
        lemma_total_prefix(counts, n + 1);
        assert(counts.take(n + 1).drop_last() =~= counts.take(n));
    } else {
        assert(counts.take(n) =~= counts);
    }
}

/// The fix `check` suggests for a component with missing files.
pub fn missing_fix(path: &str) -> (res: String)
    ensures
        res@ == "missing  → olivaw add "@ + path@ + " --force"@,
{
    let mut out = String::new();
    out.push_str("missing  → olivaw add ");
    out.push_str(path);
    out.push_str(" --force");
    out
}

/// Classify every file of the new version: file `i` lands at `dests[i]`,
/// arrives as `incoming[i]`, and `disk[i]` is what is there now (`None`
/// when it could not be read). Each action is `classify_update`'s.
pub fn classify_all(
    installed: &InstalledComponent,
    dests: &Vec<RelPath>,
    incoming: &Vec<Vec<u8>>,
    disk: Vec<Option<Vec<u8>>>,
) -> (actions: Vec<FileAction>)
    requires
        incoming@.len() == dests@.len(),
        disk@.len() == dests@.len(),
    ensures
        actions@.len() == dests@.len(),
        forall|i: int| 0 <= i < dests@.len()
            ==> #[trigger] actions@[i] == update_action(*installed, dests@[i].view(), incoming@[i]@, disk@[i]),
{
    let ghost d0 = disk@;
    let mut rest = disk;
    let mut out: Vec<FileAction> = Vec::new();
    let mut i: usize = 0;
    while i < dests.len()
        invariant
            incoming@.len() == dests@.len(),
            d0.len() == dests@.len(),
            i <= dests@.len(),
            rest@ == d0.skip(i as int),
            out@.len() == i,
            forall|j: int| 0 <= j < i
                ==> #[trigger] out@[j] == update_action(*installed, dests@[j].view(), incoming@[j]@, d0[j]),
        decreases dests@.len() - i,
    {
        let here = rest.remove(0);
        assert(here == d0[i as int]);
        assert(rest@ =~= d0.skip(i + 1));
        let a = classify_update(installed, &dests[i], incoming[i].as_slice(), here);
        let ghost before = out@;
        out.push(a);
        assert(forall|j: int| 0 <= j < i ==> out@[j] == before[j]);
        i = i + 1;
    }
    out
}

/// `"s"` unless `n` is one.
pub open spec fn plural(n: nat) -> Seq<char> {
    if n == 1 { ""@ } else { "s"@ }
}

/// Why a non-interactive `update` without `--force` stops at `modified`
/// locally edited files.
pub fn overwrite_refusal(modified: usize) -> (res: String)
    ensures
        res@ == "refusing to overwrite "@ + decimal(modified as nat) + " locally modified file"@ + plural(modified as nat)
            + " non-interactively — review the diff above and re-run with --force"@,
{
    let mut out = String::new();
    out.push_str("refusing to overwrite ");
    push_decimal(&mut out, modified as u64);
    out.push_str(" locally modified file");
    if modified != 1 {
        out.push_str("s");
    }
    proof { reveal_strlit(""); }
    out.push_str(" non-interactively — review the diff above and re-run with --force");
    out
}

/// The question `update` asks before overwriting `modified` locally edited
/// files (the default answer is No).
pub fn overwrite_prompt(modified: usize) -> (res: String)
    ensures
        res@ == "  Overwrite "@ + decimal(modified as nat) + " locally modified file"@ + plural(modified as nat) + "?"@,
{
    let mut out = String::new();
    out.push_str("  Overwrite ");
    push_decimal(&mut out, modified as u64);
    out.push_str(" locally modified file");
    if modified != 1 {
        out.push_str("s");
    }
    proof { reveal_strlit(""); }
    out.push_str("?");
    out
}

/// Every edited file is pending, and an edited file makes the count of
/// edited files positive.
proof fn lemma_modified_counts(actions: Seq<FileAction>, i: int)
    requires
        0 <= i < actions.len(),
        actions[i] is UserModified,
    ensures
        0 < modified_count(actions) <= pending_count(actions),
    decreases actions.len(),
{
    lemma_modified_le_pending(actions);
    if i < actions.len() - 1 {
        assert(actions.drop_last()[i] == actions[i]);
        lemma_modified_counts(actions.drop_last(), i);
    }
}

proof fn lemma_modified_le_pending(actions: Seq<FileAction>)
    ensures
        modified_count(actions) <= pending_count(actions),
    decreases actions.len(),
{
    if actions.len() > 0 {
        lemma_modified_le_pending(actions.drop_last());
    }
}

/// A file whose content on disk matches neither the new version nor the
/// checksum recorded at install time is the user's edit: without
/// `--force`, an update that classifies it never writes without asking,
/// and when it asks about edits the default answer is No.
pub proof fn law_edited_file_blocks_silent_update(
    installed: InstalledComponent,
    dests: Seq<RelPath>,
    incoming: Seq<Vec<u8>>,
    disk: Seq<Option<Vec<u8>>>,
    actions: Seq<FileAction>,
    i: int,
    dropped: nat,
    dry_run: bool,
    interactive: bool,
)
    requires
        incoming.len() == dests.len(),
        disk.len() == dests.len(),
        actions.len() == dests.len(),
        forall|j: int| 0 <= j < dests.len()
            ==> #[trigger] actions[j] == update_action(installed, dests[j].view(), incoming[j]@, disk[j]),
        0 <= i < dests.len(),
        disk[i] matches Some(d) && checksum_text(d@) != checksum_text(incoming[i]@)
            && recorded_checksum(installed.checksums@, dests[i].view()) != Some(checksum_text(d@)),
    ensures
        actions[i] is UserModified,
        update_step_of(pending_count(actions), dropped, modified_count(actions), false, dry_run, interactive)
            != UpdateStep::Apply,
        update_step_of(pending_count(actions), dropped, modified_count(actions), false, dry_run, interactive)
            != UpdateStep::AskApply,
{
    assert(actions[i] == update_action(installed, dests[i].view(), incoming[i]@, disk[i]));
    lemma_modified_counts(actions, i);
    law_edits_need_force_or_consent(pending_count(actions), dropped, modified_count(actions), dry_run, interactive);
}
} // verus!
