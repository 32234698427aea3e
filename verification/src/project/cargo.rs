//! Append-only edits to the *user's* Cargo.toml via `toml_edit`, which
//! preserves formatting and comments. Rules:
//!
//! - A dependency that already exists, in any form (string, inline table,
//!   `workspace = true`, dotted table), is never touched; it is reported
//!   with its existing requirement.
//! - Missing dependencies are appended to `[dependencies]` (creating the
//!   table at the end of the file if absent).
//! - No sorting, no reformatting; a consistently CRLF file stays CRLF, and
//!   the new text is only handed back when it differs from the file as it was.
use vstd::prelude::*;

use crate::plan::CargoDep;
use crate::text::{chars_of, str_eq, trim_str, trimmed};

verus! {

/// `toml_edit::DocumentMut`, carried through as an opaque value.
#[verifier::external_type_specification]
#[verifier::external_body]
pub struct ExDocumentMut(toml_edit::DocumentMut);

/// `toml_edit::TomlError`, carried through as an opaque value.
#[verifier::external_type_specification]
#[verifier::external_body]
pub struct ExTomlError(toml_edit::TomlError);

/// What `toml_edit` makes of `text` as far as dependencies go: `None` when
/// it is not a TOML document; otherwise the `[dependencies]` entries of the
/// parsed document, whether it has a `dependencies` entry at all, and
/// whether that entry is a table.
pub uninterp spec fn parsed_dependencies(text: Seq<char>) -> Option<(Map<Seq<char>, Seq<char>>, bool, bool)>;

/// Whether `toml_edit` accepts `text` as a TOML document.
pub open spec fn is_toml(text: Seq<char>) -> bool {
    parsed_dependencies(text) is Some
}

/// `<toml_edit::DocumentMut as FromStr>::from_str`: parse `text` as a
/// format-preserving TOML document. Parsing depends on the text alone, so
/// its outcome is named (`parsed_dependencies`): whether it succeeds, and
/// the dependency entries, presence and table-ness of the document; the
/// rest of the document is opaque here.
#[verifier::external_body]
fn parse_document(text: &str) -> (res: Result<toml_edit::DocumentMut, toml_edit::TomlError>)
    ensures
        res is Ok <==> parsed_dependencies(text@) is Some,
        res matches Ok(d) ==> parsed_dependencies(text@) == Some((dependency_entries(d), has_dependencies(d), dependencies_is_table(d))),
{
    text.parse::<toml_edit::DocumentMut>()
}

/// The entries of the table-like `dependencies` item of `doc`
/// (`doc.get("dependencies")?.as_table_like()`), each key with its item as
/// `toml_edit` renders it; empty when `doc` has no such item.
pub uninterp spec fn dependency_entries(doc: toml_edit::DocumentMut) -> Map<Seq<char>, Seq<char>>;

/// How `[dependencies].<name>` reads in `doc` when `doc` has a table-like
/// `dependencies` entry holding `name` in any form
/// (`doc.get("dependencies")?.as_table_like()?.get(name)`, rendered by
/// `toml_edit`'s `Display`, a plain value without its table decoration):
/// the entry of `dependency_entries` at `name`.
#[verifier::external_body]
fn dependency_entry(doc: &toml_edit::DocumentMut, name: &str) -> (res: Option<String>)
    ensures
        res is Some <==> dependency_entries(*doc).contains_key(name@),
        res matches Some(e) ==> e@ == dependency_entries(*doc)[name@],
{
    let item = doc.get("dependencies")?.as_table_like()?.get(name)?;
    Some(match item {
        toml_edit::Item::Value(v) => v.to_string(),
        _ => item.to_string(),
    })
}

/// Whether `doc` has an entry `dependencies` (of any kind).
pub uninterp spec fn has_dependencies(doc: toml_edit::DocumentMut) -> bool;

/// Whether the `dependencies` entry of `doc` is a table (`[dependencies]`
/// or dotted keys), as opposed to an inline table or another value.
pub uninterp spec fn dependencies_is_table(doc: toml_edit::DocumentMut) -> bool;

/// `doc.get("dependencies").is_some()` (`toml_edit::Table::get`, which
/// skips empty slots). With no such entry, `doc` declares no dependencies.
#[verifier::external_body]
fn has_dependencies_entry(doc: &toml_edit::DocumentMut) -> (res: bool)
    ensures
        res == has_dependencies(*doc),
        !res ==> dependency_entries(*doc).dom() == Set::<Seq<char>>::empty(),
{
    doc.get("dependencies").is_some()
}

/// `doc["dependencies"] = Item::Table(t)` for a new explicit empty table
/// `t` (`Table::new` and `set_implicit(false)`): the document gains an
/// empty `[dependencies]` table.
#[verifier::external_body]
fn add_dependencies_table(doc: &mut toml_edit::DocumentMut)
    requires
        !has_dependencies(*old(doc)),
    ensures
        has_dependencies(*final(doc)),
        dependencies_is_table(*final(doc)),
        dependency_entries(*final(doc)).dom() == Set::<Seq<char>>::empty(),
{
    let mut table = toml_edit::Table::new();
    table.set_implicit(false);
    doc["dependencies"] = toml_edit::Item::Table(table);
}

/// The text `toml_edit` renders a new string value `req` as
/// (`toml_edit::value(req)`, displayed with no decoration): the TOML
/// string holding `req`.
pub uninterp spec fn toml_string_text(req: Seq<char>) -> Seq<char>;

/// `doc["dependencies"].as_table_mut()`, and on a table
/// `table[name] = toml_edit::value(req)`: `true` when the entry is a table
/// and `name` was set in it to the string `req` (so its entry reads as
/// `toml_string_text(req)`), the other keys keeping their entries; `false`,
/// with nothing changed, otherwise.
#[verifier::external_body]
fn insert_dependency(doc: &mut toml_edit::DocumentMut, name: &str, req: &str) -> (res: bool)
    requires
        has_dependencies(*old(doc)),
    ensures
        res == dependencies_is_table(*old(doc)),
        res ==> has_dependencies(*final(doc)) && dependencies_is_table(*final(doc)),
        res ==> dependency_entries(*final(doc)).dom() == dependency_entries(*old(doc)).dom().insert(name@),
        res ==> dependency_entries(*final(doc))[name@] == toml_string_text(req@),
        res ==> forall|k: Seq<char>| k != name@ && #[trigger] dependency_entries(*old(doc)).contains_key(k)
            ==> dependency_entries(*final(doc))[k] == dependency_entries(*old(doc))[k],
        !res ==> *final(doc) == *old(doc),
{
    match doc["dependencies"].as_table_mut() {
        Some(table) => {
            table[name] = toml_edit::value(req.to_string());
            true
        },
        None => false,
    }
}

/// `doc`'s `dependencies` entry is there but is no table, so nothing can
/// be added to it.
pub open spec fn dependencies_blocked(doc: toml_edit::DocumentMut) -> bool {
    has_dependencies(doc) && !dependencies_is_table(doc)
}

/// Set `[dependencies].<name> = "<req>"` in `doc`, first appending an
/// explicit empty `[dependencies]` table when the document has none.
/// Fails, changing nothing, when `dependencies` is there but no table.
fn set_dependency(doc: &mut toml_edit::DocumentMut, name: &str, req: &str) -> (res: Result<(), CargoEditError>)
    ensures
        res is Err <==> dependencies_blocked(*old(doc)),
        res is Err ==> *final(doc) == *old(doc) && res matches Err(CargoEditError::DependenciesNotATable),
        res is Ok ==> has_dependencies(*final(doc)) && dependencies_is_table(*final(doc)),
        res is Ok ==> dependency_entries(*final(doc)).dom() == dependency_entries(*old(doc)).dom().insert(name@),
        res is Ok ==> dependency_entries(*final(doc))[name@] == toml_string_text(req@),
        res is Ok ==> forall|k: Seq<char>| k != name@ && #[trigger] dependency_entries(*old(doc)).contains_key(k)
            ==> dependency_entries(*final(doc))[k] == dependency_entries(*old(doc))[k],
{
    if !has_dependencies_entry(doc) {
        add_dependencies_table(doc);
        assert(dependency_entries(*old(doc)) =~= dependency_entries(*doc));
    }
    if insert_dependency(doc, name, req) {
        Ok(())
    } else {
        Err(CargoEditError::DependenciesNotATable)
    }
}

/// The text `toml_edit` renders `doc` as (`Display`, LF line ends).
pub uninterp spec fn document_text(doc: toml_edit::DocumentMut) -> Seq<char>;

/// `doc.to_string()`: the document rendered by `toml_edit` (named
/// `document_text`; the rendering itself is not restated).
#[verifier::external_body]
fn render_document(doc: &toml_edit::DocumentMut) -> (res: String)
    ensures
        res@ == document_text(*doc),
{
    doc.to_string()
}

/// What an edit of Cargo.toml did with each requested dependency.
pub struct CargoEditOutcome {
    pub added: Vec<CargoDep>,
    /// (dep, existing requirement as rendered): left untouched.
    pub skipped: Vec<(CargoDep, String)>,
}

/// Why Cargo.toml could not be edited.
#[derive(Debug)]
pub enum CargoEditError {
    /// The file is not valid TOML.
    NotToml,
    /// `dependencies` exists but is not a table.
    DependenciesNotATable,
}

impl CargoEditError {
    /// The explanation shown to the user; `path` is the file's path.
    pub fn message(&self, path: &str) -> (res: String)
        ensures
            res@ == match self {
                CargoEditError::NotToml => path@ + " is not valid TOML — fix it before adding components"@,
                CargoEditError::DependenciesNotATable => "Cargo.toml [dependencies] is not a table"@,
            },
    {
        let mut out = String::new();
        match self {
            CargoEditError::NotToml => {
                out.push_str(path);
                out.push_str(" is not valid TOML — fix it before adding components");
            },
            CargoEditError::DependenciesNotATable => {
                out.push_str("Cargo.toml [dependencies] is not a table");
            },
        }
        out
    }
}

/// `s` uses CRLF line ends throughout: it has at least one `\r\n`, and
/// every `\n` follows a `\r` (so removing every `\r\n` leaves no `\n`).
pub open spec fn is_consistently_crlf(s: Seq<char>) -> bool {
    &&& exists|i: int| 0 <= i < s.len() - 1 && s[i] == '\r' && #[trigger] s[i + 1] == '\n'
    &&& forall|i: int| 0 <= i < s.len() && #[trigger] s[i] == '\n' ==> i > 0 && s[i - 1] == '\r'
}

/// `s` with every `\n` turned into `\r\n`.
pub open spec fn lf_to_crlf(s: Seq<char>) -> Seq<char>
    decreases s.len(),
{
    if s.len() == 0 {
        s
    } else {
        lf_to_crlf(s.drop_last()) + if s.last() == '\n' { seq!['\r', '\n'] } else { seq![s.last()] }
    }
}

/// Whether `s` uses CRLF line ends throughout.
pub fn consistently_crlf(s: &str) -> (res: bool)
    ensures
        res == is_consistently_crlf(s@),
{
    let cs = chars_of(s);
    let mut any = false;
    let mut i: usize = 0;
    while i < cs.len()
        invariant
            cs@ == s@,
            i <= cs@.len(),
            any <==> exists|j: int| 0 <= j < i && j + 1 < cs@.len() && cs@[j] == '\r' && #[trigger] cs@[j + 1] == '\n',
            forall|j: int| 0 <= j < i && #[trigger] cs@[j] == '\n' ==> j > 0 && cs@[j - 1] == '\r',
        decreases cs@.len() - i,
    {
        if cs[i] == '\n' && (i == 0 || cs[i - 1] != '\r') {
            return false;
        }
        if cs[i] == '\r' && i + 1 < cs.len() && cs[i + 1] == '\n' {
            any = true;
        }
        i = i + 1;
    }
    any
}

/// `s` with every `\n` turned into `\r\n`.
pub fn to_crlf(s: &str) -> (res: String)
    ensures
        res@ == lf_to_crlf(s@),
{
    let cs = chars_of(s);
    let mut out = String::new();
    let mut i: usize = 0;
    while i < cs.len()
        invariant
            cs@ == s@,
            i <= cs@.len(),
            out@ == lf_to_crlf(cs@.take(i as int)),
        decreases cs@.len() - i,
    {
        assert(cs@.take(i + 1).drop_last() =~= cs@.take(i as int));
        if cs[i] == '\n' {
            out.push('\r');
            out.push('\n');
        } else {
            out.push(cs[i]);
        }
        proof {
            assert(out@ =~= lf_to_crlf(cs@.take(i + 1)));
        }
        i = i + 1;
    }
    assert(cs@.take(cs@.len() as int) =~= s@);
    out
}

/// The text to write after rendering: the rendered document, turned back
/// to CRLF when the file was consistently CRLF before the edit.
pub open spec fn adjusted_text(before: Seq<char>, rendered: Seq<char>) -> Seq<char> {
    if is_consistently_crlf(before) { lf_to_crlf(rendered) } else { rendered }
}

/// `new_text` is what to write for a rendering `rendered` of `before`:
/// the adjusted text when it differs from `before`, nothing otherwise.
pub open spec fn written_text(before: Seq<char>, rendered: Seq<char>, new_text: Option<String>) -> bool {
    let text = adjusted_text(before, rendered);
    match new_text {
        Some(t) => t@ == text && text != before,
        None => text == before,
    }
}

/// The dependencies of the skipped entries, in order.
pub open spec fn skipped_deps(s: Seq<(CargoDep, String)>) -> Seq<CargoDep> {
    s.map_values(|p: (CargoDep, String)| p.0)
}

/// Whether dependency `i` of `deps` gets added to a document whose
/// `[dependencies]` entries are `existing`: its name is not declared there
/// and no earlier dependency of `deps` has its name.
pub open spec fn is_added(deps: Seq<CargoDep>, existing: Map<Seq<char>, Seq<char>>, i: int) -> bool {
    &&& !existing.contains_key(deps[i].name@)
    &&& forall|j: int| 0 <= j < i ==> (#[trigger] deps[j]).name@ != deps[i].name@
}

/// The first `n` dependencies that get added, in order.
pub open spec fn added_of(deps: Seq<CargoDep>, existing: Map<Seq<char>, Seq<char>>, n: nat) -> Seq<CargoDep>
    decreases n,
{
    if n == 0 {
        Seq::empty()
    } else {
        let r = added_of(deps, existing, (n - 1) as nat);
        if is_added(deps, existing, n - 1) { r.push(deps[n - 1]) } else { r }
    }
}

/// The first `n` dependencies that are found already declared, in order.
pub open spec fn found_of(deps: Seq<CargoDep>, existing: Map<Seq<char>, Seq<char>>, n: nat) -> Seq<CargoDep>
    decreases n,
{
    if n == 0 {
        Seq::empty()
    } else {
        let r = found_of(deps, existing, (n - 1) as nat);
        if is_added(deps, existing, n - 1) { r } else { r.push(deps[n - 1]) }
    }
}

/// The names of the first `n` dependencies.
pub open spec fn dep_names(deps: Seq<CargoDep>, n: nat) -> Set<Seq<char>> {
    Set::new(|k: Seq<char>| exists|j: int| 0 <= j < n && (#[trigger] deps[j]).name@ == k)
}

/// What an edit of a document whose `[dependencies]` entries were
/// `existing` did with `deps`: the ones to add were added, the others
/// found, in order; each found one declared before the edit is reported
/// with its entry as it read, trimmed.
pub open spec fn is_edit_outcome(deps: Seq<CargoDep>, existing: Map<Seq<char>, Seq<char>>, outcome: CargoEditOutcome) -> bool {
    &&& outcome.added@ == added_of(deps, existing, deps.len())
    &&& skipped_deps(outcome.skipped@) == found_of(deps, existing, deps.len())
    &&& forall|k: int| 0 <= k < outcome.skipped@.len() && existing.contains_key((#[trigger] outcome.skipped@[k]).0.name@)
            ==> outcome.skipped@[k].1@ == trimmed(existing[outcome.skipped@[k].0.name@])
}

/// Declare in `doc` every dependency of `deps` it lacks, in order, leaving
/// every declared one untouched. Fails when `dependencies` is there but is
/// not a table.
pub fn edit_dependencies(doc: &mut toml_edit::DocumentMut, deps: &[CargoDep]) -> (res: Result<CargoEditOutcome, CargoEditError>)
    ensures
        res matches Ok(outcome) ==> is_edit_outcome(deps@, dependency_entries(*old(doc)), outcome),
        res matches Ok(_) ==> dependency_entries(*final(doc)).dom()
            == dependency_entries(*old(doc)).dom().union(dep_names(deps@, deps@.len())),
        res matches Ok(_) ==> forall|k: Seq<char>| #[trigger] dependency_entries(*old(doc)).contains_key(k)
            ==> dependency_entries(*final(doc))[k] == dependency_entries(*old(doc))[k],
        res matches Ok(_) ==> forall|j: int| 0 <= j < deps@.len() && #[trigger] is_added(deps@, dependency_entries(*old(doc)), j)
            ==> dependency_entries(*final(doc))[deps@[j].name@] == toml_string_text(deps@[j].req@),
        res is Err <==> dependencies_blocked(*old(doc)) && exists|i: int| 0 <= i < deps@.len() && #[trigger] is_added(deps@, dependency_entries(*old(doc)), i),
        res is Err ==> *final(doc) == *old(doc) && res matches Err(CargoEditError::DependenciesNotATable),
{
    let ghost e0 = dependency_entries(*doc);
    let ghost mut any_added = false;
    let mut added: Vec<CargoDep> = Vec::new();
    let mut skipped: Vec<(CargoDep, String)> = Vec::new();
    let mut i: usize = 0;
    assert(dep_names(deps@, 0) =~= Set::<Seq<char>>::empty());
    assert(e0.dom().union(Set::<Seq<char>>::empty()) =~= e0.dom());
    while i < deps.len()
        invariant
            e0 == dependency_entries(*old(doc)),
            i <= deps@.len(),
            any_added <==> exists|j: int| 0 <= j < i && #[trigger] is_added(deps@, e0, j),
            !any_added ==> *doc == *old(doc),
            any_added ==> !dependencies_blocked(*old(doc)) && has_dependencies(*doc) && dependencies_is_table(*doc),
            dependency_entries(*doc).dom() == e0.dom().union(dep_names(deps@, i as nat)),
            forall|k: Seq<char>| #[trigger] e0.contains_key(k) ==> dependency_entries(*doc)[k] == e0[k],
            forall|j: int| 0 <= j < i && #[trigger] is_added(deps@, e0, j)
                ==> dependency_entries(*doc)[deps@[j].name@] == toml_string_text(deps@[j].req@),
            added@ == added_of(deps@, e0, i as nat),
            skipped_deps(skipped@) == found_of(deps@, e0, i as nat),
            forall|k: int| 0 <= k < skipped@.len() && e0.contains_key((#[trigger] skipped@[k]).0.name@)
                ==> skipped@[k].1@ == trimmed(e0[skipped@[k].0.name@]),
        decreases deps@.len() - i,
    {
        let dep = &deps[i];
        let ghost name = dep.name@;
        proof {
            if !e0.contains_key(name) && !is_added(deps@, e0, i as int) {
                let j = choose|j: int| 0 <= j < i && (#[trigger] deps@[j]).name@ != deps@[i as int].name@ == false;
                assert(dep_names(deps@, i as nat).contains(name));
            }
            if is_added(deps@, e0, i as int) {
                assert(!dep_names(deps@, i as nat).contains(name));
            }
        }
        match dependency_entry(&*doc, dep.name.as_str()) {
            Some(rendered) => {
                assert(!is_added(deps@, e0, i as int));
                let existing = trim_str(rendered.as_str());
                let ghost before = skipped@;
                skipped.push((dep.clone(), existing));
                assert(skipped_deps(skipped@) =~= skipped_deps(before).push(deps@[i as int]));
            },
            None => {
                assert(is_added(deps@, e0, i as int));
                let ghost d_before = dependency_entries(*doc);
                match set_dependency(doc, dep.name.as_str(), dep.req.as_str()) {
                    Ok(()) => {},
                    Err(e) => {
                        assert(!any_added);
                        return Err(e);
                    },
                }
                proof { any_added = true; }
                assert forall|k: Seq<char>| #[trigger] e0.contains_key(k) implies dependency_entries(*doc)[k] == e0[k] by {
                    assert(d_before.contains_key(k));
                }
                assert forall|j: int| 0 <= j < i + 1 && #[trigger] is_added(deps@, e0, j)
                    implies dependency_entries(*doc)[deps@[j].name@] == toml_string_text(deps@[j].req@) by {
                    if j < i {
                        assert(deps@[j].name@ != deps@[i as int].name@);
                        assert(dep_names(deps@, i as nat).contains(deps@[j].name@));
                        assert(d_before.contains_key(deps@[j].name@));
                    }
                }
                added.push(dep.clone());
            },
        }
        proof {
            assert(dep_names(deps@, (i + 1) as nat) =~= dep_names(deps@, i as nat).insert(name));
        }
        i = i + 1;
    }
    proof {
        if dependencies_blocked(*old(doc)) {
            assert(!any_added);
        }
    }
    Ok(CargoEditOutcome { added, skipped })
}

/// Parse `before` (the user's Cargo.toml), append every dependency of
/// `deps` that the file does not already declare, and hand back what was
/// done with each, plus the new text when it differs from `before`.
///
/// Each dependency is added when neither the file nor an earlier one of
/// `deps` declares its name, and found otherwise, in the order given; one
/// the file declared is reported with its entry as the file had it,
/// trimmed. The new text is `toml_edit`'s rendering of the edited
/// document, whose dependency entries are exactly the file's, unchanged,
/// plus each added name set to its requirement as a TOML string
/// (`toml_string_text`); it is turned to CRLF when `before` is consistently
/// CRLF, and handed back only when it differs from `before`.
pub fn add_missing_deps(before: &str, deps: &[CargoDep]) -> (res: Result<(CargoEditOutcome, Option<String>), CargoEditError>)
    ensures
        res matches Err(CargoEditError::NotToml) <==> parsed_dependencies(before@) is None,
        res matches Err(CargoEditError::DependenciesNotATable) <==> (parsed_dependencies(before@) matches Some(p)
            && p.1 && !p.2 && exists|i: int| 0 <= i < deps@.len() && #[trigger] is_added(deps@, p.0, i)),
        res matches Ok(r) ==> (parsed_dependencies(before@) matches Some(p) && is_edit_outcome(deps@, p.0, r.0)),
        res matches Ok(r) ==> (parsed_dependencies(before@) matches Some(p) && exists|d: toml_edit::DocumentMut| {
            &&& dependency_entries(d).dom() == p.0.dom().union(dep_names(deps@, deps@.len()))
            &&& forall|k: Seq<char>| #[trigger] p.0.contains_key(k) ==> dependency_entries(d)[k] == p.0[k]
            &&& forall|j: int| 0 <= j < deps@.len() && #[trigger] is_added(deps@, p.0, j)
                    ==> dependency_entries(d)[deps@[j].name@] == toml_string_text(deps@[j].req@)
            &&& #[trigger] written_text(before@, document_text(d), r.1)
        }),
{
    let mut doc = match parse_document(before) {
        Ok(d) => d,
        Err(_) => {
            return Err(CargoEditError::NotToml);
        },
    };
    let ghost e0 = dependency_entries(doc);
    let ghost d0 = doc;
    let outcome = match edit_dependencies(&mut doc, deps) {
        Ok(o) => o,
        Err(e) => {
            proof {
                let p = parsed_dependencies(before@)->Some_0;
                assert(p.0 == e0 && p.1 == has_dependencies(d0) && p.2 == dependencies_is_table(d0));
                let i = choose|i: int| 0 <= i < deps@.len() && #[trigger] is_added(deps@, e0, i);
                assert(is_added(deps@, p.0, i));
            }
            return Err(e);
        },
    };
    assert(is_edit_outcome(deps@, e0, outcome));
    let rendered = render_document(&doc);
    let ghost rendered_view = rendered@;
    let updated = if consistently_crlf(before) { to_crlf(rendered.as_str()) } else { rendered };
    let changed = !str_eq(updated.as_str(), before);
    let new_text = if changed { Some(updated) } else { None };
    assert(written_text(before@, rendered_view, new_text));
    let res = (outcome, new_text);
    let out: Result<(CargoEditOutcome, Option<String>), CargoEditError> = Ok(res);
    assert(is_edit_outcome(deps@, e0, out->Ok_0.0));
    assert(written_text(before@, rendered_view, out->Ok_0.1));
    assert(rendered_view == document_text(doc));
    out
}


/// The first `n` of `deps` (name, requirement) whose name `existing` lacks,
/// in order.
pub open spec fn undeclared_of(deps: Seq<(String, String)>, existing: Map<Seq<char>, Seq<char>>, n: nat) -> Seq<(String, String)>
    decreases n,
{
    if n == 0 {
        Seq::empty()
    } else {
        let r = undeclared_of(deps, existing, (n - 1) as nat);
        if existing.contains_key(deps[n - 1].0@) { r } else { r.push(deps[n - 1]) }
    }
}

/// The crates of `deps` (name, requirement) that `doc` does not declare
/// under `[dependencies]` in any form, in order.
pub fn undeclared_in(doc: &toml_edit::DocumentMut, deps: &Vec<(String, String)>) -> (res: Vec<(String, String)>)
    ensures
        res@ == undeclared_of(deps@, dependency_entries(*doc), deps@.len()),
{
    let mut out: Vec<(String, String)> = Vec::new();
    let mut i: usize = 0;
    while i < deps.len()
        invariant
            i <= deps@.len(),
            out@ == undeclared_of(deps@, dependency_entries(*doc), i as nat),
        decreases deps@.len() - i,
    {
        if dependency_entry(doc, deps[i].0.as_str()).is_none() {
            out.push((deps[i].0.clone(), deps[i].1.clone()));
        }
        i = i + 1;
    }
    out
}

/// The crates of `deps` that the Cargo.toml text `text` does not declare,
/// or `None` when it is not TOML.
pub fn undeclared_deps(text: &str, deps: &Vec<(String, String)>) -> (res: Option<Vec<(String, String)>>)
    ensures
        res is Some <==> parsed_dependencies(text@) is Some,
        res matches Some(v) ==> v@ == undeclared_of(deps@, parsed_dependencies(text@)->Some_0.0, deps@.len()),
{
    match parse_document(text) {
        Ok(doc) => {
            let v = undeclared_in(&doc, deps);
            let out: Option<Vec<(String, String)>> = Some(v);
            assert(undeclared_of(deps@, dependency_entries(doc), deps@.len()) == out->Some_0@);
            out
        },
        Err(_) => None,
    }
}
} // verus!
