//! `olivaw.toml` — the project manifest recording what is installed and the
//! sha256 of every vendored file at install time.
use vstd::prelude::*;

use crate::registry::{keys_ascending, lemma_lex_transitive, lex_less, ComponentId};
use crate::registry::{insert_keyed, keyed_in_order, last_record};
use crate::text::str_eq;
use crate::text::{padded, pow10, push_padded, lemma_decimal_len_bound};

verus! {

/// `[project]` of `olivaw.toml`.
#[derive(Debug)]
pub struct ProjectMeta {
    pub name: String,
    pub target: String,
    pub olivaw_version: String,
}

/// One installed component's record.
#[derive(Debug)]
pub struct InstalledComponent {
    pub version: String,
    /// RFC 3339 UTC timestamp.
    pub installed_at: String,
    /// Project-relative paths, in install order.
    pub files: Vec<String>,
    /// file and `"sha256:<hex>"` of the vendored content as first written, in key
    /// order, each file once (what `plan_component` records keeps its files
    /// ascending). A differing disk hash means the user edited the file, and
    /// it must never be overwritten silently.
    pub checksums: Vec<(String, String)>,
}

/// The whole `olivaw.toml`. `components` is keyed by component path, e.g.
/// `"sensors/mpu6050"`, held in key order with each key once, as the file's
/// table holds them.
#[derive(Debug)]
pub struct ProjectManifest {
    pub(crate) project: ProjectMeta,
    pub(crate) components: Vec<(String, InstalledComponent)>,
}

/// Some record of `installed` is keyed `p`.
pub open spec fn is_installed(installed: Seq<(String, InstalledComponent)>, p: Seq<char>) -> bool {
    exists|i: int| 0 <= i < installed.len() && (#[trigger] installed[i]).0@ == p
}

/// Whether some record of `installed` is keyed `key`.
pub fn contains_key(installed: &Vec<(String, InstalledComponent)>, key: &str) -> (res: bool)
    ensures
        res == is_installed(installed@, key@),
{
    let mut i: usize = 0;
    while i < installed.len()
        invariant
            i <= installed@.len(),
            forall|j: int| 0 <= j < i ==> (#[trigger] installed@[j]).0@ != key@,
        decreases installed@.len() - i,
    {
        if str_eq(installed[i].0.as_str(), key) {
            return true;
        }
        i = i + 1;
    }
    false
}

/// The version of this tool, recorded in every manifest it creates.
pub const OLIVAW_VERSION: &'static str = "0.1.0";

impl ProjectManifest {
    /// The records' keys ascend, each once.
    #[verifier::type_invariant]
    spec fn keys_in_order(self) -> bool {
        keys_ascending(record_keys(self.components@))
    }

    /// The installed records, in key order.
    pub closed spec fn records(&self) -> Seq<(String, InstalledComponent)> {
        self.components@
    }

    /// `[project]`.
    pub closed spec fn meta(&self) -> ProjectMeta {
        self.project
    }

    /// The manifest read from `olivaw.toml`: its `[project]` and its
    /// `(component path, record)` pairs. A path given twice keeps the record
    /// given last, as a table read into a map does; the records are held in
    /// key order, each path once.
    pub fn from_parts(project: ProjectMeta, records: Vec<(String, InstalledComponent)>) -> (m: ProjectManifest)
        ensures
            m.meta() == project,
            keys_ascending(record_keys(m.records())),
            forall|p: Seq<char>| #[trigger] record_of(m.records(), p) == last_record(records@, p),
    {
        let components = keyed_in_order(records);
        ProjectManifest { project, components }
    }

    /// `[project]`.
    pub fn project(&self) -> (res: &ProjectMeta)
        ensures
            *res == self.meta(),
    {
        &self.project
    }

    /// The installed records, in key order.
    pub fn components(&self) -> (res: &Vec<(String, InstalledComponent)>)
        ensures
            res@ == self.records(),
            keys_ascending(record_keys(res@)),
    {
        proof { use_type_invariant(self); }
        &self.components
    }

    /// A manifest for a project that predates olivaw (created by `add` on
    /// first use in a hand-made project): no components yet.
    pub fn new_for(project_name: &str, target: &str) -> (m: ProjectManifest)
        ensures
            m.meta().name@ == project_name@,
            m.meta().target@ == target@,
            m.meta().olivaw_version@ == OLIVAW_VERSION@,
            m.records().len() == 0,
    {
        ProjectManifest {
            project: ProjectMeta {
                name: project_name.to_owned(),
                target: target.to_owned(),
                olivaw_version: OLIVAW_VERSION.to_owned(),
            },
            components: Vec::new(),
        }
    }
}

/// The record keyed `p`: the first one, if any.
pub open spec fn record_of<V>(installed: Seq<(String, V)>, p: Seq<char>) -> Option<V>
    decreases installed.len(),
{
    if installed.len() == 0 {
        None
    } else if installed[0].0@ == p {
        Some(installed[0].1)
    } else {
        record_of(installed.drop_first(), p)
    }
}

/// Replacing the first record keyed `key` changes what `key` finds and
/// nothing else.
pub(crate) proof fn lemma_record_of_update<V>(s: Seq<(String, V)>, i: int, entry: (String, V), p: Seq<char>)
    requires
        0 <= i < s.len(),
        s[i].0@ == entry.0@,
        forall|j: int| 0 <= j < i ==> (#[trigger] s[j]).0@ != entry.0@,
    ensures
        record_of(s.update(i, entry), p) == if p == entry.0@ { Some(entry.1) } else { record_of(s, p) },
    decreases i,
{
    if i > 0 {
        assert(s.update(i, entry).drop_first() =~= s.drop_first().update(i - 1, entry));
        assert forall|j: int| 0 <= j < i - 1 implies (#[trigger] s.drop_first()[j]).0@ != entry.0@ by {
            assert(s.drop_first()[j] == s[j + 1]);
        }
        lemma_record_of_update(s.drop_first(), i - 1, entry, p);
        assert(s[0].0@ != entry.0@);
        assert(s.update(i, entry)[0] == s[0]);
    } else {
        assert(s.update(0, entry).drop_first() =~= s.drop_first());
        assert(s.update(0, entry)[0] == entry);
    }
}

/// The keys of the records, in order.
pub open spec fn record_keys<V>(s: Seq<(String, V)>) -> Seq<Seq<char>> {
    s.map_values(|r: (String, V)| r.0@)
}

/// Inserting a record under a key no earlier record has changes what that
/// key finds and nothing else.
pub(crate) proof fn lemma_record_of_insert<V>(s: Seq<(String, V)>, i: int, entry: (String, V), p: Seq<char>)
    requires
        0 <= i <= s.len(),
        forall|j: int| 0 <= j < i ==> (#[trigger] s[j]).0@ != entry.0@,
    ensures
        record_of(s.insert(i, entry), p) == if p == entry.0@ { Some(entry.1) } else { record_of(s, p) },
    decreases i,
{
    if i > 0 {
        assert(s.insert(i, entry).drop_first() =~= s.drop_first().insert(i - 1, entry));
        assert forall|j: int| 0 <= j < i - 1 implies (#[trigger] s.drop_first()[j]).0@ != entry.0@ by {
            assert(s.drop_first()[j] == s[j + 1]);
        }
        lemma_record_of_insert(s.drop_first(), i - 1, entry, p);
        assert(s[0].0@ != entry.0@);
        assert(s.insert(i, entry)[0] == s[0]);
    } else {
        assert(s.insert(0, entry).drop_first() =~= s);
        assert(s.insert(0, entry)[0] == entry);
    }
}

/// Inserting `k` where every earlier key sorts before it and the next one
/// after it keeps ascending keys ascending.
pub proof fn lemma_insert_keeps_ascending(keys: Seq<Seq<char>>, i: int, k: Seq<char>)
    requires
        0 <= i <= keys.len(),
        keys_ascending(keys),
        forall|j: int| 0 <= j < i ==> lex_less(#[trigger] keys[j], k),
        i < keys.len() ==> lex_less(k, keys[i]),
    ensures
        keys_ascending(keys.insert(i, k)),
{
    let n = keys.insert(i, k);
    assert forall|a: int, b: int| 0 <= a < b < n.len() implies lex_less(#[trigger] n[a], #[trigger] n[b]) by {
        if b < i {
            assert(n[a] == keys[a] && n[b] == keys[b]);
        } else if b == i {
            assert(n[a] == keys[a]);
        } else if a > i {
            assert(n[a] == keys[a - 1] && n[b] == keys[b - 1]);
        } else if a == i {
            assert(n[b] == keys[b - 1]);
            if b - 1 > i {
                assert(lex_less(keys[i], keys[b - 1]));
                lemma_lex_transitive(k, keys[i], keys[b - 1]);
            }
        } else {
            assert(n[a] == keys[a] && n[b] == keys[b - 1]);
            if b - 1 > i {
                lemma_lex_transitive(keys[a], k, keys[i]);
                assert(lex_less(keys[i], keys[b - 1]));
                lemma_lex_transitive(keys[a], keys[i], keys[b - 1]);
            } else {
                lemma_lex_transitive(keys[a], k, keys[i]);
            }
        }
    }
}

impl ProjectManifest {
    /// The record of the component at `key`, if installed.
    pub fn get(&self, key: &str) -> (res: Option<&InstalledComponent>)
        ensures
            res matches Some(r) ==> record_of(self.records(), key@) == Some(*r),
            res is None ==> record_of(self.records(), key@) is None,
    {
        let mut i: usize = 0;
        assert(self.components@.skip(0) =~= self.components@);
        while i < self.components.len()
            invariant
                i <= self.components@.len(),
                record_of(self.components@, key@) == record_of(self.components@.skip(i as int), key@),
            decreases self.components@.len() - i,
        {
            assert(self.components@.skip(i as int).drop_first() =~= self.components@.skip(i + 1));
            if str_eq(self.components[i].0.as_str(), key) {
                return Some(&self.components[i].1);
            }
            i = i + 1;
        }
        None
    }

    /// Record `rec` as the installed state of the component at `key`,
    /// replacing any earlier record of it. A new key goes before the first
    /// key that sorts after it, so keys that ascend keep ascending (each
    /// once, in key order, as in `olivaw.toml`).
    pub fn record(&mut self, key: String, rec: InstalledComponent)
        ensures
            final(self).meta() == old(self).meta(),
            forall|p: Seq<char>| #[trigger] record_of(final(self).records(), p)
                == if p == key@ { Some(rec) } else { record_of(old(self).records(), p) },
            keys_ascending(record_keys(final(self).records())),
    {
        proof { use_type_invariant(&*self); }
        let mut comps: Vec<(String, InstalledComponent)> = Vec::new();
        std::mem::swap(&mut comps, &mut self.components);
        insert_keyed(&mut comps, (key, rec));
        self.components = comps;
    }
}

/// What the records say of `p` after `updates` were recorded in order: the
/// last update of `p`, or else what `before` said.
pub open spec fn recorded_after(
    before: Seq<(String, InstalledComponent)>,
    updates: Seq<(ComponentId, InstalledComponent)>,
    p: Seq<char>,
) -> Option<InstalledComponent>
    decreases updates.len(),
{
    if updates.len() == 0 {
        record_of(before, p)
    } else if updates.last().0.path() == p {
        Some(updates.last().1)
    } else {
        recorded_after(before, updates.drop_last(), p)
    }
}

impl ProjectManifest {
    /// Record every update in order; a later update of a component
    /// replaces an earlier one.
    pub fn record_all(&mut self, updates: Vec<(ComponentId, InstalledComponent)>)
        ensures
            final(self).meta() == old(self).meta(),
            forall|p: Seq<char>| #[trigger] record_of(final(self).records(), p)
                == recorded_after(old(self).records(), updates@, p),
            keys_ascending(record_keys(final(self).records())),
    {
        proof { use_type_invariant(&*self); }
        let ghost all = updates@;
        let n = updates.len();
        assert(all.len() == n);
        let mut rest = updates;
        let mut done: usize = 0;
        while rest.len() > 0
            invariant
                self.meta() == old(self).meta(),
                done + rest@.len() == all.len(),
                all.len() <= usize::MAX,
                rest@ == all.skip(done as int),
                forall|p: Seq<char>| #[trigger] record_of(self.records(), p)
                    == recorded_after(old(self).records(), all.take(done as int), p),
                keys_ascending(record_keys(self.records())),
            decreases rest@.len(),
        {
            let (id, rec) = rest.remove(0);
            let key = id.to_string();
            let ghost mid = self.records();
            self.record(key, rec);
            proof {
                let t1 = all.take(done + 1);
                assert(t1.drop_last() =~= all.take(done as int));
                assert(t1.last() == all[done as int]);
                assert(all[done as int] == (id, rec));
                assert forall|p: Seq<char>| #[trigger] record_of(self.records(), p)
                    == recorded_after(old(self).records(), t1, p) by {
                    assert(record_of(self.records(), p) == if p == id.path() { Some(rec) } else { record_of(mid, p) });
                }
                assert(rest@ =~= all.skip(done + 1));
            }
            done = done + 1;
        }
        assert(all.take(done as int) =~= all);
    }
}

/// What a later `get` finds is what `record` stored; other components
/// are untouched.
pub proof fn law_record_then_get(before: Seq<(String, InstalledComponent)>, after: Seq<(String, InstalledComponent)>, key: Seq<char>, rec: InstalledComponent, other: Seq<char>)
    requires
        forall|p: Seq<char>| #[trigger] record_of(after, p) == if p == key { Some(rec) } else { record_of(before, p) },
        other != key,
    ensures
        record_of(after, key) == Some(rec),
        record_of(after, other) == record_of(before, other),
{
    assert(record_of(after, key) == Some(rec));
    assert(record_of(after, other) == record_of(before, other));
}

/// Civil date of a day count since 1970-01-01 (proleptic Gregorian),
/// by Howard Hinnant's days-to-civil algorithm: (year, month, day).
pub open spec fn civil_from_days(days: nat) -> (nat, nat, nat) {
    let z = days + 719_468;
    let era = z / 146_097;
    let doe = z % 146_097;
    let yoe = (doe - doe / 1460 + doe / 36_524 - doe / 146_096) / 365;
    let y = yoe + era * 400;
    let doy = doe - (365 * yoe + yoe / 4 - yoe / 100);
    let mp = (5 * doy + 2) / 153;
    let d = doy - (153 * mp + 2) / 5 + 1;
    let m = if mp < 10 { mp + 3 } else { mp - 9 };
    let y = if m <= 2 { y + 1 } else { y };
    (y as nat, m as nat, d as nat)
}

/// `secs` after the Unix epoch as RFC 3339 UTC: `YYYY-MM-DDThh:mm:ssZ`.
pub open spec fn rfc3339_text(secs: nat) -> Seq<char> {
    let (y, m, d) = civil_from_days(secs / 86_400);
    let t = secs % 86_400;
    padded(y, 4) + seq!['-'] + padded(m, 2) + seq!['-'] + padded(d, 2) + seq!['T']
        + padded(t / 3600, 2) + seq![':'] + padded((t % 3600) / 60, 2) + seq![':']
        + padded(t % 60, 2) + seq!['Z']
}

/// `std::time::SystemTime`, carried through as an opaque value.
#[verifier::external_type_specification]
#[verifier::external_body]
pub struct ExSystemTime(std::time::SystemTime);

/// `SystemTime::now`: the machine's clock. Nothing is stated of it.
#[verifier::external_body]
fn system_now() -> std::time::SystemTime {
    std::time::SystemTime::now()
}

/// `SystemTime::duration_since(UNIX_EPOCH)`, in whole seconds; `None` for a
/// time before the epoch. Nothing is stated of the value.
#[verifier::external_body]
fn secs_since_epoch(t: &std::time::SystemTime) -> Option<u64> {
    match t.duration_since(std::time::UNIX_EPOCH) {
        Ok(d) => Some(d.as_secs()),
        Err(_) => None,
    }
}

/// Now, as RFC 3339 UTC (e.g. `2026-07-20T21:30:00Z`); a clock before the
/// epoch reads as the epoch. Which instant is read is the clock's; for any
/// instant before the year 10000 the text has the RFC 3339 shape.
pub fn now_rfc3339() -> (res: String)
    ensures
        exists|secs: u64|
            #![trigger rfc3339_text(secs as nat)]
            res@ == rfc3339_text(secs as nat)
            && (secs < 253_402_300_800 ==> is_rfc3339_shape(res@)),
{
    let now = system_now();
    let secs = match secs_since_epoch(&now) {
        Some(s) => s,
        None => 0,
    };
    if secs < 253_402_300_800 {
        proof { law_rfc3339_shape(secs as nat); }
    }
    rfc3339_from_secs(secs)
}

/// `secs` after the Unix epoch as RFC 3339 UTC: `YYYY-MM-DDThh:mm:ssZ`.
#[verifier::spinoff_prover]
pub fn rfc3339_from_secs(secs: u64) -> (res: String)
    ensures
        res@ == rfc3339_text(secs as nat),
{
    let days = secs / 86_400;
    let t = secs % 86_400;
    let h = t / 3600;
    let mi = (t % 3600) / 60;
    let s = t % 60;
    let z = days + 719_468;
    let era = z / 146_097;
    let doe = z % 146_097;
    let yoe = (doe - doe / 1460 + doe / 36_524 - doe / 146_096) / 365;
    let y0 = yoe + era * 400;
    let doy = doe - (365 * yoe + yoe / 4 - yoe / 100);
    let mp = (5 * doy + 2) / 153;
    let d = doy - (153 * mp + 2) / 5 + 1;
    let mth = if mp < 10 { mp + 3 } else { mp - 9 };
    let y = if mth <= 2 { y0 + 1 } else { y0 };
    let mut out = String::new();
    push_padded(&mut out, y, 4);
    out.push('-');
    push_padded(&mut out, mth, 2);
    out.push('-');
    push_padded(&mut out, d, 2);
    out.push('T');
    push_padded(&mut out, h, 2);
    out.push(':');
    push_padded(&mut out, mi, 2);
    out.push(':');
    push_padded(&mut out, s, 2);
    out.push('Z');
    out
}

proof fn lemma_civil_ranges(days: nat)
    ensures
        1 <= civil_from_days(days).1 <= 12,
        1 <= civil_from_days(days).2 <= 31,
        days < 2_932_897 ==> civil_from_days(days).0 <= 9999,
{
    let z = days + 719_468;
    let era = z / 146_097;
    let doe = z % 146_097;
    assert(0 <= doe < 146_097);
    let yoe = (doe - doe / 1460 + doe / 36_524 - doe / 146_096) / 365;
    assert(0 <= yoe <= 399);
    let doy = doe - (365 * yoe + yoe / 4 - yoe / 100);
    assert(0 <= doy <= 365);
    let mp = (5 * doy + 2) / 153;
    assert(0 <= mp <= 11);
    let d = doy - (153 * mp + 2) / 5 + 1;
    assert(1 <= d <= 31);
    if days < 2_932_897 {
        assert(z < 3_652_365);
        assert(era <= 24);
        assert(era * 400 <= 9600);
        if era == 24 {
            assert(doe < 146_097);
        }
    }
}

proof fn lemma_padded_len(n: nat, width: nat)
    requires
        width >= 1,
        n < pow10(width),
    ensures
        padded(n, width).len() == width,
{
    lemma_decimal_len_bound(n, width);
}

/// The fixed shape of an RFC 3339 UTC timestamp `YYYY-MM-DDThh:mm:ssZ`:
/// 20 characters, `-` at 4 and 7, `T` at 10, `:` at 13 and 16, `Z` at 19.
pub open spec fn is_rfc3339_shape(t: Seq<char>) -> bool {
    &&& t.len() == 20
    &&& t[4] == '-'
    &&& t[7] == '-'
    &&& t[10] == 'T'
    &&& t[13] == ':'
    &&& t[16] == ':'
    &&& t[19] == 'Z'
}

/// For every instant before the year 10000, the timestamp has the fixed
/// RFC 3339 shape.
pub proof fn law_rfc3339_shape(secs: nat)
    requires
        secs < 253_402_300_800,
    ensures
        is_rfc3339_shape(rfc3339_text(secs)),
{
    let (y, m, d) = civil_from_days(secs / 86_400);
    lemma_civil_ranges(secs / 86_400);
    let t = secs % 86_400;
    assert(pow10(2) == 100 && pow10(4) == 10_000) by { reveal_with_fuel(pow10, 5); }
    lemma_padded_len(y, 4);
    lemma_padded_len(m, 2);
    lemma_padded_len(d, 2);
    lemma_padded_len(t / 3600, 2);
    lemma_padded_len((t % 3600) / 60, 2);
    lemma_padded_len(t % 60, 2);
}

} // verus!
