//! The component registry: validated component ids, the parsed index and
//! component metadata, and the lookups `list`, `info`, `add` and `update`
//! make on them.
use vstd::prelude::*;

use crate::text::{join, joined};
use crate::text::{chars_of, str_eq, string_from_range, views};
use crate::suggest::did_you_mean;
use crate::project::manifest::{lemma_insert_keeps_ascending, lemma_record_of_insert, lemma_record_of_update};
use crate::project::manifest::{record_keys, record_of};

verus! {

/// A character allowed in either half of a component path.
pub open spec fn is_id_char(c: char) -> bool {
    ('a' <= c && c <= 'z') || ('0' <= c && c <= '9') || c == '-'
}

/// A non-empty run of lowercase letters, digits and hyphens.
pub open spec fn is_id_part(p: Seq<char>) -> bool {
    p.len() > 0 && forall|i: int| 0 <= i < p.len() ==> is_id_char(#[trigger] p[i])
}

/// `s` splits at index `k` (a slash) into a valid category and a valid name.
pub open spec fn splits_as_id(s: Seq<char>, k: int) -> bool {
    &&& 0 <= k < s.len()
    &&& s[k] == '/'
    &&& is_id_part(s.subrange(0, k))
    &&& is_id_part(s.subrange(k + 1, s.len() as int))
}

/// `s` is a well-formed component path `<category>/<name>`.
pub open spec fn is_component_path(s: Seq<char>) -> bool {
    exists|k: int| splits_as_id(s, k)
}

/// A component path is a non-empty category and a non-empty name joined by
/// exactly one slash, every other character a lower-case ASCII letter, an
/// ASCII digit or `-` (by code point): no upper case, no second slash, no
/// slash at either end.
pub proof fn law_component_paths(s: Seq<char>, k: int)
    ensures
        splits_as_id(s, k) <==> (0 < k < s.len() - 1 && s[k] == '/' && forall|i: int| 0 <= i < s.len() && i != k
            ==> ((97 <= #[trigger] s[i] as int && s[i] as int <= 122) || (48 <= s[i] as int && s[i] as int <= 57) || s[i] == '-')),
        is_component_path(s) ==> s.len() >= 3 && s[0] != '/' && s[s.len() - 1] != '/',
        is_component_path(s) ==> forall|i: int, j: int| 0 <= i < j < s.len() && #[trigger] s[i] == '/' ==> #[trigger] s[j] != '/',
{
    assert('a' as int == 97 && 'z' as int == 122 && '0' as int == 48 && '9' as int == 57 && '/' as int == 47);
    if 0 <= k < s.len() {
        let a = s.subrange(0, k);
        let b = s.subrange(k + 1, s.len() as int);
        assert forall|i: int| 0 <= i < k implies (is_id_char(#[trigger] a[i]) <==> is_id_char(s[i])) by {
            assert(a[i] == s[i]);
        }
        assert forall|i: int| k < i < s.len() implies (is_id_char(#[trigger] s[i]) <==> is_id_char(b[i - k - 1])) by {
            assert(b[i - k - 1] == s[i]);
        }
        if splits_as_id(s, k) {
            assert forall|i: int| 0 <= i < s.len() && i != k implies is_id_char(#[trigger] s[i]) by {
                if i < k {
                    assert(is_id_char(a[i]));
                } else {
                    assert(is_id_char(b[i - k - 1]));
                }
            }
        }
        if 0 < k < s.len() - 1 && s[k] == '/' && forall|i: int| 0 <= i < s.len() && i != k
            ==> ((97 <= #[trigger] s[i] as int && s[i] as int <= 122) || (48 <= s[i] as int && s[i] as int <= 57) || s[i] == '-') {
            assert forall|i: int| 0 <= i < a.len() implies is_id_char(#[trigger] a[i]) by {
                assert(a[i] == s[i]);
            }
            assert forall|i: int| 0 <= i < b.len() implies is_id_char(#[trigger] b[i]) by {
                assert(b[i] == s[i + k + 1]);
            }
        }
    }
    if is_component_path(s) {
        let m = choose|m: int| splits_as_id(s, m);
        let a = s.subrange(0, m);
        let b = s.subrange(m + 1, s.len() as int);
        assert(a[0] == s[0] && is_id_char(a[0]));
        assert(b[b.len() - 1] == s[s.len() - 1] && is_id_char(b[b.len() - 1]));
        assert forall|i: int, j: int| 0 <= i < j < s.len() && #[trigger] s[i] == '/' implies #[trigger] s[j] != '/' by {
            if i != m {
                if i < m { assert(a[i] == s[i] && is_id_char(a[i])); } else { assert(b[i - m - 1] == s[i] && is_id_char(b[i - m - 1])); }
            }
            if j < m { assert(a[j] == s[j] && is_id_char(a[j])); } else if j > m { assert(b[j - m - 1] == s[j] && is_id_char(b[j - m - 1])); }
        }
    }
}

/// `category/name`, validated: lowercase alphanumeric + hyphens, one slash.
#[derive(Debug, PartialEq, Eq, Hash, PartialOrd, Ord)]
pub struct ComponentId {
    pub category: String,
    pub name: String,
}

impl Clone for ComponentId {
    fn clone(&self) -> (res: ComponentId)
        ensures
            res == *self,
    {
        ComponentId { category: self.category.clone(), name: self.name.clone() }
    }
}

/// The text a component path was given as, when it is not one.
#[derive(Debug, Clone)]
pub struct InvalidComponentId {
    pub input: String,
}

impl InvalidComponentId {
    /// The explanation shown to the user.
    pub fn message(&self) -> (res: String)
        ensures
            res@ == "'"@ + self.input@ + ("' is not a component path — expected <category>/<name>, "@
                + "lowercase and hyphenated (e.g. sensors/mpu6050). "@
                + "Run 'olivaw list' to see all components"@),
    {
        let mut out = String::new();
        out.push_str("'");
        out.push_str(self.input.as_str());
        out.push_str("' is not a component path — expected <category>/<name>, ");
        out.push_str("lowercase and hyphenated (e.g. sensors/mpu6050). ");
        out.push_str("Run 'olivaw list' to see all components");
        proof {
            assert(out@ =~= "'"@ + self.input@ + ("' is not a component path — expected <category>/<name>, "@
                + "lowercase and hyphenated (e.g. sensors/mpu6050). "@
                + "Run 'olivaw list' to see all components"@));
        }
        out
    }
}

impl ComponentId {
    /// The component's path as written: `category/name`.
    pub open spec fn path(&self) -> Seq<char> {
        self.category@ + seq!['/'] + self.name@
    }

    /// Whether both halves are valid.
    pub open spec fn valid(&self) -> bool {
        is_id_part(self.category@) && is_id_part(self.name@)
    }

    /// Parse `category/name`. Fails unless `s` is exactly a non-empty
    /// category and a non-empty name, each of lowercase ASCII letters,
    /// digits and hyphens, joined by a single slash.
    pub fn parse(s: &str) -> (res: Result<ComponentId, InvalidComponentId>)
        ensures
            res is Ok <==> is_component_path(s@),
            res matches Ok(id) ==> id.valid() && id.path() == s@,
            res matches Err(e) ==> e.input@ == s@,
    {
        let cs = chars_of(s);
        let n = cs.len();
        let mut k: usize = 0;
        while k < n && cs[k] != '/'
            invariant
                cs@ == s@,
                n == cs@.len(),
                k <= n,
                forall|j: int| 0 <= j < k ==> cs@[j] != '/',
            decreases n - k,
        {
            k = k + 1;
        }
        let ok = k < n && k > 0 && k + 1 < n && Self::all_id_chars(&cs, 0, k) && Self::all_id_chars(&cs, k + 1, n);
        if ok {
            let category = string_from_range(&cs, 0, k);
            let name = string_from_range(&cs, k + 1, n);
            let id = ComponentId { category, name };
            assert(splits_as_id(s@, k as int));
            assert(id.path() =~= s@);
            Ok(id)
        } else {
            proof {
                assert forall|j: int| !splits_as_id(s@, j) by {
                    if splits_as_id(s@, j) {
                        if j < k {
                            assert(cs@[j] != '/');
                        } else if j > k {
                            let name = s@.subrange(j + 1, s@.len() as int);
                            let cat = s@.subrange(0, j);
                            assert(cat[k as int] == '/');
                            assert(is_id_char(cat[k as int]));
                        } else {
                            assert(k < n && k > 0 && k + 1 < n);
                            assert forall|t: int| 0 <= t < k implies is_id_char(#[trigger] cs@[t]) by {
                                assert(s@.subrange(0, j)[t] == cs@[t]);
                            }
                            assert forall|t: int| k + 1 <= t < n implies is_id_char(#[trigger] cs@[t]) by {
                                assert(s@.subrange(j + 1, s@.len() as int)[t - k - 1] == cs@[t]);
                            }
                        }
                    }
                }
            }
            let input = string_from_range(&cs, 0, n);
            assert(cs@.subrange(0, n as int) =~= s@);
            Err(InvalidComponentId { input })
        }
    }

    /// Whether every character of `cs` from `lo` up to `hi` is allowed in
    /// a component path.
    fn all_id_chars(cs: &Vec<char>, lo: usize, hi: usize) -> (res: bool)
        requires
            lo <= hi <= cs@.len(),
        ensures
            res == forall|t: int| lo <= t < hi ==> is_id_char(#[trigger] cs@[t]),
    {
        let mut i = lo;
        while i < hi
            invariant
                lo <= i <= hi <= cs@.len(),
                forall|t: int| lo <= t < i ==> is_id_char(#[trigger] cs@[t]),
            decreases hi - i,
        {
            let c = cs[i];
            if !(('a' <= c && c <= 'z') || ('0' <= c && c <= '9') || c == '-') {
                return false;
            }
            i = i + 1;
        }
        true
    }

    /// `category/name`, as shown to users and used as a key.
    pub fn to_string(&self) -> (res: String)
        ensures
            res@ == self.path(),
    {
        let mut out = String::new();
        out.push_str(self.category.as_str());
        out.push('/');
        out.push_str(self.name.as_str());
        out
    }
}

/// A valid id survives a round trip through its text: its path is a
/// component path (so `parse` accepts it), and any valid id with that same
/// path (such as the one `parse` gives back) has the same category and
/// name.
pub proof fn law_id_text_round_trip(id: ComponentId, back: ComponentId)
    requires
        id.valid(),
        back.valid(),
        back.path() == id.path(),
    ensures
        is_component_path(id.path()),
        back.category@ == id.category@,
        back.name@ == id.name@,
{
    let p = id.path();
    let c1 = id.category@;
    let c2 = back.category@;
    assert(p.subrange(0, c1.len() as int) =~= c1);
    assert(p.subrange(c1.len() + 1int, p.len() as int) =~= id.name@);
    assert(splits_as_id(p, c1.len() as int));
    if c1.len() < c2.len() {
        assert(p[c1.len() as int] == c2[c1.len() as int]);
        assert(is_id_char(c2[c1.len() as int]));
    } else if c2.len() < c1.len() {
        assert(p[c2.len() as int] == c1[c2.len() as int]);
        assert(is_id_char(c1[c2.len() as int]));
    }
    assert(c1 =~= p.subrange(0, c1.len() as int));
    assert(c2 =~= p.subrange(0, c2.len() as int));
    assert(id.name@ =~= p.subrange(c1.len() + 1int, p.len() as int));
    assert(back.name@ =~= p.subrange(c2.len() + 1int, p.len() as int));
}

impl core::str::FromStr for ComponentId {
    type Err = InvalidComponentId;

    fn from_str(s: &str) -> (res: Result<ComponentId, InvalidComponentId>)
        ensures
            res is Ok <==> is_component_path(s@),
            res matches Ok(id) ==> id.valid() && id.path() == s@,
            res matches Err(e) ==> e.input@ == s@,
    {
        ComponentId::parse(s)
    }
}


/// The part of `s` before its first slash (all of `s` when it has none).
pub open spec fn before_first_slash(s: Seq<char>) -> Seq<char>
    decreases s.len(),
{
    if s.len() == 0 || s[0] == '/' {
        Seq::<char>::empty()
    } else {
        seq![s[0]] + before_first_slash(s.drop_first())
    }
}

/// The part of `s` before its first slash.
fn prefix_before_slash(s: &str) -> (res: String)
    ensures
        res@ == before_first_slash(s@),
{
    let cs = chars_of(s);
    let mut k: usize = 0;
    while k < cs.len() && cs[k] != '/'
        invariant
            cs@ == s@,
            k <= cs@.len(),
            forall|j: int| 0 <= j < k ==> cs@[j] != '/',
        decreases cs@.len() - k,
    {
        k = k + 1;
    }
    proof { lemma_before_first_slash(s@, k as int); }
    string_from_range(&cs, 0, k)
}

/// The part before the slash of a valid id's path is its category.
pub proof fn lemma_before_first_slash_of_id(id: ComponentId)
    requires
        id.valid(),
    ensures
        before_first_slash(id.path()) == id.category@,
{
    let s = id.path();
    let k = id.category@.len() as int;
    assert(s[k] == '/');
    assert forall|j: int| 0 <= j < k implies s[j] != '/' by {
        assert(s[j] == id.category@[j]);
        assert(is_id_char(id.category@[j]));
    }
    lemma_before_first_slash(s, k);
    assert(s.subrange(0, k) =~= id.category@);
}

proof fn lemma_before_first_slash(s: Seq<char>, k: int)
    requires
        0 <= k <= s.len(),
        forall|j: int| 0 <= j < k ==> s[j] != '/',
        k == s.len() || s[k] == '/',
    ensures
        before_first_slash(s) == s.subrange(0, k),
    decreases s.len(),
{
    if s.len() == 0 || s[0] == '/' {
        assert(s.subrange(0, k) =~= Seq::<char>::empty());
    } else {
        let t = s.drop_first();
        assert forall|j: int| 0 <= j < k - 1 implies t[j] != '/' by {
            assert(t[j] == s[j + 1]);
        }
        lemma_before_first_slash(t, k - 1);
        assert(seq![s[0]] + t.subrange(0, k - 1) =~= s.subrange(0, k));
    }
}

/// Registry-loading options derived from global flags.
#[derive(Clone, Debug)]
pub struct RegistryOpts {
    /// Never touch the network; use the cached or embedded registry.
    pub offline: bool,
    /// Fetch the registry at this git tag instead of the built-in default.
    pub tag_override: Option<String>,
}

/// The git tag of the registry to use: the override, or
/// `registry-v<this tool's version>`.
pub fn pinned_tag(opts: &RegistryOpts) -> (tag: String)
    ensures
        tag@ == match opts.tag_override {
            Some(t) => t@,
            None => "registry-v"@ + crate::project::manifest::OLIVAW_VERSION@,
        },
{
    match &opts.tag_override {
        Some(t) => t.clone(),
        None => {
            let mut out = String::new();
            out.push_str("registry-v");
            out.push_str(crate::project::manifest::OLIVAW_VERSION);
            out
        },
    }
}

/// Where the checkout of the pinned tag is cached below `cache_root`
/// (`<cache_root>/<tag>`), and the tag. The cache is valid when that
/// directory holds `registry.toml`.
pub fn cache_location(opts: &RegistryOpts, cache_root: &std::path::Path) -> (res: (std::path::PathBuf, String))
    ensures
        res.1@ == match opts.tag_override {
            Some(t) => t@,
            None => "registry-v"@ + crate::project::manifest::OLIVAW_VERSION@,
        },
        res.0 == crate::project::joined_path(cache_root, res.1@),
{
    let tag = pinned_tag(opts);
    let dir = crate::project::path_join(cache_root, tag.as_str());
    (dir, tag)
}

/// What to do with a fresh clone of the registry repository.
#[derive(Debug, Clone, Copy, PartialEq, Eq, Structural)]
pub enum CloneOutcome {
    /// `git clone` failed: report it and drop the temporary directory.
    Failed,
    /// The registry lives in the checkout's `registry/` directory: promote it.
    PromoteSubdir,
    /// The checkout is a bare registry (`registry.toml` at its root): promote it whole.
    PromoteRoot,
    /// Neither holds a `registry.toml`: report it and drop the checkout.
    NoIndex,
}

/// Decide what a clone gave: whether git succeeded, and whether
/// `registry/registry.toml` and `registry.toml` exist in the checkout. The
/// `registry/` subdirectory wins over the root.
pub fn after_clone(git_ok: bool, subdir_has_index: bool, root_has_index: bool) -> (o: CloneOutcome)
    ensures
        o == if !git_ok {
            CloneOutcome::Failed
        } else if subdir_has_index {
            CloneOutcome::PromoteSubdir
        } else if root_has_index {
            CloneOutcome::PromoteRoot
        } else {
            CloneOutcome::NoIndex
        },
{
    if !git_ok {
        CloneOutcome::Failed
    } else if subdir_has_index {
        CloneOutcome::PromoteSubdir
    } else if root_has_index {
        CloneOutcome::PromoteRoot
    } else {
        CloneOutcome::NoIndex
    }
}

/// The sibling directory a clone of `tag` lands in before it is renamed
/// into place, so a crashed fetch never leaves a half-valid cache.
pub fn staging_dir_name(tag: &str) -> (res: String)
    ensures
        res@ == ".tmp-"@ + tag@,
{
    let mut out = String::new();
    out.push_str(".tmp-");
    out.push_str(tag);
    out
}

/// The path of a component's file `src` inside the registry:
/// `<category>/<name>/<src>`.
pub fn component_file_path(id: &ComponentId, src: &str) -> (res: String)
    ensures
        res@ == id.path() + seq!['/'] + src@,
{
    let mut out = id.to_string();
    out.push('/');
    out.push_str(src);
    out
}

/// The path of a component's `component.toml` inside the registry.
pub fn component_manifest_path(id: &ComponentId) -> (res: String)
    ensures
        res@ == id.path() + "/component.toml"@,
{
    let mut out = id.to_string();
    out.push_str("/component.toml");
    out
}

/// The keys of `keys` that are component paths, in order.
pub open spec fn valid_paths(keys: Seq<Seq<char>>) -> Seq<Seq<char>>
    decreases keys.len(),
{
    if keys.len() == 0 {
        keys
    } else {
        let r = valid_paths(keys.drop_last());
        if is_component_path(keys.last()) { r.push(keys.last()) } else { r }
    }
}

/// A valid path is one of the keys.
pub proof fn lemma_valid_paths_indexed(keys: Seq<Seq<char>>, p: Seq<char>)
    requires
        valid_paths(keys).contains(p),
    ensures
        keys.contains(p),
    decreases keys.len(),
{
    if keys.len() > 0 {
        let r = valid_paths(keys.drop_last());
        if r.contains(p) {
            lemma_valid_paths_indexed(keys.drop_last(), p);
            let j = choose|j: int| 0 <= j < keys.drop_last().len() && keys.drop_last()[j] == p;
            assert(keys[j] == p);
        } else {
            assert(keys[keys.len() - 1] == p);
        }
    }
}

/// `a` sorts strictly before `b`, character by character (the order of
/// `String`: UTF-8 bytes and code points order alike).
pub open spec fn lex_less(a: Seq<char>, b: Seq<char>) -> bool
    decreases a.len(),
{
    if a.len() == 0 {
        b.len() > 0
    } else if b.len() == 0 {
        false
    } else if a[0] == b[0] {
        lex_less(a.drop_first(), b.drop_first())
    } else {
        a[0] < b[0]
    }
}

/// Every key sorts strictly before the keys after it: the keys ascend and
/// none appears twice (the order of a map keyed by strings).
pub open spec fn keys_ascending(keys: Seq<Seq<char>>) -> bool {
    forall|i: int, j: int| 0 <= i < j < keys.len() ==> lex_less(#[trigger] keys[i], #[trigger] keys[j])
}

/// The component paths of ascending keys ascend too.
pub proof fn lemma_valid_paths_ascending(keys: Seq<Seq<char>>)
    requires
        keys_ascending(keys),
    ensures
        keys_ascending(valid_paths(keys)),
    decreases keys.len(),
{
    if keys.len() > 0 {
        let d = keys.drop_last();
        assert forall|i: int, j: int| 0 <= i < j < d.len() implies lex_less(#[trigger] d[i], #[trigger] d[j]) by {
            assert(d[i] == keys[i] && d[j] == keys[j]);
        }
        lemma_valid_paths_ascending(d);
        let r = valid_paths(d);
        if is_component_path(keys.last()) {
            let v = r.push(keys.last());
            assert forall|i: int, j: int| 0 <= i < j < v.len() implies lex_less(#[trigger] v[i], #[trigger] v[j]) by {
                if j == r.len() {
                    assert(r.contains(v[i]));
                    lemma_valid_paths_indexed(d, v[i]);
                    let m = choose|m: int| 0 <= m < d.len() && d[m] == v[i];
                    assert(lex_less(keys[m], keys[keys.len() - 1]));
                } else {
                    assert(v[i] == r[i] && v[j] == r[j]);
                }
            }
        }
    }
}

/// Inserting `c` at `p` adds exactly `c` to the members.
proof fn lemma_insert_members(old_v: Seq<String>, p: int, c: String, new_v: Seq<String>)
    requires
        0 <= p <= old_v.len(),
        new_v == old_v.insert(p, c),
    ensures
        forall|x: Seq<char>| views(new_v).contains(x) <==> (views(old_v).contains(x) || x == c@),
{
    assert forall|x: Seq<char>| views(new_v).contains(x) <==> (views(old_v).contains(x) || x == c@) by {
        if views(new_v).contains(x) {
            let j = choose|j: int| 0 <= j < views(new_v).len() && views(new_v)[j] == x;
            if j < p {
                assert(views(old_v)[j] == x);
            } else if j > p {
                assert(views(old_v)[j - 1] == x);
            }
        }
        if views(old_v).contains(x) {
            let j = choose|j: int| 0 <= j < views(old_v).len() && views(old_v)[j] == x;
            if j < p {
                assert(views(new_v)[j] == x);
            } else {
                assert(views(new_v)[j + 1] == x);
            }
        }
        if x == c@ {
            assert(views(new_v)[p] == x);
        }
    }
}

/// Of two character sequences, one sorts before the other or they are equal.
pub proof fn lemma_lex_trichotomy(a: Seq<char>, b: Seq<char>)
    ensures
        lex_less(a, b) || a == b || lex_less(b, a),
        !(lex_less(a, b) && lex_less(b, a)),
        !lex_less(a, a),
    decreases a.len(),
{
    if a.len() > 0 && b.len() > 0 && a[0] == b[0] {
        lemma_lex_trichotomy(a.drop_first(), b.drop_first());
        if a.drop_first() == b.drop_first() {
            assert(a =~= seq![a[0]] + a.drop_first());
            assert(b =~= seq![b[0]] + b.drop_first());
        }
    } else if a.len() == 0 && b.len() == 0 {
        assert(a =~= b);
    } else if a.len() > 0 {
        lemma_lex_irreflexive(a);
    }
}

proof fn lemma_lex_irreflexive(a: Seq<char>)
    ensures
        !lex_less(a, a),
    decreases a.len(),
{
    if a.len() > 0 {
        lemma_lex_irreflexive(a.drop_first());
    }
}

/// Sorting before is transitive.
pub proof fn lemma_lex_transitive(a: Seq<char>, b: Seq<char>, c: Seq<char>)
    requires
        lex_less(a, b) || a == b,
        lex_less(b, c),
    ensures
        lex_less(a, c),
    decreases a.len(),
{
    if a == b {
    } else if a.len() == 0 {
    } else if a[0] == b[0] && b[0] == c[0] {
        if a.drop_first() == b.drop_first() {
        }
        lemma_lex_transitive(a.drop_first(), b.drop_first(), c.drop_first());
    }
}

/// Whether `a` sorts strictly before `b`.
pub fn str_less(a: &str, b: &str) -> (res: bool)
    ensures
        res == lex_less(a@, b@),
{
    let x = chars_of(a);
    let y = chars_of(b);
    let mut i: usize = 0;
    assert(a@.skip(0) =~= a@);
    assert(b@.skip(0) =~= b@);
    while i < x.len() && i < y.len() && x[i] == y[i]
        invariant
            x@ == a@,
            y@ == b@,
            i <= x@.len(),
            i <= y@.len(),
            lex_less(a@, b@) == lex_less(a@.skip(i as int), b@.skip(i as int)),
        decreases x@.len() - i,
    {
        assert(a@.skip(i as int).drop_first() =~= a@.skip(i + 1));
        assert(b@.skip(i as int).drop_first() =~= b@.skip(i + 1));
        i = i + 1;
    }
    if i == x.len() {
        i < y.len()
    } else if i == y.len() {
        false
    } else {
        x[i] < y[i]
    }
}

/// `path` is the `category/name` a component declares for itself.
pub open spec fn declared_path(meta: ComponentMeta) -> Seq<char> {
    meta.category@ + seq!['/'] + meta.name@
}

/// `registry.toml`'s own metadata.
#[derive(Debug)]
pub struct RegistryMeta {
    /// Registry format version (independent of the CLI version).
    pub version: String,
}

/// One component's line in the index.
#[derive(Debug)]
pub struct IndexEntry {
    pub version: String,
    pub description: String,
}

/// `registry.toml` — the index. `components` is keyed by full component
/// path, e.g. `"sensors/mpu6050"`, held in key order with each key once,
/// as a table keyed by strings holds them; `ids` keeps that order.
#[derive(Debug)]
pub struct RegistryIndex {
    pub(crate) registry: RegistryMeta,
    pub(crate) components: Vec<(String, IndexEntry)>,
}

/// The entry last given for `p` among `entries`, if any.
pub open spec fn last_record<V>(entries: Seq<(String, V)>, p: Seq<char>) -> Option<V>
    decreases entries.len(),
{
    if entries.len() == 0 {
        None
    } else if entries.last().0@ == p {
        Some(entries.last().1)
    } else {
        last_record(entries.drop_last(), p)
    }
}

/// Put `entry` under its key: in place of the entry there, or before the
/// first key that sorts after it.
pub(crate) fn insert_keyed<V>(comps: &mut Vec<(String, V)>, entry: (String, V))
    requires
        keys_ascending(record_keys(old(comps)@)),
    ensures
        keys_ascending(record_keys(final(comps)@)),
        forall|p: Seq<char>| #[trigger] record_of(final(comps)@, p)
            == if p == entry.0@ { Some(entry.1) } else { record_of(old(comps)@, p) },
{
    let ghost k = entry.0@;
    let mut i: usize = 0;
    while i < comps.len() && str_less(comps[i].0.as_str(), entry.0.as_str())
        invariant
            comps@ == old(comps)@,
            i <= comps@.len(),
            forall|j: int| 0 <= j < i ==> lex_less((#[trigger] comps@[j]).0@, k),
            k == entry.0@,
        decreases comps@.len() - i,
    {
        i = i + 1;
    }
    let ghost before = comps@;
    let ghost keys0 = record_keys(before);
    proof {
        assert forall|j: int| 0 <= j < i implies (#[trigger] before[j]).0@ != k by {
            lemma_lex_trichotomy(k, k);
        }
    }
    let ghost eg = entry;
    if i < comps.len() && str_eq(comps[i].0.as_str(), entry.0.as_str()) {
        comps.set(i, entry);
        proof {
            assert forall|p: Seq<char>| #[trigger] record_of(comps@, p)
                == if p == k { Some(eg.1) } else { record_of(before, p) } by {
                lemma_record_of_update(before, i as int, eg, p);
            }
            assert(record_keys(comps@) =~= keys0);
        }
    } else {
        comps.insert(i, entry);
        proof {
            assert forall|p: Seq<char>| #[trigger] record_of(comps@, p)
                == if p == k { Some(eg.1) } else { record_of(before, p) } by {
                lemma_record_of_insert(before, i as int, eg, p);
            }
            assert(record_keys(comps@) =~= keys0.insert(i as int, k));
            if i < before.len() {
                lemma_lex_trichotomy(before[i as int].0@, k);
            }
            assert forall|j: int| 0 <= j < i implies lex_less(#[trigger] keys0[j], k) by {
                assert(keys0[j] == before[j].0@);
            }
            lemma_insert_keeps_ascending(keys0, i as int, k);
        }
    }
}

/// `entries` held in key order, each key once with the entry given last
/// for it, as a table read into a map holds them.
pub(crate) fn keyed_in_order<V>(entries: Vec<(String, V)>) -> (res: Vec<(String, V)>)
    ensures
        keys_ascending(record_keys(res@)),
        forall|p: Seq<char>| #[trigger] record_of(res@, p) == last_record(entries@, p),
{
    let ghost all = entries@;
    let mut rest = entries;
    let mut comps: Vec<(String, V)> = Vec::new();
    let ghost mut k: int = 0;
    while rest.len() > 0
        invariant
            0 <= k <= all.len(),
            rest@ == all.skip(k),
            keys_ascending(record_keys(comps@)),
            forall|p: Seq<char>| #[trigger] record_of(comps@, p) == last_record(all.take(k), p),
        decreases rest@.len(),
    {
        let e = rest.remove(0);
        let ghost eg = e;
        let ghost before = comps@;
        insert_keyed(&mut comps, e);
        proof {
            assert(all.take(k + 1).drop_last() =~= all.take(k));
            assert(all[k] == eg);
            assert(all.take(k + 1).last() == eg);
            assert forall|p: Seq<char>| #[trigger] record_of(comps@, p) == last_record(all.take(k + 1), p) by {
                assert(record_of(comps@, p) == if p == eg.0@ { Some(eg.1) } else { record_of(before, p) });
            }
            assert(all.skip(k).remove(0) =~= all.skip(k + 1));
            k = k + 1;
        }
    }
    proof {
        assert(all.take(k) =~= all);
    }
    comps
}

impl RegistryIndex {
    /// The keys ascend, each once.
    #[verifier::type_invariant]
    spec fn keys_in_order(self) -> bool {
        keys_ascending(record_keys(self.components@))
    }

    /// The entries, in key order.
    pub closed spec fn entries_view(&self) -> Seq<(String, IndexEntry)> {
        self.components@
    }

    /// The registry's metadata.
    pub closed spec fn meta_view(&self) -> RegistryMeta {
        self.registry
    }

    /// The index of `registry.toml` from its metadata and its `(key, entry)`
    /// pairs. A key given twice keeps the entry given last, as a table read
    /// into a map does; the entries are held in key order, each key once.
    pub fn new(registry: RegistryMeta, entries: Vec<(String, IndexEntry)>) -> (idx: RegistryIndex)
        ensures
            idx.meta_view() == registry,
            keys_ascending(record_keys(idx.entries_view())),
            forall|p: Seq<char>| #[trigger] record_of(idx.entries_view(), p) == last_record(entries@, p),
    {
        let comps = keyed_in_order(entries);
        RegistryIndex { registry, components: comps }
    }

    /// The entries, in key order.
    pub fn entries(&self) -> (res: &Vec<(String, IndexEntry)>)
        ensures
            res@ == self.entries_view(),
    {
        &self.components
    }
}

/// `[component]` of a `component.toml`.
#[derive(Debug)]
pub struct ComponentMeta {
    pub name: String,
    pub category: String,
    pub version: String,
    pub description: String,
    pub license: String,
}

/// `[hardware]`: devices, interface, supply and wiring notes.
#[derive(Debug)]
pub struct Hardware {
    pub devices: Vec<String>,
    pub interface: Option<String>,
    pub voltage: Option<String>,
    pub notes: Option<String>,
}

/// `[compatibility]`.
#[derive(Debug)]
pub struct Compatibility {
    pub no_std: Option<bool>,
    pub embedded_hal: Option<String>,
    pub targets: Vec<String>,
}

/// Honest hardware-verification status. Ports of reference firmware start
/// `verified = false` until someone flashes them on a real board.
#[derive(Debug)]
pub struct Verification {
    pub verified: bool,
    /// Board it was verified on, or the reference implementation it ports.
    pub reference: Option<String>,
}

impl Hardware {
    /// The hardware line of `info`: the devices joined by `, `, then the
    /// interface and the supply, each after ` · `, when given.
    pub fn summary_line(&self) -> (res: String)
        ensures
            res@ == joined(views(self.devices@), ", "@)
                + match self.interface { Some(x) => " · "@ + x@, None => Seq::empty() }
                + match self.voltage { Some(x) => " · "@ + x@, None => Seq::empty() },
    {
        let mut line = join(&self.devices, ", ");
        let ghost a = line@;
        match &self.interface {
            Some(x) => {
                line.push_str(" · ");
                line.push_str(x.as_str());
            },
            None => {},
        }
        let ghost b = line@;
        match &self.voltage {
            Some(x) => {
                line.push_str(" · ");
                line.push_str(x.as_str());
            },
            None => {},
        }
        proof {
            assert(b =~= a + match self.interface { Some(x) => " · "@ + x@, None => Seq::empty() });
            assert(line@ =~= b + match self.voltage { Some(x) => " · "@ + x@, None => Seq::empty() });
        }
        line
    }
}

/// The parts of the compatibility line of `info`, in order.
pub open spec fn compatibility_parts(c: Compatibility) -> Seq<Seq<char>> {
    let a: Seq<Seq<char>> = match c.no_std {
        Some(true) => seq!["no_std"@],
        Some(false) => seq!["std"@],
        None => Seq::empty(),
    };
    let b: Seq<Seq<char>> = match c.embedded_hal {
        Some(h) => seq!["embedded-hal "@ + h@],
        None => Seq::empty(),
    };
    let t: Seq<Seq<char>> = if c.targets@.len() > 0 { seq![joined(views(c.targets@), ", "@)] } else { Seq::empty() };
    a + b + t
}

impl Compatibility {
    /// The compatibility line of `info`: `no_std` or `std` when stated, the
    /// embedded-hal version when given, and the targets joined by `, `
    /// when there are any, joined by ` · `.
    pub fn summary_line(&self) -> (res: String)
        ensures
            res@ == joined(compatibility_parts(*self), " · "@),
    {
        let mut parts: Vec<String> = Vec::new();
        match self.no_std {
            Some(true) => parts.push("no_std".to_owned()),
            Some(false) => parts.push("std".to_owned()),
            None => {},
        }
        let ghost a = views(parts@);
        match &self.embedded_hal {
            Some(h) => {
                let mut s = String::new();
                s.push_str("embedded-hal ");
                s.push_str(h.as_str());
                parts.push(s);
            },
            None => {},
        }
        let ghost b = views(parts@);
        if self.targets.len() > 0 {
            let t = join(&self.targets, ", ");
            parts.push(t);
        }
        proof {
            let ea: Seq<Seq<char>> = match self.no_std {
                Some(true) => seq!["no_std"@],
                Some(false) => seq!["std"@],
                None => Seq::empty(),
            };
            let eb: Seq<Seq<char>> = match &self.embedded_hal {
                Some(h) => seq!["embedded-hal "@ + h@],
                None => Seq::empty(),
            };
            assert(a =~= ea);
            assert(b =~= ea + eb);
            assert(views(parts@) =~= compatibility_parts(*self));
        }
        join(&parts, " · ")
    }
}

/// One `[[files]]` entry of a component.
#[derive(Debug)]
pub struct FileEntry {
    /// Path inside the component's registry directory.
    pub src: String,
    /// Destination relative to the user's project root. Treated as untrusted
    /// data: validated through `RelPath` before any write.
    pub dest: String,
    pub optional: bool,
}

/// `[dependencies]`, each table in key order.
#[derive(Debug)]
pub struct Dependencies {
    /// Crates the user must have in Cargo.toml, name and version requirement.
    pub cargo: Vec<(String, String)>,
    /// Other olivaw components this one needs, path and version requirement.
    pub components: Vec<(String, String)>,
}

/// A parsed `component.toml`.
#[derive(Debug)]
pub struct Component {
    pub component: ComponentMeta,
    pub hardware: Option<Hardware>,
    pub compatibility: Option<Compatibility>,
    pub verification: Option<Verification>,
    pub files: Vec<FileEntry>,
    pub dependencies: Dependencies,
}

impl Component {
    /// The component paths this component depends on, in declaration order.
    pub open spec fn dependency_paths(&self) -> Seq<Seq<char>> {
        self.dependencies.components@.map_values(|d: (String, String)| d.0@)
    }
}

/// Where registry bytes come from.
pub enum RegistrySource {
    /// Compiled into the binary.
    Embedded,
    /// A pinned-tag checkout under `~/.olivaw/cache/registry/<tag>/`.
    Cached { root: std::path::PathBuf, tag: String },
}

/// The outcome of reading and parsing one component's `component.toml`:
/// the component, or why it could not be had.
pub struct LoadedComponent {
    /// The component path the file was read for.
    pub path: String,
    pub parsed: Result<Component, String>,
}

/// A registry lookup that failed.
#[derive(Debug)]
pub enum RegistryError {
    /// No such component; the message carries the did-you-mean suggestion.
    UnknownComponent(String),
    /// The component's `component.toml` could not be read or parsed.
    Load(String),
    /// A `component.toml` declares another path than the one it sits at.
    Inconsistent(String),
    /// A component declares a dependency that is not a component path.
    InvalidDependency { component: String, dependency: String },
    /// The dependencies loop back; the ids along the loop, first repeated last.
    Cycle(Vec<String>),
}

impl RegistryError {
    /// The explanation shown to the user.
    pub fn message(&self) -> (res: String)
        ensures
            res@ == match self {
                RegistryError::UnknownComponent(m) => m@,
                RegistryError::Load(m) => m@,
                RegistryError::Inconsistent(m) => m@,
                RegistryError::InvalidDependency { component, dependency } => "component "@ + component@
                    + " declares invalid dependency '"@ + dependency@ + "'"@,
                RegistryError::Cycle(c) => "dependency cycle in the registry: "@ + joined(views(c@), " → "@)
                    + " — this is a registry bug, please report it"@,
            },
    {
        match self {
            RegistryError::UnknownComponent(m) => m.clone(),
            RegistryError::Load(m) => m.clone(),
            RegistryError::Inconsistent(m) => m.clone(),
            RegistryError::InvalidDependency { component, dependency } => {
                let mut out = String::new();
                out.push_str("component ");
                out.push_str(component.as_str());
                out.push_str(" declares invalid dependency '");
                out.push_str(dependency.as_str());
                out.push_str("'");
                out
            },
            RegistryError::Cycle(c) => {
                let mut out = String::new();
                out.push_str("dependency cycle in the registry: ");
                let j = join(c, " → ");
                out.push_str(j.as_str());
                out.push_str(" — this is a registry bug, please report it");
                out
            },
        }
    }
}

/// The component registry: where it came from, its index, and the
/// `component.toml` of each indexed component as read from that source.
pub struct Registry {
    pub source: RegistrySource,
    pub index: RegistryIndex,
    pub loaded: Vec<LoadedComponent>,
}

/// Every key and every loaded path of the registry fits the arithmetic of
/// the distance computation.
pub open spec fn keys_fit(reg: &Registry) -> bool {
    forall|i: int| 0 <= i < reg.index.entries_view().len()
        ==> (#[trigger] reg.index.entries_view()[i]).0@.len() < usize::MAX
}

impl Registry {
    /// `p` is a key of the index.
    pub open spec fn is_indexed(&self, p: Seq<char>) -> bool {
        exists|i: int| 0 <= i < self.index.entries_view().len() && (#[trigger] self.index.entries_view()[i]).0@ == p
    }

    /// `i` is the first index entry keyed `p`.
    pub open spec fn index_slot(&self, p: Seq<char>, i: int) -> bool {
        &&& 0 <= i < self.index.entries_view().len()
        &&& self.index.entries_view()[i].0@ == p
        &&& forall|j: int| 0 <= j < i ==> (#[trigger] self.index.entries_view()[j]).0@ != p
    }

    /// `i` is the first loaded entry for `p`.
    pub open spec fn loaded_slot(&self, p: Seq<char>, i: int) -> bool {
        &&& 0 <= i < self.loaded@.len()
        &&& self.loaded@[i].path@ == p
        &&& forall|j: int| 0 <= j < i ==> (#[trigger] self.loaded@[j]).path@ != p
    }

    /// `id` is indexed, its `component.toml` parsed, and it declares `id`.
    pub open spec fn is_usable(&self, id: ComponentId) -> bool {
        &&& self.is_indexed(id.path())
        &&& exists|i: int| #[trigger] self.loaded_slot(id.path(), i)
                && self.loaded@[i].parsed is Ok
                && self.loaded@[i].parsed->Ok_0.component.category@ == id.category@
                && self.loaded@[i].parsed->Ok_0.component.name@ == id.name@
    }

    /// `id` is indexed and its `component.toml` was read and parsed.
    pub open spec fn is_loaded(&self, id: ComponentId) -> bool {
        exists|i: int| #[trigger] self.loaded_slot(id.path(), i) && self.loaded@[i].parsed is Ok
    }

    /// The message for an unknown `id`.
    pub open spec fn unknown_message(&self, id: ComponentId) -> Seq<char> {
        match crate::suggest::closest_index(id.path(), self.keys()) {
            Some(i) => "no component '"@ + id.path() + "' — did you mean '"@ + self.keys()[i]
                + "'? Run 'olivaw list "@ + before_first_slash(self.keys()[i]) + "' to see all"@,
            None => "no component '"@ + id.path() + "'. Run 'olivaw list' to see all components"@,
        }
    }

    /// The component parsed for `p` (meaningful when `p` is usable).
    pub open spec fn spec_component(&self, p: Seq<char>) -> Component {
        self.loaded@[choose|i: int| self.loaded_slot(p, i)].parsed->Ok_0
    }

    /// The component paths `p` depends on (meaningful when `p` is usable).
    pub open spec fn deps(&self, p: Seq<char>) -> Seq<Seq<char>> {
        self.spec_component(p).dependency_paths()
    }

    /// Index entry (version + description) for `list`: the first entry keyed
    /// by the id's path, if any.
    pub fn summary(&self, id: &ComponentId) -> (res: Option<&IndexEntry>)
        ensures
            res is None <==> !self.is_indexed(id.path()),
            res matches Some(e) ==> exists|i: int| self.index_slot(id.path(), i)
                && *e == self.index.entries_view()[i].1,
    {
        let key = id.to_string();
        let mut i: usize = 0;
        while i < self.index.components.len()
            invariant
                key@ == id.path(),
                i <= self.index.entries_view().len(),
                forall|j: int| 0 <= j < i ==> (#[trigger] self.index.entries_view()[j]).0@ != key@,
            decreases self.index.entries_view().len() - i,
        {
            if str_eq(self.index.components[i].0.as_str(), key.as_str()) {
                assert(self.index_slot(id.path(), i as int));
                return Some(&self.index.components[i].1);
            }
            i = i + 1;
        }
        None
    }

    /// The first loaded entry for `path`, if any.
    fn find_loaded(&self, path: &str) -> (res: Option<usize>)
        ensures
            res matches Some(i) ==> self.loaded_slot(path@, i as int),
            res is None ==> forall|j: int| 0 <= j < self.loaded@.len() ==> (#[trigger] self.loaded@[j]).path@ != path@,
    {
        let mut i: usize = 0;
        while i < self.loaded.len()
            invariant
                i <= self.loaded@.len(),
                forall|j: int| 0 <= j < i ==> (#[trigger] self.loaded@[j]).path@ != path@,
            decreases self.loaded@.len() - i,
        {
            if str_eq(self.loaded[i].path.as_str(), path) {
                return Some(i);
            }
            i = i + 1;
        }
        None
    }

    /// All component ids in the index, in ascending key order, each once;
    /// keys that are not component paths are skipped.
    pub fn ids(&self) -> (res: Vec<ComponentId>)
        ensures
            res@.map_values(|id: ComponentId| id.path()) == valid_paths(self.keys()),
            forall|i: int| 0 <= i < res@.len() ==> (#[trigger] res@[i]).valid(),
            keys_ascending(res@.map_values(|id: ComponentId| id.path())),
    {
        proof {
            use_type_invariant(&self.index);
            assert(self.keys() =~= record_keys(self.index.entries_view()));
        }
        let mut out: Vec<ComponentId> = Vec::new();
        let mut i: usize = 0;
        while i < self.index.components.len()
            invariant
                i <= self.index.entries_view().len(),
                out@.map_values(|id: ComponentId| id.path()) == valid_paths(self.keys().take(i as int)),
                forall|j: int| 0 <= j < out@.len() ==> (#[trigger] out@[j]).valid(),
            decreases self.index.entries_view().len() - i,
        {
            let ghost t = self.keys().take(i as int);
            let ghost t1 = self.keys().take(i + 1);
            assert(t1.drop_last() =~= t);
            assert(t1.last() == self.index.entries_view()[i as int].0@);
            let ghost before = out@;
            match ComponentId::parse(self.index.components[i].0.as_str()) {
                Ok(id) => {
                    out.push(id);
                    assert(out@.map_values(|id: ComponentId| id.path()) =~= before.map_values(|id: ComponentId| id.path()).push(t1.last()));
                },
                Err(_) => {},
            }
            i = i + 1;
        }
        assert(self.keys().take(self.index.entries_view().len() as int) =~= self.keys());
        proof {
            lemma_valid_paths_ascending(self.keys());
        }
        out
    }

    /// The categories of the index's component ids.
    pub open spec fn category_set(&self) -> Set<Seq<char>> {
        Set::new(|c: Seq<char>| exists|i: int| 0 <= i < valid_paths(self.keys()).len()
            && #[trigger] before_first_slash(valid_paths(self.keys())[i]) == c)
    }

    /// All category names present in the index, deduplicated and sorted.
    pub fn categories(&self) -> (cats: Vec<String>)
        ensures
            forall|i: int, j: int| 0 <= i < j < cats@.len() ==> lex_less(#[trigger] cats@[i]@, #[trigger] cats@[j]@),
            views(cats@).to_set() == self.category_set(),
    {
        let ids = self.ids();
        let mut cats: Vec<String> = Vec::new();
        let mut i: usize = 0;
        while i < ids.len()
            invariant
                i <= ids@.len(),
                ids@.map_values(|id: ComponentId| id.path()) == valid_paths(self.keys()),
                forall|j: int| 0 <= j < ids@.len() ==> (#[trigger] ids@[j]).valid(),
                forall|a: int, b: int| 0 <= a < b < cats@.len() ==> lex_less(#[trigger] cats@[a]@, #[trigger] cats@[b]@),
                forall|c: Seq<char>| views(cats@).contains(c) <==>
                    exists|j: int| 0 <= j < i && #[trigger] ids@[j].category@ == c,
            decreases ids@.len() - i,
        {
            let c = &ids[i].category;
            Self::insert_sorted(&mut cats, c);
            i = i + 1;
        }
        proof {
            self.law_categories_are_those_of_ids(ids@);
            assert(views(cats@).to_set() =~= self.category_set());
        }
        cats
    }

    /// The categories of the index are exactly the categories of the ids
    /// that `ids` gives.
    pub proof fn law_categories_are_those_of_ids(&self, ids: Seq<ComponentId>)
        requires
            ids.map_values(|id: ComponentId| id.path()) == valid_paths(self.keys()),
            forall|i: int| 0 <= i < ids.len() ==> (#[trigger] ids[i]).valid(),
        ensures
            self.category_set() == Set::new(|c: Seq<char>| exists|j: int| 0 <= j < ids.len() && #[trigger] ids[j].category@ == c),
    {
        let vp = valid_paths(self.keys());
        let of_ids = Set::new(|c: Seq<char>| exists|j: int| 0 <= j < ids.len() && #[trigger] ids[j].category@ == c);
        assert forall|c: Seq<char>| of_ids.contains(c) <==> self.category_set().contains(c) by {
            if of_ids.contains(c) {
                let j = choose|j: int| 0 <= j < ids.len() && #[trigger] ids[j].category@ == c;
                assert(ids.map_values(|id: ComponentId| id.path())[j] == vp[j]);
                lemma_before_first_slash_of_id(ids[j]);
                assert(before_first_slash(vp[j]) == c);
            }
            if self.category_set().contains(c) {
                let j = choose|j: int| 0 <= j < vp.len() && #[trigger] before_first_slash(vp[j]) == c;
                assert(ids.map_values(|id: ComponentId| id.path())[j] == vp[j]);
                lemma_before_first_slash_of_id(ids[j]);
                assert(ids[j].category@ == c);
            }
        }
        assert(of_ids =~= self.category_set());
    }

    /// Insert `c` into the sorted, duplicate-free `v`, unless present.
    #[verifier::spinoff_prover]
    fn insert_sorted(v: &mut Vec<String>, c: &String)
        requires
            forall|a: int, b: int| 0 <= a < b < old(v)@.len() ==> lex_less(#[trigger] old(v)@[a]@, #[trigger] old(v)@[b]@),
        ensures
            forall|a: int, b: int| 0 <= a < b < final(v)@.len() ==> lex_less(#[trigger] final(v)@[a]@, #[trigger] final(v)@[b]@),
            forall|x: Seq<char>| views(final(v)@).contains(x) <==> (views(old(v)@).contains(x) || x == c@),
    {
        let mut p: usize = 0;
        while p < v.len() && str_less(v[p].as_str(), c.as_str())
            invariant
                p <= v@.len(),
                forall|a: int| 0 <= a < p ==> lex_less((#[trigger] v@[a])@, c@),
            decreases v@.len() - p,
        {
            p = p + 1;
        }
        if p < v.len() && str_eq(v[p].as_str(), c.as_str()) {
            proof {
                assert(views(v@)[p as int] == c@);
            }
            return;
        }
        let ghost old_v = v@;
        proof {
            if p < old_v.len() {
                lemma_lex_trichotomy(old_v[p as int]@, c@);
            }
        }
        v.insert(p, c.clone());
        proof {
            assert forall|a: int, b: int| 0 <= a < b < v@.len() implies lex_less(#[trigger] v@[a]@, #[trigger] v@[b]@) by {
                if b < p {
                    assert(v@[a] == old_v[a] && v@[b] == old_v[b]);
                } else if b == p {
                    assert(v@[a] == old_v[a]);
                } else if a == p {
                    assert(v@[b] == old_v[b - 1]);
                    if b - 1 > p {
                        assert(lex_less(old_v[p as int]@, old_v[b - 1]@));
                        lemma_lex_transitive(c@, old_v[p as int]@, old_v[b - 1]@);
                    }
                } else if a < p {
                    assert(v@[a] == old_v[a] && v@[b] == old_v[b - 1]);
                    if p < old_v.len() {
                        if b - 1 > p {
                            assert(lex_less(old_v[p as int]@, old_v[b - 1]@));
                            lemma_lex_transitive(old_v[p as int]@, old_v[p as int]@, old_v[b - 1]@);
                        }
                        lemma_lex_transitive(old_v[a]@, c@, old_v[p as int]@);
                        if b - 1 > p {
                            lemma_lex_transitive(old_v[a]@, old_v[p as int]@, old_v[b - 1]@);
                        }
                    }
                } else {
                    assert(v@[a] == old_v[a - 1] && v@[b] == old_v[b - 1]);
                }
            }
            lemma_insert_members(old_v, p as int, *c, v@);
        }
    }

    /// The index keys, in order.
    pub open spec fn keys(&self) -> Seq<Seq<char>> {
        self.index.entries_view().map_values(|e: (String, IndexEntry)| e.0@)
    }

    /// The full "no component X — did you mean Y?" message.
    pub fn unknown_component_message(&self, id: &ComponentId) -> (res: String)
        ensures
            res@ == self.unknown_message(*id),
    {
        let mut all: Vec<&str> = Vec::new();
        let mut i: usize = 0;
        while i < self.index.components.len()
            invariant
                i <= self.index.entries_view().len(),
                all@.len() == i,
                forall|j: int| 0 <= j < i ==> (#[trigger] all@[j])@ == self.index.entries_view()[j].0@,
            decreases self.index.entries_view().len() - i,
        {
            all.push(self.index.components[i].0.as_str());
            i = i + 1;
        }
        let input = id.to_string();
        let close = did_you_mean(input.as_str(), all.as_slice());
        let mut out = String::new();
        out.push_str("no component '");
        out.push_str(input.as_str());
        match close {
            Some(c) => {
                out.push_str("' — did you mean '");
                out.push_str(c);
                out.push_str("'? Run 'olivaw list ");
                let cat = prefix_before_slash(c);
                out.push_str(cat.as_str());
                out.push_str("' to see all");
            },
            None => {
                out.push_str("'. Run 'olivaw list' to see all components");
            },
        }
        proof {
            assert(crate::suggest::texts(all@) =~= self.keys());
        }
        out
    }

    /// The parsed `component.toml` of `id`. Errors with a did-you-mean
    /// suggestion when the id is not in the index, with the reading or
    /// parsing failure when the file could not be had, and with an
    /// inconsistency when the file declares another category or name.
    pub fn component(&self, id: &ComponentId) -> (res: Result<&Component, RegistryError>)
        ensures
            res is Ok <==> self.is_usable(*id),
            res matches Ok(c) ==> *c == self.spec_component(id.path()),
            res matches Err(e) ==> match e {
                RegistryError::UnknownComponent(m) => !self.is_indexed(id.path()) && m@ == self.unknown_message(*id),
                RegistryError::Load(_) => self.is_indexed(id.path()) && !self.is_loaded(*id),
                RegistryError::Inconsistent(_) => self.is_indexed(id.path()) && self.is_loaded(*id),
                _ => false,
            },
    {
        if self.summary(id).is_none() {
            return Err(RegistryError::UnknownComponent(self.unknown_component_message(id)));
        }
        let mut rel = id.to_string();
        rel.push_str("/component.toml");
        let key = id.to_string();
        match self.find_loaded(key.as_str()) {
            None => {
                let mut m = String::new();
                m.push_str("registry has no readable '");
                m.push_str(rel.as_str());
                m.push_str("' — this is a bug in the registry, please report it");
                Err(RegistryError::Load(m))
            },
            Some(i) => {
                match &self.loaded[i].parsed {
                    Err(msg) => Err(RegistryError::Load(msg.clone())),
                    Ok(c) => {
                        let same = str_eq(c.component.name.as_str(), id.name.as_str())
                            && str_eq(c.component.category.as_str(), id.category.as_str());
                        if !same {
                            let mut m = String::new();
                            m.push_str("registry inconsistency: ");
                            m.push_str(rel.as_str());
                            m.push_str(" declares '");
                            m.push_str(c.component.category.as_str());
                            m.push_str("/");
                            m.push_str(c.component.name.as_str());
                            m.push_str("' — please report this");
                            Err(RegistryError::Inconsistent(m))
                        } else {
                            proof {
                                let k = choose|k: int| self.loaded_slot(id.path(), k);
                                assert(k == i) by {
                                    if k < i { assert(self.loaded@[k].path@ != id.path()); }
                                    if i < k { assert(self.loaded@[i as int].path@ != id.path()); }
                                }
                            }
                            Ok(c)
                        }
                    },
                }
            },
        }
    }

    /// Registry format version from the index.
    pub fn version(&self) -> (res: &str)
        ensures
            res@ == self.index.meta_view().version@,
    {
        self.index.registry.version.as_str()
    }

    /// "embedded" or "cache (<tag>)" for status lines.
    pub fn source_label(&self) -> (res: String)
        ensures
            res@ == match self.source {
                RegistrySource::Embedded => "embedded"@,
                RegistrySource::Cached { tag, .. } => "cache ("@ + tag@ + ")"@,
            },
    {
        let mut out = String::new();
        match &self.source {
            RegistrySource::Embedded => {
                out.push_str("embedded");
            },
            RegistrySource::Cached { tag, .. } => {
                out.push_str("cache (");
                out.push_str(tag.as_str());
                out.push_str(")");
            },
        }
        out
    }
}

} // verus!
