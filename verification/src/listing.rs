//! `list`: the registry's components grouped by category, each category's
//! components ordered by name, marking the ones installed in the project.
use vstd::prelude::*;
use vstd::seq_lib::*;

use crate::registry::{
    ComponentId, Registry, before_first_slash, lemma_before_first_slash_of_id, lemma_lex_transitive,
    lemma_lex_trichotomy, lex_less, str_less, valid_paths,
};
use crate::text::{str_eq, views};
use vstd::string::*;

verus! {

/// One component's line in `list`.
pub struct ListEntry {
    pub name: String,
    pub version: String,
    pub description: String,
    pub installed: bool,
}

/// One category of `list`, its components ordered by name.
pub struct CategoryListing {
    pub category: String,
    pub entries: Vec<ListEntry>,
}

/// The paths of `ps` in category `c`, in order.
pub open spec fn paths_in(ps: Seq<Seq<char>>, c: Seq<char>) -> Seq<Seq<char>>
    decreases ps.len(),
{
    if ps.len() == 0 {
        Seq::empty()
    } else {
        let r = paths_in(ps.drop_last(), c);
        if before_first_slash(ps.last()) == c { r.push(ps.last()) } else { r }
    }
}

/// The component paths of the entries of category `c`.
pub open spec fn entry_paths(c: Seq<char>, es: Seq<ListEntry>) -> Seq<Seq<char>> {
    es.map_values(|e: ListEntry| c + seq!['/'] + e.name@)
}

/// The entries are ordered by name.
pub open spec fn names_sorted(es: Seq<ListEntry>) -> bool {
    forall|a: int, b: int| 0 <= a < b < es.len() ==> !lex_less(#[trigger] es[b].name@, #[trigger] es[a].name@)
}

/// An entry of category `c` shows the index's version and description of
/// its component, and whether the component is installed.
pub open spec fn entry_facts(reg: &Registry, installed: Seq<Seq<char>>, c: Seq<char>, e: ListEntry) -> bool {
    let p = c + seq!['/'] + e.name@;
    &&& exists|i: int| #[trigger] reg.index_slot(p, i)
            && e.version@ == reg.index.entries_view()[i].1.version@
            && e.description@ == reg.index.entries_view()[i].1.description@
    &&& e.installed == installed.contains(p)
}

/// `es` lists category `c` of `reg`: one entry per indexed component of
/// the category, ordered by name.
pub open spec fn is_category_listing(reg: &Registry, installed: Seq<Seq<char>>, c: Seq<char>, es: Seq<ListEntry>) -> bool {
    &&& names_sorted(es)
    &&& entry_paths(c, es).to_multiset() == paths_in(valid_paths(reg.keys()), c).to_multiset()
    &&& forall|k: int| 0 <= k < es.len() ==> entry_facts(reg, installed, c, #[trigger] es[k])
}

/// Insert `e` after every entry whose name does not come after its own.
#[verifier::spinoff_prover]
fn insert_by_name(v: &mut Vec<ListEntry>, e: ListEntry) -> (at: usize)
    requires
        names_sorted(old(v)@),
    ensures
        at <= old(v)@.len(),
        final(v)@ == old(v)@.insert(at as int, e),
        names_sorted(final(v)@),
        final(v)@.to_multiset() == old(v)@.to_multiset().insert(e),
        final(v)@.len() == old(v)@.len() + 1,
        forall|k: int| 0 <= k < final(v)@.len() ==> old(v)@.contains(#[trigger] final(v)@[k]) || final(v)@[k] == e,
{
    let mut p: usize = 0;
    while p < v.len() && !str_less(e.name.as_str(), v[p].name.as_str())
        invariant
            p <= v@.len(),
            forall|a: int| 0 <= a < p ==> !lex_less(e.name@, (#[trigger] v@[a]).name@),
        decreases v@.len() - p,
    {
        p = p + 1;
    }
    let ghost old_v = v@;
    proof {
        to_multiset_insert(old_v, p as int, e);
    }
    v.insert(p, e);
    proof {
        assert forall|a: int, b: int| 0 <= a < b < v@.len() implies !lex_less(#[trigger] v@[b].name@, #[trigger] v@[a].name@) by {
            if b < p {
                assert(v@[a] == old_v[a] && v@[b] == old_v[b]);
            } else if b == p {
                assert(v@[a] == old_v[a]);
            } else if a == p {
                assert(v@[b] == old_v[b - 1]);
                let x = e.name@;
                let y = old_v[p as int].name@;
                let z = old_v[b - 1].name@;
                assert(lex_less(x, y));
                lemma_lex_trichotomy(y, z);
                if lex_less(y, z) {
                    lemma_lex_transitive(x, y, z);
                } else {
                    assert(y == z);
                }
                lemma_lex_trichotomy(x, z);
            } else if a < p {
                assert(v@[a] == old_v[a] && v@[b] == old_v[b - 1]);
                let x = old_v[a].name@;
                let z = old_v[b - 1].name@;
                let m = e.name@;
                let y = old_v[p as int].name@;
                // x <= m < y <= z
                lemma_lex_trichotomy(m, x);
                lemma_lex_trichotomy(y, z);
                if lex_less(x, m) {
                    lemma_lex_transitive(x, m, y);
                } else {
                    lemma_lex_transitive(x, m, y);
                }
                if lex_less(y, z) {
                    lemma_lex_transitive(x, y, z);
                }
                lemma_lex_trichotomy(x, z);
            } else {
                assert(v@[a] == old_v[a - 1] && v@[b] == old_v[b - 1]);
            }
        }
        assert forall|k: int| 0 <= k < v@.len() implies old_v.contains(#[trigger] v@[k]) || v@[k] == e by {
            if k < p {
                assert(v@[k] == old_v[k]);
            } else if k > p {
                assert(v@[k] == old_v[k - 1]);
            }
        }
    }
    p
}

/// The entries of category `c`, ordered by name. `ids` are the registry's
/// component ids, in index order.
fn category_entries(reg: &Registry, ids: &Vec<ComponentId>, installed: &Vec<String>, c: &str) -> (es: Vec<ListEntry>)
    requires
        ids@.map_values(|id: ComponentId| id.path()) == valid_paths(reg.keys()),
        forall|i: int| 0 <= i < ids@.len() ==> (#[trigger] ids@[i]).valid(),
    ensures
        is_category_listing(reg, views(installed@), c@, es@),
{
    let ghost vp = valid_paths(reg.keys());
    let ghost inst = views(installed@);
    let mut out: Vec<ListEntry> = Vec::new();
    let mut i: usize = 0;
    proof {
        assert(entry_paths(c@, out@) =~= Seq::<Seq<char>>::empty());
        assert(vp.take(0) =~= Seq::<Seq<char>>::empty());
        assert(paths_in(vp.take(0), c@) =~= Seq::<Seq<char>>::empty());
    }
    while i < ids.len()
        invariant
            ids@.map_values(|id: ComponentId| id.path()) == vp,
            vp == valid_paths(reg.keys()),
            inst == views(installed@),
            forall|j: int| 0 <= j < ids@.len() ==> (#[trigger] ids@[j]).valid(),
            i <= ids@.len(),
            names_sorted(out@),
            entry_paths(c@, out@).to_multiset() == paths_in(vp.take(i as int), c@).to_multiset(),
            forall|k: int| 0 <= k < out@.len() ==> entry_facts(reg, inst, c@, #[trigger] out@[k]),
        decreases ids@.len() - i,
    {
        let id = &ids[i];
        let ghost t = vp.take(i as int);
        let ghost t1 = vp.take(i + 1);
        proof {
            assert(t1.drop_last() =~= t);
            assert(ids@.map_values(|id: ComponentId| id.path())[i as int] == vp[i as int]);
            assert(t1.last() == id.path());
            lemma_before_first_slash_of_id(*id);
        }
        if str_eq(id.category.as_str(), c) {
            match reg.summary(id) {
                Some(entry) => {
                    let key = id.to_string();
                    let mut found = false;
                    let mut j: usize = 0;
                    while j < installed.len()
                        invariant
                            inst == views(installed@),
                            j <= installed@.len(),
                            found == exists|m: int| 0 <= m < j && inst[m] == key@,
                        decreases installed@.len() - j,
                    {
                        assert(inst[j as int] == installed@[j as int]@);
                        if str_eq(installed[j].as_str(), key.as_str()) {
                            found = true;
                        }
                        j = j + 1;
                    }
                    proof {
                        if found {
                            let m = choose|m: int| 0 <= m < j && inst[m] == key@;
                            assert(inst.contains(key@));
                        }
                    }
                    let e = ListEntry {
                        name: id.name.clone(),
                        version: entry.version.clone(),
                        description: entry.description.clone(),
                        installed: found,
                    };
                    assert(c@ + seq!['/'] + e.name@ == id.path());
                    let ghost before = out@;
                    let at = insert_by_name(&mut out, e);
                    proof {
                        assert(entry_paths(c@, out@) =~= entry_paths(c@, before).insert(at as int, id.path()));
                        to_multiset_insert(entry_paths(c@, before), at as int, id.path());
                        assert(paths_in(t1, c@) == paths_in(t, c@).push(id.path()));
                        to_multiset_build(paths_in(t, c@), id.path());
                        assert forall|k: int| 0 <= k < out@.len() implies entry_facts(reg, inst, c@, #[trigger] out@[k]) by {
                            if k < at {
                                assert(out@[k] == before[k]);
                            } else if k > at {
                                assert(out@[k] == before[k - 1]);
                            }
                        }
                    }
                },
                None => {
                    proof {
                        assert(vp[i as int] == id.path());
                        assert(vp.contains(id.path()));
                        crate::registry::lemma_valid_paths_indexed(reg.keys(), id.path());
                        let m = choose|m: int| 0 <= m < reg.keys().len() && reg.keys()[m] == id.path();
                        assert(reg.index.entries_view()[m].0@ == id.path());
                        assert(reg.is_indexed(id.path()));
                    }
                },
            }
        } else {
            assert(paths_in(t1, c@) == paths_in(t, c@));
        }
        i = i + 1;
    }
    assert(vp.take(ids@.len() as int) =~= vp);
    out
}


/// `parts` joined by `", "`.
pub open spec fn comma_joined(parts: Seq<Seq<char>>) -> Seq<char>
    decreases parts.len(),
{
    if parts.len() == 0 {
        Seq::empty()
    } else if parts.len() == 1 {
        parts[0]
    } else {
        comma_joined(parts.drop_last()) + ", "@ + parts.last()
    }
}

/// The refusal for an unknown category `c`, given the sorted categories:
/// a did-you-mean when one is close, else the list of categories.
pub open spec fn unknown_category_text(c: Seq<char>, cats: Seq<Seq<char>>) -> Seq<char> {
    match crate::suggest::closest_index(c, cats) {
        Some(i) => "no category '"@ + c + "' — did you mean '"@ + cats[i] + "'? Run 'olivaw list' to see all categories"@,
        None => "no category '"@ + c + "'. Categories: "@ + comma_joined(cats),
    }
}

/// `cats` is the registry's categories, sorted, each once.
pub open spec fn is_sorted_categories(reg: &Registry, cats: Seq<Seq<char>>) -> bool {
    &&& forall|i: int, j: int| 0 <= i < j < cats.len() ==> lex_less(#[trigger] cats[i], #[trigger] cats[j])
    &&& cats.to_set() == reg.category_set()
}

/// The categories of the listings.
pub open spec fn listing_categories(ls: Seq<CategoryListing>) -> Seq<Seq<char>> {
    ls.map_values(|l: CategoryListing| l.category@)
}

/// Join with `", "`.
fn join_comma(parts: &Vec<String>) -> (res: String)
    ensures
        res@ == comma_joined(views(parts@)),
{
    let mut out = String::new();
    let mut i: usize = 0;
    while i < parts.len()
        invariant
            i <= parts@.len(),
            out@ == comma_joined(views(parts@.take(i as int))),
        decreases parts@.len() - i,
    {
        let ghost t1 = views(parts@.take(i + 1));
        assert(t1.drop_last() =~= views(parts@.take(i as int)));
        assert(t1.last() == parts@[i as int]@);
        if i > 0 {
            out.push_str(", ");
        }
        out.push_str(parts[i].as_str());
        i = i + 1;
    }
    assert(parts@.take(parts@.len() as int) =~= parts@);
    out
}

/// The components of the registry for `list`, grouped by category in
/// category order, each group ordered by name, marking those whose path is
/// in `installed`. With `category`, only that category; it is an error,
/// with a did-you-mean or the list of categories, when the registry has no
/// such category.
pub fn list_components(reg: &Registry, installed: &Vec<String>, category: Option<&str>)
    -> (res: Result<Vec<CategoryListing>, String>)
    ensures
        res is Err <==> (category matches Some(c) && !reg.category_set().contains(c@)),
        res matches Ok(ls) ==> forall|k: int| 0 <= k < ls@.len()
            ==> is_category_listing(reg, views(installed@), (#[trigger] ls@[k]).category@, ls@[k].entries@),
        res matches Ok(ls) ==> match category {
            Some(c) => listing_categories(ls@) == seq![c@],
            None => is_sorted_categories(reg, listing_categories(ls@)),
        },
        res matches Err(m) ==> exists|cats: Seq<Seq<char>>| is_sorted_categories(reg, cats)
            && m@ == unknown_category_text(category->Some_0@, cats),
{
    let cats = reg.categories();
    let ids = reg.ids();
    match category {
        Some(c) => {
            let mut known = false;
            let mut i: usize = 0;
            while i < cats.len()
                invariant
                    i <= cats@.len(),
                    known == exists|j: int| 0 <= j < i && cats@[j]@ == c@,
                decreases cats@.len() - i,
            {
                if str_eq(cats[i].as_str(), c) {
                    known = true;
                }
                i = i + 1;
            }
            proof {
                if known {
                    let j = choose|j: int| 0 <= j < i && cats@[j]@ == c@;
                    assert(views(cats@)[j] == c@);
                    assert(views(cats@).to_set().contains(c@));
                } else {
                    if views(cats@).to_set().contains(c@) {
                        let j = choose|j: int| 0 <= j < views(cats@).len() && views(cats@)[j] == c@;
                        assert(cats@[j]@ == c@);
                    }
                }
            }
            if !known {
                let mut names: Vec<&str> = Vec::new();
                let mut k: usize = 0;
                while k < cats.len()
                    invariant
                        k <= cats@.len(),
                        names@.len() == k,
                        forall|j: int| 0 <= j < k ==> (#[trigger] names@[j])@ == cats@[j]@,
                    decreases cats@.len() - k,
                {
                    names.push(cats[k].as_str());
                    k = k + 1;
                }
                assert(crate::suggest::texts(names@) =~= views(cats@));
                let close = crate::suggest::did_you_mean(c, names.as_slice());
                let mut m = String::new();
                m.push_str("no category '");
                m.push_str(c);
                match close {
                    Some(near) => {
                        m.push_str("' — did you mean '");
                        m.push_str(near);
                        m.push_str("'? Run 'olivaw list' to see all categories");
                    },
                    None => {
                        m.push_str("'. Categories: ");
                        let all = join_comma(&cats);
                        m.push_str(all.as_str());
                    },
                }
                assert(is_sorted_categories(reg, views(cats@)));
                return Err(m);
            }
            let entries = category_entries(reg, &ids, installed, c);
            let mut out: Vec<CategoryListing> = Vec::new();
            out.push(CategoryListing { category: c.to_owned(), entries });
            assert(listing_categories(out@) =~= seq![c@]);
            Ok(out)
        },
        None => {
            let mut out: Vec<CategoryListing> = Vec::new();
            let mut i: usize = 0;
            while i < cats.len()
                invariant
                    ids@.map_values(|id: ComponentId| id.path()) == valid_paths(reg.keys()),
                    forall|j: int| 0 <= j < ids@.len() ==> (#[trigger] ids@[j]).valid(),
                    i <= cats@.len(),
                    listing_categories(out@) == views(cats@.take(i as int)),
                    forall|k: int| 0 <= k < out@.len()
                        ==> is_category_listing(reg, views(installed@), (#[trigger] out@[k]).category@, out@[k].entries@),
                decreases cats@.len() - i,
            {
                let entries = category_entries(reg, &ids, installed, cats[i].as_str());
                let ghost before = out@;
                let name = cats[i].clone();
                assert(name@ == cats@[i as int]@);
                out.push(CategoryListing { category: name, entries });
                assert(listing_categories(out@) =~= listing_categories(before).push(cats@[i as int]@));
                assert(views(cats@.take(i + 1)) =~= views(cats@.take(i as int)).push(cats@[i as int]@));
                assert(listing_categories(out@) =~= views(cats@.take(i + 1)));
                assert(forall|k: int| 0 <= k < before.len() ==> out@[k] == before[k]);
                i = i + 1;
            }
            assert(cats@.take(cats@.len() as int) =~= cats@);
            Ok(out)
        },
    }
}

/// The width `list` pads names to: the longest name, at least 12.
pub open spec fn name_width_of(ls: Seq<CategoryListing>) -> nat
    decreases ls.len(),
{
    if ls.len() == 0 {
        12
    } else {
        let r = name_width_of(ls.drop_last());
        let m = longest_name(ls.last().entries@);
        if m > r { m } else { r }
    }
}

/// The length of the longest name among `es` (0 when none).
pub open spec fn longest_name(es: Seq<ListEntry>) -> nat
    decreases es.len(),
{
    if es.len() == 0 {
        0
    } else {
        let r = longest_name(es.drop_last());
        let m = es.last().name@.len();
        if m > r { m } else { r }
    }
}

/// The column width for names: the longest name shown, at least 12.
pub fn name_width(ls: &Vec<CategoryListing>) -> (w: usize)
    ensures
        w == name_width_of(ls@),
{
    let mut w: usize = 12;
    let mut i: usize = 0;
    while i < ls.len()
        invariant
            i <= ls@.len(),
            w == name_width_of(ls@.take(i as int)),
        decreases ls@.len() - i,
    {
        assert(ls@.take(i + 1).drop_last() =~= ls@.take(i as int));
        let es = &ls[i].entries;
        let mut m: usize = 0;
        let mut j: usize = 0;
        while j < es.len()
            invariant
                es@ == ls@[i as int].entries@,
                j <= es@.len(),
                m == longest_name(es@.take(j as int)),
            decreases es@.len() - j,
        {
            assert(es@.take(j + 1).drop_last() =~= es@.take(j as int));
            let len = es[j].name.as_str().unicode_len();
            if len > m {
                m = len;
            }
            j = j + 1;
        }
        assert(es@.take(es@.len() as int) =~= es@);
        if m > w {
            w = m;
        }
        i = i + 1;
    }
    assert(ls@.take(ls@.len() as int) =~= ls@);
    w
}
} // verus!
