//! Did-you-mean suggestions for mistyped component and category names:
//! a two-row Levenshtein distance and the closest-candidate pick built on it.
use vstd::prelude::*;

use vstd::string::*;

use crate::text::chars_of;

verus! {

/// The smaller of two naturals.
pub open spec fn min2(x: nat, y: nat) -> nat {
    if x <= y { x } else { y }
}

/// Edit distance (insertions, deletions, substitutions of one character each)
/// between `a` and `b`, defined on the last characters of both.
pub open spec fn edit_distance(a: Seq<char>, b: Seq<char>) -> nat
    decreases a.len() + b.len(),
{
    if a.len() == 0 {
        b.len()
    } else if b.len() == 0 {
        a.len()
    } else {
        let cost: nat = if a.last() == b.last() { 0 } else { 1 };
        min2(
            min2(
                edit_distance(a.drop_last(), b.drop_last()) + cost,
                edit_distance(a.drop_last(), b) + 1,
            ),
            edit_distance(a, b.drop_last()) + 1,
        )
    }
}

/// The distance never exceeds the longer of the two lengths.
pub proof fn lemma_distance_at_most_longer(a: Seq<char>, b: Seq<char>)
    ensures
        edit_distance(a, b) <= if a.len() >= b.len() { a.len() } else { b.len() },
    decreases a.len() + b.len(),
{
    if a.len() != 0 && b.len() != 0 {
        lemma_distance_at_most_longer(a.drop_last(), b.drop_last());
    }
}

/// Distance is symmetric: turning `a` into `b` costs as much as turning
/// `b` into `a`.
pub proof fn law_distance_symmetric(a: Seq<char>, b: Seq<char>)
    ensures
        edit_distance(a, b) == edit_distance(b, a),
    decreases a.len() + b.len(),
{
    if a.len() != 0 && b.len() != 0 {
        law_distance_symmetric(a.drop_last(), b.drop_last());
        law_distance_symmetric(a.drop_last(), b);
        law_distance_symmetric(a, b.drop_last());
    }
}

/// Distance is zero exactly when the two strings are equal.
pub proof fn law_distance_zero_iff_equal(a: Seq<char>, b: Seq<char>)
    ensures
        edit_distance(a, b) == 0 <==> a == b,
    decreases a.len() + b.len(),
{
    if a.len() != 0 && b.len() != 0 {
        law_distance_zero_iff_equal(a.drop_last(), b.drop_last());
        if edit_distance(a, b) == 0 {
            assert(a.drop_last().push(a.last()) =~= a);
            assert(b.drop_last().push(b.last()) =~= b);
        }
        if a == b {
            assert(a.drop_last() =~= b.drop_last());
        }
    } else if a.len() == 0 && b.len() == 0 {
        assert(a =~= b);
    } else if a.len() == 0 {
        assert(a != b) by { assert(a.len() != b.len()); }
    } else {
        assert(a != b) by { assert(a.len() != b.len()); }
    }
}

/// Distance to or from the empty string is the other string's length.
pub proof fn law_distance_from_empty(s: Seq<char>)
    ensures
        edit_distance(Seq::<char>::empty(), s) == s.len(),
        edit_distance(s, Seq::<char>::empty()) == s.len(),
{
}

/// Distance is at least the difference of the two lengths.
pub proof fn law_distance_at_least_length_gap(a: Seq<char>, b: Seq<char>)
    ensures
        edit_distance(a, b) >= a.len() - b.len(),
        edit_distance(a, b) >= b.len() - a.len(),
    decreases a.len() + b.len(),
{
    if a.len() != 0 && b.len() != 0 {
        law_distance_at_least_length_gap(a.drop_last(), b.drop_last());
        law_distance_at_least_length_gap(a.drop_last(), b);
        law_distance_at_least_length_gap(a, b.drop_last());
    }
}

/// Edit distance between `a` and `b`, counted in characters (case-sensitive;
/// callers lowercase first).
pub fn levenshtein(a: &str, b: &str) -> (d: usize)
    requires
        a@.len() < usize::MAX,
        b@.len() < usize::MAX,
    ensures
        d == edit_distance(a@, b@),
{
    let a = chars_of(a);
    let b = chars_of(b);
    let ghost sa = a@;
    let ghost sb = b@;
    if a.len() == 0 {
        assert(sa =~= Seq::<char>::empty());
        return b.len();
    }
    let n = b.len();
    let mut prev: Vec<usize> = Vec::new();
    let mut k: usize = 0;
    while k <= n
        invariant
            n == sb.len(),
            n < usize::MAX,
            k <= n + 1,
            prev@.len() == k,
            forall|j: int| 0 <= j < k ==> prev@[j] == edit_distance(Seq::<char>::empty(), #[trigger] sb.take(j)),
        decreases n + 1 - k,
    {
        prev.push(k);
        k = k + 1;
    }
    assert(sa.take(0) =~= Seq::<char>::empty());
    let mut i: usize = 0;
    while i < a.len()
        invariant
            sa == a@,
            sb == b@,
            n == sb.len(),
            n < usize::MAX,
            sa.len() < usize::MAX,
            i <= sa.len(),
            prev@.len() == n + 1,
            forall|j: int| 0 <= j <= n ==> prev@[j] == edit_distance(sa.take(i as int), #[trigger] sb.take(j)),
        decreases sa.len() - i,
    {
        let ca = a[i];
        let ghost ai = sa.take(i as int);
        let ghost ai1 = sa.take(i + 1);
        assert(ai1.drop_last() =~= ai);
        assert(ai1.last() == ca);
        let mut curr: Vec<usize> = Vec::new();
        assert(sb.take(0) =~= Seq::<char>::empty());
        curr.push(i + 1);
        let mut j: usize = 0;
        while j < n
            invariant
                sa == a@,
                sb == b@,
                n == sb.len(),
                n < usize::MAX,
                i < sa.len(),
                sa.len() < usize::MAX,
                ai == sa.take(i as int),
                ai1 == sa.take(i + 1),
                ai1.drop_last() == ai,
                ai1.last() == ca,
                ai1.len() == i + 1,
                j <= n,
                prev@.len() == n + 1,
                curr@.len() == j + 1,
                forall|t: int| 0 <= t <= n ==> prev@[t] == edit_distance(ai, #[trigger] sb.take(t)),
                forall|t: int| 0 <= t <= j ==> curr@[t] == edit_distance(ai1, #[trigger] sb.take(t)),
            decreases n - j,
        {
            let cb = b[j];
            let ghost bj = sb.take(j as int);
            let ghost bj1 = sb.take(j + 1);
            assert(bj1.drop_last() =~= bj);
            assert(bj1.last() == cb);
            proof {
                lemma_distance_at_most_longer(ai, bj);
                lemma_distance_at_most_longer(ai, bj1);
                lemma_distance_at_most_longer(ai1, bj);
            }
            let cost: usize = if ca != cb { 1 } else { 0 };
            let sub = prev[j] + cost;
            let del = prev[j + 1] + 1;
            let ins = curr[j] + 1;
            let m1 = if sub <= del { sub } else { del };
            let m = if m1 <= ins { m1 } else { ins };
            assert(edit_distance(ai1, bj1) == m);
            curr.push(m);
            j = j + 1;
        }
        prev = curr;
        i = i + 1;
    }
    assert(sa.take(sa.len() as int) =~= sa);
    assert(sb.take(n as int) =~= sb);
    prev[n]
}

/// A string short enough for the distance arithmetic (every string that can
/// exist in memory is).
pub open spec fn fits(s: Seq<char>) -> bool {
    s.len() < usize::MAX
}

/// The most lenient distance still taken as a plausible typo of `input`:
/// a third of its UTF-8 length in bytes, but at least 2.
pub open spec fn typo_threshold(input: Seq<char>) -> int {
    let third = vstd::utf8::encode_utf8(input).len() as int / 3;
    if third >= 2 { third } else { 2 }
}

/// `c` is a plausible typo of `input`: both fit and their distance is within
/// the threshold.
pub open spec fn is_near(input: Seq<char>, c: Seq<char>) -> bool {
    fits(input) && fits(c) && edit_distance(input, c) <= typo_threshold(input)
}

/// `i` is the first index of a near candidate at the smallest distance from
/// `input` among the near ones.
pub open spec fn is_closest(input: Seq<char>, candidates: Seq<Seq<char>>, i: int) -> bool {
    &&& 0 <= i < candidates.len()
    &&& is_near(input, candidates[i])
    &&& forall|j: int| 0 <= j < candidates.len() && is_near(input, #[trigger] candidates[j]) ==>
            edit_distance(input, candidates[j]) >= edit_distance(input, candidates[i])
    &&& forall|j: int| 0 <= j < i && is_near(input, #[trigger] candidates[j]) ==>
            edit_distance(input, candidates[j]) > edit_distance(input, candidates[i])
}

/// The index of the closest near candidate, if any is near.
pub open spec fn closest_index(input: Seq<char>, candidates: Seq<Seq<char>>) -> Option<int> {
    if exists|i: int| is_closest(input, candidates, i) {
        Some(choose|i: int| is_closest(input, candidates, i))
    } else {
        None
    }
}

/// At most one index is the closest.
pub proof fn lemma_closest_unique(input: Seq<char>, candidates: Seq<Seq<char>>, i: int, j: int)
    requires
        is_closest(input, candidates, i),
        is_closest(input, candidates, j),
    ensures
        i == j,
{
    if i < j {
        assert(is_near(input, candidates[i]));
    } else if j < i {
        assert(is_near(input, candidates[j]));
    }
}

/// The characters of each candidate.
pub open spec fn texts(candidates: Seq<&str>) -> Seq<Seq<char>> {
    candidates.map_values(|c: &str| c@)
}

/// The closest candidate to `input`, if it is close enough to be a
/// plausible typo (distance at most 2, or at most a third of the input
/// length for long names). Ties go to the earliest candidate.
pub fn did_you_mean<'a>(input: &str, candidates: &[&'a str]) -> (res: Option<&'a str>)
    ensures
        res is None <==> forall|j: int| 0 <= j < candidates@.len() ==> !is_near(input@, #[trigger] texts(candidates@)[j]),
        res matches Some(c) ==> exists|i: int| is_closest(input@, texts(candidates@), i) && c == candidates@[i],
        match closest_index(input@, texts(candidates@)) {
            Some(i) => res == Some(candidates@[i]),
            None => res is None,
        },
{
    let third = input.as_bytes().len() / 3;
    let threshold = if third >= 2 { third } else { 2 };
    let input_len = input.unicode_len();
    let mut best: Option<(usize, usize)> = None;
    let mut i: usize = 0;
    while i < candidates.len()
        invariant
            i <= candidates@.len(),
            threshold == typo_threshold(input@),
            input_len == input@.len(),
            best is None ==> forall|j: int| 0 <= j < i ==> !is_near(input@, #[trigger] texts(candidates@)[j]),
            best matches Some(p) ==> {
                &&& p.0 < i
                &&& p.1 == edit_distance(input@, candidates@[p.0 as int]@)
                &&& is_near(input@, texts(candidates@)[p.0 as int])
                &&& forall|j: int| 0 <= j < i && is_near(input@, #[trigger] texts(candidates@)[j])
                        ==> edit_distance(input@, texts(candidates@)[j]) >= p.1
                &&& forall|j: int| 0 <= j < p.0 && is_near(input@, #[trigger] texts(candidates@)[j]) ==>
                        edit_distance(input@, texts(candidates@)[j]) > p.1
            },
        decreases candidates@.len() - i,
    {
        let c = candidates[i];
        let c_len = c.unicode_len();
        assert(texts(candidates@)[i as int] == c@);
        if input_len < usize::MAX && c_len < usize::MAX {
            let d = levenshtein(input, c);
            if d <= threshold {
                match best {
                    None => {
                        best = Some((i, d));
                    }
                    Some((bi, bd)) => {
                        if d < bd {
                            best = Some((i, d));
                        }
                    }
                }
            }
        }
        i = i + 1;
    }
    match best {
        None => {
            assert forall|i: int| !is_closest(input@, texts(candidates@), i) by {
                if 0 <= i < candidates@.len() {
                    assert(!is_near(input@, texts(candidates@)[i]));
                }
            }
            None
        },
        Some((bi, bd)) => {
            assert(is_closest(input@, texts(candidates@), bi as int));
            proof {
                let k = choose|i: int| is_closest(input@, texts(candidates@), i);
                lemma_closest_unique(input@, texts(candidates@), k, bi as int);
            }
            Some(candidates[bi])
        }
    }
}

} // verus!
