//! Groups of entities that are similar, directly or by way of others.

use std::collections::HashSet;

use vstd::prelude::*;

use crate::float::Single;

verus! {

broadcast use vstd::std_specs::hash::group_hash_axioms;

/// A measure of how similar two entities are.
pub type Measure = spec_fn(u128, u128) -> Single;

/// The measure that a function computes.
pub open spec fn measure_of<S: Fn(u128, u128) -> Single>(similarity_fn: S) -> Measure {
    |a: u128, b: u128| choose|s: Single| call_ensures(similarity_fn, (a, b), s)
}

/// The function takes all pairs, and gives equal answers to equal questions.
pub open spec fn is_measure<S: Fn(u128, u128) -> Single>(similarity_fn: S) -> bool {
    &&& forall|a: u128, b: u128| #[trigger] call_requires(similarity_fn, (a, b))
    &&& forall|a: u128, b: u128, s: Single, t: Single| #[trigger]
        call_ensures(similarity_fn, (a, b), s) && #[trigger] call_ensures(similarity_fn, (a, b), t)
            ==> s == t
}

/// The answer of a function on one pair.
pub fn ask<S: Fn(u128, u128) -> Single>(similarity_fn: &S, a: u128, b: u128) -> (result: Single)
    requires
        is_measure(*similarity_fn),
    ensures
        result == measure_of(*similarity_fn)(a, b),
{
    (*similarity_fn)(a, b)
}

/// Whether two different entities are more similar than the threshold.
pub open spec fn linked(measure: Measure, threshold: Single, a: u128, b: u128) -> bool {
    a != b && threshold.below(measure(a, b))
}

/// Looks from `id` at the first `n` candidates: those that are linked and were
/// not seen before are seen now, and wait in the order in which they stand.
pub open spec fn scan(
    measure: Measure,
    threshold: Single,
    candidates: Seq<u128>,
    id: u128,
    n: nat,
    seen: Set<u128>,
    waiting: Seq<u128>,
) -> (Set<u128>, Seq<u128>)
    decreases n,
{
    if n == 0 {
        (seen, waiting)
    } else {
        let (s, w) = scan(measure, threshold, candidates, id, (n - 1) as nat, seen, waiting);
        let other = candidates[n - 1];
        if !s.contains(other) && linked(measure, threshold, id, other) {
            (s.insert(other), w.push(other))
        } else {
            (s, w)
        }
    }
}

/// The number of candidates that were not seen yet.
pub open spec fn unseen(candidates: Seq<u128>, seen: Set<u128>) -> nat {
    candidates.to_set().difference(seen).len()
}

/// Lets a group grow: the entity that waits longest in the back joins it and
/// looks at all candidates, until nobody waits.
pub open spec fn grow(
    measure: Measure,
    threshold: Single,
    candidates: Seq<u128>,
    seen: Set<u128>,
    waiting: Seq<u128>,
    group: Seq<u128>,
) -> (Set<u128>, Seq<u128>)
    decreases unseen(candidates, seen), waiting.len(),
    via grow_ends
{
    if waiting.len() == 0 {
        (seen, group)
    } else {
        let (s, w) = scan(
            measure,
            threshold,
            candidates,
            waiting.last(),
            candidates.len(),
            seen,
            waiting.drop_last(),
        );
        grow(measure, threshold, candidates, s, w, group.push(waiting.last()))
    }
}

#[via_fn]
proof fn grow_ends(
    measure: Measure,
    threshold: Single,
    candidates: Seq<u128>,
    seen: Set<u128>,
    waiting: Seq<u128>,
    group: Seq<u128>,
) {
    if waiting.len() > 0 {
        lemma_scan(
            measure,
            threshold,
            candidates,
            waiting.last(),
            candidates.len(),
            seen,
            waiting.drop_last(),
        );
    }
}

/// The groups of at least two that start at one of the first `n` candidates, and
/// who was seen by then.
pub open spec fn gather(
    measure: Measure,
    threshold: Single,
    candidates: Seq<u128>,
    n: nat,
) -> (Set<u128>, Seq<Seq<u128>>)
    decreases n,
{
    if n == 0 {
        (Set::empty(), Seq::empty())
    } else {
        let (seen, groups) = gather(measure, threshold, candidates, (n - 1) as nat);
        let start = candidates[n - 1];
        if seen.contains(start) {
            (seen, groups)
        } else {
            let (s, group) = grow(
                measure,
                threshold,
                candidates,
                seen.insert(start),
                seq![start],
                Seq::empty(),
            );
            if group.len() >= 2 {
                (s, groups.push(group))
            } else {
                (s, groups)
            }
        }
    }
}

/// The groups of candidates, in the order of their first members.
pub open spec fn groups_of(measure: Measure, threshold: Single, candidates: Seq<u128>) -> Seq<
    Seq<u128>,
> {
    gather(measure, threshold, candidates, candidates.len()).1
}

/// What a list of lists holds.
pub open spec fn lists_of(lists: Seq<Vec<u128>>) -> Seq<Seq<u128>> {
    Seq::new(lists.len(), |i: int| lists[i]@)
}

/// Who is new was a candidate, is linked to `id`, was not seen before, and waits
/// once; everybody who is linked has been seen; looking uses up the unseen.
proof fn lemma_scan(
    measure: Measure,
    threshold: Single,
    candidates: Seq<u128>,
    id: u128,
    n: nat,
    seen: Set<u128>,
    waiting: Seq<u128>,
)
    requires
        n <= candidates.len(),
    ensures
        ({
            let (s, w) = scan(measure, threshold, candidates, id, n, seen, waiting);
            &&& seen.subset_of(s)
            &&& waiting.len() <= w.len()
            &&& w.take(waiting.len() as int) == waiting
            &&& forall|k: int|
                waiting.len() <= k < w.len() ==> candidates.contains(#[trigger] w[k]) && linked(
                    measure,
                    threshold,
                    id,
                    w[k],
                ) && !seen.contains(w[k])
            &&& forall|k: int, l: int|
                waiting.len() <= k < l < w.len() ==> #[trigger] w[k] != #[trigger] w[l]
            &&& forall|x: u128| #[trigger]
                s.contains(x) <==> seen.contains(x) || (exists|k: int|
                    waiting.len() <= k < w.len() && #[trigger] w[k] == x)
            &&& forall|k: int|
                0 <= k < n && linked(measure, threshold, id, #[trigger] candidates[k])
                    ==> s.contains(candidates[k])
            &&& unseen(candidates, s) <= unseen(candidates, seen)
            &&& w.len() > waiting.len() ==> unseen(candidates, s) < unseen(candidates, seen)
        }),
    decreases n,
{
    if n == 0 {
        assert(waiting.take(waiting.len() as int) =~= waiting);
    } else {
        lemma_scan(measure, threshold, candidates, id, (n - 1) as nat, seen, waiting);
        let (s, w) = scan(measure, threshold, candidates, id, (n - 1) as nat, seen, waiting);
        let other = candidates[n - 1];
        if !s.contains(other) && linked(measure, threshold, id, other) {
            let t = s.insert(other);
            let v = w.push(other);
            assert(v.take(waiting.len() as int) =~= w.take(waiting.len() as int));
            assert(candidates.contains(other));
            assert forall|x: u128| #[trigger] t.contains(x) <==> seen.contains(x) || (exists|k: int|
                waiting.len() <= k < v.len() && #[trigger] v[k] == x) by {
                if x == other {
                    assert(v[w.len() as int] == x);
                }
                if s.contains(x) && !seen.contains(x) {
                    let k = choose|k: int| waiting.len() <= k < w.len() && #[trigger] w[k] == x;
                    assert(v[k] == x);
                }
                if exists|k: int| waiting.len() <= k < v.len() && #[trigger] v[k] == x {
                    let k = choose|k: int| waiting.len() <= k < v.len() && #[trigger] v[k] == x;
                    if k < w.len() {
                        assert(w[k] == x);
                    }
                }
            }
            assert forall|k: int, l: int| waiting.len() <= k < l < v.len() implies #[trigger] v[k]
                != #[trigger] v[l] by {
                if l < w.len() {
                    assert(w[k] != w[l]);
                } else {
                    assert(w[k] == v[k]);
                    assert(s.contains(w[k]));
                }
            }
            assert(candidates.to_set().contains(other));
            assert(candidates.to_set().difference(t) =~= candidates.to_set().difference(s).remove(
                other,
            ));
        }
    }
}

/// The groups of candidates that are similar, directly or by way of others.
pub fn connected_similarity_components<S: Fn(u128, u128) -> Single>(
    candidates: &Vec<u128>,
    similarity_threshold: Single,
    similarity_fn: &S,
) -> (clusters: Vec<Vec<u128>>)
    requires
        is_measure(*similarity_fn),
    ensures
        lists_of(clusters@) == groups_of(
            measure_of(*similarity_fn),
            similarity_threshold,
            candidates@,
        ),
{
    let ghost measure = measure_of(*similarity_fn);
    let mut clusters: Vec<Vec<u128>> = Vec::new();
    let mut visited: HashSet<u128> = HashSet::new();
    let mut i: usize = 0;
    assert(lists_of(clusters@) =~= Seq::empty());
    while i < candidates.len()
        invariant
            i <= candidates@.len(),
            is_measure(*similarity_fn),
            measure == measure_of(*similarity_fn),
            gather(measure, similarity_threshold, candidates@, i as nat) == (
                visited@,
                lists_of(clusters@),
            ),
        decreases candidates@.len() - i,
    {
        let start: u128 = candidates[i];
        i += 1;
        if visited.contains(&start) {
            continue ;
        }
        visited.insert(start);
        let mut cluster: Vec<u128> = Vec::new();
        let mut frontier: Vec<u128> = Vec::new();
        frontier.push(start);
        let ghost goal = grow(
            measure,
            similarity_threshold,
            candidates@,
            visited@,
            frontier@,
            cluster@,
        );
        assert(frontier@ =~= seq![start]);
        loop
            invariant
                is_measure(*similarity_fn),
                measure == measure_of(*similarity_fn),
                goal == grow(
                    measure,
                    similarity_threshold,
                    candidates@,
                    visited@,
                    frontier@,
                    cluster@,
                ),
            ensures
                goal == (visited@, cluster@),
            decreases unseen(candidates@, visited@), frontier@.len(),
        {
            let ghost seen = visited@;
            let ghost waiting = frontier@;
            let id: u128 = match frontier.pop() {
                None => {
                    break ;
                },
                Some(id) => id,
            };
            proof {
                lemma_scan(
                    measure,
                    similarity_threshold,
                    candidates@,
                    id,
                    candidates@.len(),
                    seen,
                    frontier@,
                );
            }
            cluster.push(id);
            let ghost rest = frontier@;
            let mut k: usize = 0;
            while k < candidates.len()
                invariant
                    k <= candidates@.len(),
                    is_measure(*similarity_fn),
                    measure == measure_of(*similarity_fn),
                    scan(measure, similarity_threshold, candidates@, id, k as nat, seen, rest) == (
                        visited@,
                        frontier@,
                    ),
                decreases candidates@.len() - k,
            {
                let other: u128 = candidates[k];
                k += 1;
                if visited.contains(&other) || id == other {
                    continue ;
                }
                if similarity_threshold.lt(&ask(similarity_fn, id, other)) {
                    visited.insert(other);
                    frontier.push(other);
                }
            }
        }
        let ghost before = clusters@;
        if cluster.len() >= 2 {
            clusters.push(cluster);
            assert(lists_of(clusters@) =~= lists_of(before).push(cluster@));
        }
    }
    clusters
}

// ---------------------------------------------------------------------------
// Laws
// ---------------------------------------------------------------------------

/// A measure that does not depend on the order of the two entities.
pub open spec fn symmetric(measure: Measure) -> bool {
    forall|a: u128, b: u128| #[trigger] measure(a, b) == measure(b, a)
}

/// Whether a chain of so many links leads from one candidate to another.
pub open spec fn chained(
    measure: Measure,
    threshold: Single,
    candidates: Seq<u128>,
    a: u128,
    b: u128,
    links: nat,
) -> bool
    decreases links,
{
    if links == 0 {
        a == b
    } else {
        candidates.contains(b) && exists|c: u128|
            chained(measure, threshold, candidates, a, c, (links - 1) as nat) && #[trigger] linked(
                measure,
                threshold,
                c,
                b,
            )
    }
}

/// Whether a chain of links leads from one candidate to another.
pub open spec fn connected(
    measure: Measure,
    threshold: Single,
    candidates: Seq<u128>,
    a: u128,
    b: u128,
) -> bool {
    exists|links: nat| chained(measure, threshold, candidates, a, b, links)
}

/// Whoever somebody in the set is linked to is in the set.
pub open spec fn closed(
    measure: Measure,
    threshold: Single,
    candidates: Seq<u128>,
    set: Set<u128>,
) -> bool {
    forall|a: u128, b: u128|
        set.contains(a) && candidates.contains(b) && #[trigger] linked(measure, threshold, a, b)
            ==> set.contains(b)
}

/// A group is a component: candidates, each once and connected with the first
/// one, together with everybody that one of them is linked to.
pub open spec fn component(
    measure: Measure,
    threshold: Single,
    candidates: Seq<u128>,
    group: Seq<u128>,
) -> bool {
    &&& group.len() >= 1
    &&& group.no_duplicates()
    &&& forall|k: int|
        0 <= k < group.len() ==> candidates.contains(#[trigger] group[k]) && connected(
            measure,
            threshold,
            candidates,
            group[0],
            group[k],
        )
    &&& forall|a: u128, b: u128|
        group.contains(a) && candidates.contains(b) && #[trigger] linked(measure, threshold, a, b)
            ==> group.contains(b)
}

proof fn lemma_concat_contains(a: Seq<u128>, b: Seq<u128>, x: u128)
    ensures
        (a + b).contains(x) <==> a.contains(x) || b.contains(x),
{
    let c = a + b;
    if c.contains(x) {
        let k = choose|k: int| 0 <= k < c.len() && c[k] == x;
        if k < a.len() {
            assert(a[k] == x);
        } else {
            assert(b[k - a.len()] == x);
        }
    }
    if a.contains(x) {
        let k = choose|k: int| 0 <= k < a.len() && a[k] == x;
        assert(c[k] == x);
    }
    if b.contains(x) {
        let k = choose|k: int| 0 <= k < b.len() && b[k] == x;
        assert(c[a.len() + k] == x);
    }
}

/// What holds while a group grows that starts at `start`, where `base` was seen
/// before.
spec fn growing(
    measure: Measure,
    threshold: Single,
    candidates: Seq<u128>,
    base: Set<u128>,
    start: u128,
    seen: Set<u128>,
    waiting: Seq<u128>,
    group: Seq<u128>,
) -> bool {
    &&& (group + waiting).no_duplicates()
    &&& forall|x: u128| #[trigger]
        seen.contains(x) <==> base.contains(x) || (group + waiting).contains(x)
    &&& forall|x: u128| #[trigger] (group + waiting).contains(x) ==> !base.contains(x)
        && candidates.contains(x) && connected(measure, threshold, candidates, start, x)
    &&& forall|a: u128, b: u128|
        group.contains(a) && candidates.contains(b) && #[trigger] linked(measure, threshold, a, b)
            ==> seen.contains(b)
    &&& (group + waiting).len() > 0
    &&& (group + waiting)[0] == start
}

proof fn lemma_growing_step(
    measure: Measure,
    threshold: Single,
    candidates: Seq<u128>,
    base: Set<u128>,
    start: u128,
    seen: Set<u128>,
    waiting: Seq<u128>,
    group: Seq<u128>,
)
    requires
        waiting.len() > 0,
        group.len() == 0 ==> waiting.len() == 1,
        growing(measure, threshold, candidates, base, start, seen, waiting, group),
    ensures
        ({
            let (s, w) = scan(
                measure,
                threshold,
                candidates,
                waiting.last(),
                candidates.len(),
                seen,
                waiting.drop_last(),
            );
            growing(
                measure,
                threshold,
                candidates,
                base,
                start,
                s,
                w,
                group.push(waiting.last()),
            )
        }),
{
    let id = waiting.last();
    let rest = waiting.drop_last();
    let (s, w) = scan(measure, threshold, candidates, id, candidates.len(), seen, rest);
    lemma_scan(measure, threshold, candidates, id, candidates.len(), seen, rest);
    let old_all = group + waiting;
    let larger = group.push(id);
    let all = larger + w;
    let fresh = w.skip(rest.len() as int);
    assert(w =~= rest + fresh) by {
        assert(w.take(rest.len() as int) == rest);
        assert(w =~= w.take(rest.len() as int) + fresh);
    }
    assert forall|x: u128| #[trigger] all.contains(x) <==> old_all.contains(x) || fresh.contains(
        x,
    ) by {
        lemma_concat_contains(larger, w, x);
        lemma_concat_contains(rest, fresh, x);
        lemma_concat_contains(group, waiting, x);
        lemma_concat_contains(group, seq![id], x);
        lemma_concat_contains(rest, seq![id], x);
        assert(larger =~= group + seq![id]);
        assert(waiting =~= rest + seq![id]);
    }
    assert forall|x: u128| #[trigger] fresh.contains(x) implies !seen.contains(x)
        && candidates.contains(x) && linked(measure, threshold, id, x) by {
        let k = choose|k: int| 0 <= k < fresh.len() && fresh[k] == x;
        assert(w[rest.len() + k] == x);
    }
    assert(old_all[old_all.len() - 1] == id);
    assert(old_all.contains(id));
    let links = choose|links: nat| chained(measure, threshold, candidates, start, id, links);
    assert forall|x: u128| #[trigger] all.contains(x) implies !base.contains(x)
        && candidates.contains(x) && connected(measure, threshold, candidates, start, x) by {
        if old_all.contains(x) {
        } else {
            assert(fresh.contains(x));
            assert(linked(measure, threshold, id, x));
            assert(chained(measure, threshold, candidates, start, x, links + 1));
        }
    }
    assert forall|x: u128| #[trigger] s.contains(x) <==> base.contains(x) || all.contains(x) by {
        if fresh.contains(x) {
            let k = choose|k: int| 0 <= k < fresh.len() && fresh[k] == x;
            assert(w[rest.len() + k] == x);
        }
        if s.contains(x) && !seen.contains(x) {
            let k = choose|k: int| rest.len() <= k < w.len() && #[trigger] w[k] == x;
            assert(fresh[k - rest.len()] == x);
        }
    }
    assert forall|a: u128, b: u128|
        larger.contains(a) && candidates.contains(b) && #[trigger] linked(
            measure,
            threshold,
            a,
            b,
        ) implies s.contains(b) by {
        lemma_concat_contains(group, seq![id], a);
        assert(larger =~= group + seq![id]);
        if group.contains(a) {
        } else {
            assert(a == id);
            let k = choose|k: int| 0 <= k < candidates.len() && candidates[k] == b;
            assert(linked(measure, threshold, id, candidates[k]));
        }
    }
    assert forall|i: int, j: int| 0 <= i < all.len() && 0 <= j < all.len() && i
        != j implies all[i] != all[j] by {
        let n = old_all.len();
        let oi = if i < group.len() {
            i
        } else if i == group.len() {
            n - 1
        } else {
            i - 1
        };
        let oj = if j < group.len() {
            j
        } else if j == group.len() {
            n - 1
        } else {
            j - 1
        };
        if i <= group.len() + rest.len() {
            assert(all[i] == old_all[oi]);
        }
        if j <= group.len() + rest.len() {
            assert(all[j] == old_all[oj]);
        }
        if i <= group.len() + rest.len() && j <= group.len() + rest.len() {
            assert(old_all[oi] != old_all[oj]);
        } else if i <= group.len() + rest.len() {
            let l = j - larger.len();
            assert(all[j] == w[l]);
            assert(!seen.contains(w[l]));
            assert(old_all.contains(all[i]));
        } else if j <= group.len() + rest.len() {
            let l = i - larger.len();
            assert(all[i] == w[l]);
            assert(!seen.contains(w[l]));
            assert(old_all.contains(all[j]));
        } else {
            assert(all[i] == w[i - larger.len()]);
            assert(all[j] == w[j - larger.len()]);
        }
    }
}

proof fn lemma_grown(
    measure: Measure,
    threshold: Single,
    candidates: Seq<u128>,
    base: Set<u128>,
    start: u128,
    seen: Set<u128>,
    waiting: Seq<u128>,
    group: Seq<u128>,
)
    requires
        growing(measure, threshold, candidates, base, start, seen, waiting, group),
        group.len() == 0 ==> waiting.len() == 1,
    ensures
        ({
            let (s, g) = grow(measure, threshold, candidates, seen, waiting, group);
            growing(measure, threshold, candidates, base, start, s, Seq::empty(), g)
        }),
    decreases unseen(candidates, seen), waiting.len(),
{
    if waiting.len() == 0 {
        assert(group + Seq::<u128>::empty() =~= group + waiting);
    } else {
        let (s, w) = scan(
            measure,
            threshold,
            candidates,
            waiting.last(),
            candidates.len(),
            seen,
            waiting.drop_last(),
        );
        lemma_scan(
            measure,
            threshold,
            candidates,
            waiting.last(),
            candidates.len(),
            seen,
            waiting.drop_last(),
        );
        lemma_growing_step(measure, threshold, candidates, base, start, seen, waiting, group);
        lemma_grown(
            measure,
            threshold,
            candidates,
            base,
            start,
            s,
            w,
            group.push(waiting.last()),
        );
    }
}

/// A group that starts at a candidate has it in front, and nobody seen before.
proof fn lemma_group(
    measure: Measure,
    threshold: Single,
    candidates: Seq<u128>,
    base: Set<u128>,
    start: u128,
)
    requires
        candidates.contains(start),
        !base.contains(start),
    ensures
        ({
            let (s, g) = grow(
                measure,
                threshold,
                candidates,
                base.insert(start),
                seq![start],
                Seq::empty(),
            );
            growing(measure, threshold, candidates, base, start, s, Seq::empty(), g)
        }),
{
    let none = Seq::<u128>::empty();
    assert(none + seq![start] =~= seq![start]);
    assert(seq![start][0] == start);
    assert(chained(measure, threshold, candidates, start, start, 0));
    assert forall|x: u128| #[trigger] (none + seq![start]).contains(x) <==> x == start by {
        assert((none + seq![start])[0] == start);
    }
    assert(growing(
        measure,
        threshold,
        candidates,
        base,
        start,
        base.insert(start),
        seq![start],
        none,
    ));
    lemma_grown(
        measure,
        threshold,
        candidates,
        base,
        start,
        base.insert(start),
        seq![start],
        none,
    );
}

/// What holds of the groups that start at one of the first `n` candidates.
spec fn gathered(
    measure: Measure,
    threshold: Single,
    candidates: Seq<u128>,
    n: nat,
    seen: Set<u128>,
    groups: Seq<Seq<u128>>,
) -> bool {
    &&& closed(measure, threshold, candidates, seen)
    &&& forall|k: int| 0 <= k < n ==> seen.contains(#[trigger] candidates[k])
    &&& forall|i: int|
        0 <= i < groups.len() ==> (#[trigger] groups[i]).len() >= 2 && component(
            measure,
            threshold,
            candidates,
            groups[i],
        ) && groups[i].to_set().subset_of(seen)
    &&& forall|i: int, j: int, x: u128|
        0 <= i < j < groups.len() ==> !(#[trigger] groups[i].contains(x)
            && #[trigger] groups[j].contains(x))
    &&& forall|a: u128, b: u128|
        seen.contains(a) && candidates.contains(b) && #[trigger] linked(measure, threshold, a, b)
            ==> exists|i: int| 0 <= i < groups.len() && (#[trigger] groups[i]).contains(a)
}

proof fn lemma_gathered(measure: Measure, threshold: Single, candidates: Seq<u128>, n: nat)
    requires
        symmetric(measure),
        n <= candidates.len(),
    ensures
        ({
            let (seen, groups) = gather(measure, threshold, candidates, n);
            gathered(measure, threshold, candidates, n, seen, groups)
        }),
    decreases n,
{
    if n > 0 {
        lemma_gathered(measure, threshold, candidates, (n - 1) as nat);
        let (base, groups) = gather(measure, threshold, candidates, (n - 1) as nat);
        let start = candidates[n - 1];
        if !base.contains(start) {
            let none = Seq::<u128>::empty();
            let (s, g) = grow(
                measure,
                threshold,
                candidates,
                base.insert(start),
                seq![start],
                none,
            );
            lemma_group(measure, threshold, candidates, base, start);
            assert(g + none =~= g);
            assert forall|a: u128, b: u128|
                g.contains(a) && candidates.contains(b) && #[trigger] linked(
                    measure,
                    threshold,
                    a,
                    b,
                ) implies g.contains(b) by {
                assert(s.contains(b));
                if base.contains(b) {
                    assert(measure(a, b) == measure(b, a));
                    assert(linked(measure, threshold, b, a));
                    assert((g + none).contains(a));
                }
            }
            assert(component(measure, threshold, candidates, g)) by {
                assert forall|k: int| 0 <= k < g.len() implies candidates.contains(#[trigger] g[k])
                    && connected(measure, threshold, candidates, g[0], g[k]) by {
                    assert(g.contains(g[k]));
                    assert((g + none).contains(g[k]));
                }
            }
            assert(closed(measure, threshold, candidates, s)) by {
                assert forall|a: u128, b: u128|
                    s.contains(a) && candidates.contains(b) && #[trigger] linked(
                        measure,
                        threshold,
                        a,
                        b,
                    ) implies s.contains(b) by {
                    if base.contains(a) {
                        assert(base.contains(b));
                    } else {
                        assert((g + none).contains(a));
                        assert(g.contains(b));
                        assert((g + none).contains(b));
                    }
                }
            }
            assert((g + none).contains(start)) by {
                assert((g + none)[0] == start);
            }
            assert(g.to_set().subset_of(s)) by {
                assert forall|x: u128| g.to_set().contains(x) implies s.contains(x) by {
                    assert((g + none).contains(x));
                }
            }
            let after = if g.len() >= 2 {
                groups.push(g)
            } else {
                groups
            };
            assert forall|i: int, j: int, x: u128| 0 <= i < j < after.len() implies !(
            #[trigger] after[i].contains(x) && #[trigger] after[j].contains(x)) by {
                if j == groups.len() && after[i].contains(x) && after[j].contains(x) {
                    assert(groups[i].to_set().contains(x));
                    assert(base.contains(x));
                    assert((g + none).contains(x));
                } else if j < groups.len() {
                    assert(!(groups[i].contains(x) && groups[j].contains(x)));
                }
            }
            assert forall|a: u128, b: u128|
                s.contains(a) && candidates.contains(b) && #[trigger] linked(
                    measure,
                    threshold,
                    a,
                    b,
                ) implies exists|i: int|
                0 <= i < after.len() && (#[trigger] after[i]).contains(a) by {
                if base.contains(a) {
                    let i = choose|i: int| 0 <= i < groups.len() && (#[trigger] groups[i]).contains(
                        a,
                    );
                    assert(after[i].contains(a));
                } else {
                    assert((g + none).contains(a));
                    assert(g.contains(a));
                    assert(g.contains(b));
                    let k = choose|k: int| 0 <= k < g.len() && g[k] == a;
                    let l = choose|l: int| 0 <= l < g.len() && g[l] == b;
                    assert(k != l);
                    assert(after[groups.len() as int].contains(a));
                }
            }
            assert forall|i: int| 0 <= i < after.len() implies (#[trigger] after[i]).len() >= 2
                && component(measure, threshold, candidates, after[i])
                && after[i].to_set().subset_of(s) by {
                if i < groups.len() {
                    assert(after[i] == groups[i]);
                    assert forall|x: u128| after[i].to_set().contains(x) implies s.contains(x) by {
                        assert(base.contains(x));
                    }
                }
            }
        }
    }
}

/// Single linkage: where the measure does not depend on the order of the
/// entities, the groups are the connected components of at least two candidates.
/// Every group is a component, no candidate is in two of them, and everybody who
/// is linked to another candidate is in one.
pub proof fn groups_are_components(measure: Measure, threshold: Single, candidates: Seq<u128>)
    requires
        symmetric(measure),
    ensures
        ({
            let groups = groups_of(measure, threshold, candidates);
            &&& forall|i: int|
                0 <= i < groups.len() ==> (#[trigger] groups[i]).len() >= 2 && component(
                    measure,
                    threshold,
                    candidates,
                    groups[i],
                )
            &&& forall|i: int, j: int, x: u128|
                0 <= i < j < groups.len() ==> !(#[trigger] groups[i].contains(x)
                    && #[trigger] groups[j].contains(x))
            &&& forall|a: u128, b: u128|
                candidates.contains(a) && candidates.contains(b) && #[trigger] linked(
                    measure,
                    threshold,
                    a,
                    b,
                ) ==> exists|i: int| 0 <= i < groups.len() && (#[trigger] groups[i]).contains(a)
        }),
{
    lemma_gathered(measure, threshold, candidates, candidates.len());
    let (seen, groups) = gather(measure, threshold, candidates, candidates.len());
    assert(groups == groups_of(measure, threshold, candidates));
    assert forall|a: u128, b: u128|
        candidates.contains(a) && candidates.contains(b) && #[trigger] linked(
            measure,
            threshold,
            a,
            b,
        ) implies exists|i: int| 0 <= i < groups.len() && (#[trigger] groups[i]).contains(a) by {
        let k = choose|k: int| 0 <= k < candidates.len() && candidates[k] == a;
        assert(seen.contains(candidates[k]));
    }
}

/// Whether a group starts with the candidate at a place, and has no member that
/// stands at an earlier place.
pub open spec fn starts_at(candidates: Seq<u128>, group: Seq<u128>, place: int) -> bool {
    &&& 0 <= place < candidates.len()
    &&& group.len() > 0
    &&& group[0] == candidates[place]
    &&& forall|k: int| 0 <= k < place ==> !group.contains(#[trigger] candidates[k])
}

/// Whether a group starts with the earliest of its members.
pub open spec fn starts_somewhere(candidates: Seq<u128>, group: Seq<u128>) -> bool {
    exists|place: int| starts_at(candidates, group, place)
}

/// Whether groups start at one of the first `n` places, each at its own, in the
/// order of these places.
spec fn in_places(candidates: Seq<u128>, n: nat, groups: Seq<Seq<u128>>, places: Seq<int>) -> bool {
    &&& places.len() == groups.len()
    &&& forall|i: int|
        0 <= i < groups.len() ==> 0 <= #[trigger] places[i] < n && starts_at(
            candidates,
            groups[i],
            places[i],
        )
    &&& forall|i: int, j: int| 0 <= i < j < groups.len() ==> places[i] < places[j]
}

proof fn lemma_places(measure: Measure, threshold: Single, candidates: Seq<u128>, n: nat) -> (places:
    Seq<int>)
    requires
        n <= candidates.len(),
    ensures
        ({
            let (seen, groups) = gather(measure, threshold, candidates, n);
            &&& in_places(candidates, n, groups, places)
            &&& forall|k: int| 0 <= k < n ==> seen.contains(#[trigger] candidates[k])
        }),
    decreases n,
{
    if n == 0 {
        Seq::empty()
    } else {
        let places = lemma_places(measure, threshold, candidates, (n - 1) as nat);
        let (base, groups) = gather(measure, threshold, candidates, (n - 1) as nat);
        let start = candidates[n - 1];
        if base.contains(start) {
            places
        } else {
            let none = Seq::<u128>::empty();
            let (s, g) = grow(
                measure,
                threshold,
                candidates,
                base.insert(start),
                seq![start],
                none,
            );
            assert(candidates.contains(start));
            lemma_group(measure, threshold, candidates, base, start);
            assert(g + none =~= g);
            assert((g + none).contains(start)) by {
                assert((g + none)[0] == start);
            }
            assert forall|k: int| 0 <= k < n - 1 implies !g.contains(#[trigger] candidates[k]) by {
                assert(base.contains(candidates[k]));
                assert((g + none).contains(candidates[k]) ==> !base.contains(candidates[k]));
            }
            if g.len() >= 2 {
                places.push(n - 1)
            } else {
                places
            }
        }
    }
}

/// Every group starts with the earliest of its members, and the groups stand in
/// the order in which these stand among the candidates.
pub proof fn groups_start_with_the_earliest(
    measure: Measure,
    threshold: Single,
    candidates: Seq<u128>,
)
    ensures
        ({
            let groups = groups_of(measure, threshold, candidates);
            &&& forall|i: int|
                0 <= i < groups.len() ==> starts_somewhere(candidates, #[trigger] groups[i])
            &&& forall|i: int, j: int, earlier: int, later: int|
                0 <= i < j < groups.len() && #[trigger] starts_at(candidates, groups[i], earlier)
                    && #[trigger] starts_at(candidates, groups[j], later) ==> earlier < later
        }),
{
    let groups = groups_of(measure, threshold, candidates);
    let places = lemma_places(measure, threshold, candidates, candidates.len());
    assert forall|i: int| 0 <= i < groups.len() implies starts_somewhere(
        candidates,
        #[trigger] groups[i],
    ) by {
        assert(starts_at(candidates, groups[i], places[i]));
    }
    assert forall|i: int, j: int, earlier: int, later: int|
        0 <= i < j < groups.len() && #[trigger] starts_at(candidates, groups[i], earlier)
            && #[trigger] starts_at(candidates, groups[j], later) implies earlier < later by {
        lemma_one_start(candidates, groups[i], earlier, places[i]);
        lemma_one_start(candidates, groups[j], later, places[j]);
    }
}

proof fn lemma_one_start(candidates: Seq<u128>, group: Seq<u128>, a: int, b: int)
    requires
        starts_at(candidates, group, a),
        starts_at(candidates, group, b),
    ensures
        a == b,
{
    assert(group.contains(group[0]));
    if a < b {
        assert(!group.contains(candidates[a]));
    } else if b < a {
        assert(!group.contains(candidates[b]));
    }
}

/// Whoever is connected with a member of a component is a member too.
pub proof fn components_are_whole(
    measure: Measure,
    threshold: Single,
    candidates: Seq<u128>,
    group: Seq<u128>,
    a: u128,
    b: u128,
    links: nat,
)
    requires
        component(measure, threshold, candidates, group),
        group.contains(a),
        chained(measure, threshold, candidates, a, b, links),
    ensures
        group.contains(b),
    decreases links,
{
    if links > 0 {
        let c = choose|c: u128|
            chained(measure, threshold, candidates, a, c, (links - 1) as nat) && #[trigger] linked(
                measure,
                threshold,
                c,
                b,
            );
        components_are_whole(
            measure,
            threshold,
            candidates,
            group,
            a,
            c,
            (links - 1) as nat,
        );
    }
}

/// Where a chain leads from one candidate to another one, the first has a neighbour.
proof fn lemma_first_link(
    measure: Measure,
    threshold: Single,
    candidates: Seq<u128>,
    a: u128,
    b: u128,
    links: nat,
) -> (c: u128)
    requires
        chained(measure, threshold, candidates, a, b, links),
        a != b,
    ensures
        linked(measure, threshold, a, c),
        candidates.contains(c),
        exists|n: nat| n == 1 && #[trigger] chained(measure, threshold, candidates, a, c, n),
    decreases links,
{
    let c = choose|c: u128|
        chained(measure, threshold, candidates, a, c, (links - 1) as nat) && #[trigger] linked(
            measure,
            threshold,
            c,
            b,
        );
    if c == a {
        assert(chained(measure, threshold, candidates, a, a, 0));
        assert(chained(measure, threshold, candidates, a, b, 1));
        b
    } else {
        lemma_first_link(measure, threshold, candidates, a, c, (links - 1) as nat)
    }
}

/// Whether some other member of a group is more similar than the threshold.
pub open spec fn has_neighbour(
    measure: Measure,
    threshold: Single,
    group: Seq<u128>,
    x: u128,
) -> bool {
    exists|b: u128| #[trigger] group.contains(b) && b != x && threshold.below(measure(x, b))
}

/// Whether some group has both.
pub open spec fn share_a_group(groups: Seq<Seq<u128>>, a: u128, b: u128) -> bool {
    exists|g: int|
        0 <= g < groups.len() && (#[trigger] groups[g]).contains(a) && groups[g].contains(b)
}

/// Groups are made by similarity. Every member is more similar than the threshold to some
/// other member of its group, and of any two candidates that are more similar than that,
/// some group has both.
pub proof fn members_are_similar(measure: Measure, threshold: Single, candidates: Seq<u128>)
    requires
        symmetric(measure),
    ensures
        ({
            let groups = groups_of(measure, threshold, candidates);
            &&& forall|g: int, k: int|
                #![trigger groups[g][k]]
                0 <= g < groups.len() && 0 <= k < groups[g].len() ==> has_neighbour(
                    measure,
                    threshold,
                    groups[g],
                    groups[g][k],
                )
            &&& forall|a: u128, b: u128|
                candidates.contains(a) && candidates.contains(b) && a != b && threshold.below(
                    #[trigger] measure(a, b),
                ) ==> share_a_group(groups, a, b)
        }),
{
    groups_are_components(measure, threshold, candidates);
    let groups = groups_of(measure, threshold, candidates);
    assert forall|g: int, k: int|
        #![trigger groups[g][k]]
        0 <= g < groups.len() && 0 <= k < groups[g].len() implies has_neighbour(
        measure,
        threshold,
        groups[g],
        groups[g][k],
    ) by {
        let group = groups[g];
        assert(component(measure, threshold, candidates, group));
        if k == 0 {
            let other = group[1];
            assert(group[0] != group[1]);
            assert(connected(measure, threshold, candidates, group[0], group[1]));
            let links = choose|links: nat|
                chained(measure, threshold, candidates, group[0], other, links);
            let c = lemma_first_link(measure, threshold, candidates, group[0], other, links);
            assert(group.contains(group[0]));
            components_are_whole(measure, threshold, candidates, group, group[0], c, 1);
            assert(group.contains(c) && c != group[k] && threshold.below(measure(group[k], c)));
        } else {
            let x = group[k];
            assert(group[0] != x);
            assert(connected(measure, threshold, candidates, group[0], group[k]));
            let links = choose|links: nat|
                chained(measure, threshold, candidates, group[0], x, links);
            let c = choose|c: u128|
                chained(measure, threshold, candidates, group[0], c, (links - 1) as nat)
                    && #[trigger] linked(measure, threshold, c, x);
            assert(group.contains(group[0]));
            components_are_whole(
                measure,
                threshold,
                candidates,
                group,
                group[0],
                c,
                (links - 1) as nat,
            );
            assert(measure(x, c) == measure(c, x));
            assert(group.contains(c) && c != group[k] && threshold.below(measure(group[k], c)));
        }
    }
    assert forall|a: u128, b: u128|
        candidates.contains(a) && candidates.contains(b) && a != b && threshold.below(
            #[trigger] measure(a, b),
        ) implies share_a_group(groups, a, b) by {
        assert(linked(measure, threshold, a, b));
        let g = choose|g: int| 0 <= g < groups.len() && (#[trigger] groups[g]).contains(a);
        assert(component(measure, threshold, candidates, groups[g]));
        assert(chained(measure, threshold, candidates, a, a, 0));
        assert(chained(measure, threshold, candidates, a, b, 1));
        components_are_whole(measure, threshold, candidates, groups[g], a, b, 1);
    }
}

} // verus!
