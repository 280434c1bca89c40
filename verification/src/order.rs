use vstd::prelude::*;
use crate::validate::is_dep_path;
use crate::workspace::{Workspace, PackageModel, name_models, names_unique, has_package, package_index, deps_of, listed, lemma_package_index, lemma_distinct_names_bounded};

verus! {

/// A package that has been given its place, with its rank.
pub struct Ranked {
    pub name: String,
    pub rank: usize,
}

/// A ranked package as plain values.
pub struct RankedModel {
    pub name: Seq<char>,
    pub rank: nat,
}

impl View for Ranked {
    type V = RankedModel;

    open spec fn view(&self) -> RankedModel {
        RankedModel { name: self.name@, rank: self.rank as nat }
    }
}

/// The views of a list of ranked packages.
pub open spec fn ranked_models(v: Seq<Ranked>) -> Seq<RankedModel> {
    Seq::new(v.len(), |k: int| v[k]@)
}

/// Why no publish order could be given.
pub enum OrderError {
    /// These packages sit on a cycle, or depend on a name that is not in the
    /// workspace, or depend on such a package.
    Unorderable(Vec<String>),
    /// A rank does not fit the machine's word.
    RankOverflow,
}

/// `name` is among the first `end` entries of `l`.
pub open spec fn placed_before(l: Seq<RankedModel>, name: Seq<char>, end: int) -> bool {
    exists|k: int| 0 <= k < end && k < l.len() && (#[trigger] l[k]).name == name
}

/// `name` is an entry of `l`.
pub open spec fn placed(l: Seq<RankedModel>, name: Seq<char>) -> bool {
    placed_before(l, name, l.len() as int)
}

/// No name occurs twice in `l`.
pub open spec fn ranked_unique(l: Seq<RankedModel>) -> bool {
    forall|i: int, j: int| 0 <= i < j < l.len() ==> (#[trigger] l[i]).name != (#[trigger] l[j]).name
}

/// The rank that `l` records for `name`.
pub open spec fn rank_in(l: Seq<RankedModel>, name: Seq<char>) -> nat {
    l[choose|k: int| 0 <= k < l.len() && (#[trigger] l[k]).name == name].rank
}

/// The sum of the ranks of the distinct names in `deps`.
pub open spec fn dep_rank_sum(l: Seq<RankedModel>, deps: Seq<Seq<char>>) -> nat
    decreases deps.len(),
{
    if deps.len() == 0 {
        0
    } else if listed(deps.drop_last(), deps.last()) {
        dep_rank_sum(l, deps.drop_last())
    } else {
        dep_rank_sum(l, deps.drop_last()) + rank_in(l, deps.last())
    }
}

/// Every name of `deps` is an entry of `l`.
pub open spec fn all_placed(l: Seq<RankedModel>, deps: Seq<Seq<char>>) -> bool {
    forall|d: int| 0 <= d < deps.len() ==> placed(l, #[trigger] deps[d])
}

/// `l` is a sequence of placements: each entry is a package of `g` that
/// comes after all its dependencies, and its rank is one more than the sum
/// of their ranks.
pub open spec fn is_layering(g: Seq<PackageModel>, l: Seq<RankedModel>) -> bool {
    &&& ranked_unique(l)
    &&& forall|k: int| 0 <= k < l.len() ==> has_package(g, (#[trigger] l[k]).name)
    &&& forall|k: int, d: int|
        0 <= k < l.len() && 0 <= d < deps_of(g, l[k].name).len() ==> placed_before(
            l,
            #[trigger] deps_of(g, (#[trigger] l[k]).name)[d],
            k,
        )
    &&& forall|k: int|
        0 <= k < l.len() ==> (#[trigger] l[k]).rank == 1 + dep_rank_sum(l, deps_of(g, l[k].name))
}

/// Nothing more can be placed: every package outside `l` has a dependency
/// outside `l`.
pub open spec fn is_stuck(g: Seq<PackageModel>, l: Seq<RankedModel>) -> bool {
    forall|i: int| 0 <= i < g.len() ==> placed(l, (#[trigger] g[i]).name) || !all_placed(l, g[i].deps)
}

/// Some sequence of placements reaches `name`.
pub open spec fn orderable(g: Seq<PackageModel>, name: Seq<char>) -> bool {
    exists|l: Seq<RankedModel>| is_layering(g, l) && placed(l, name)
}

/// The names of the first `upto` packages of `g` that no sequence of
/// placements reaches, in the order of `g`.
pub open spec fn unorderable_names(g: Seq<PackageModel>, upto: int) -> Seq<Seq<char>>
    decreases upto,
{
    if upto <= 0 {
        Seq::empty()
    } else if orderable(g, g[upto - 1].name) {
        unorderable_names(g, upto - 1)
    } else {
        unorderable_names(g, upto - 1).push(g[upto - 1].name)
    }
}

/// Some sequence of placements reaches every dependency of a package whose
/// rank would then exceed the machine's word.
pub open spec fn rank_overflows(g: Seq<PackageModel>) -> bool {
    exists|l: Seq<RankedModel>, i: int|
        is_layering(g, l) && 0 <= i < g.len() && all_placed(l, (#[trigger] g[i]).deps) && 1
            + #[trigger] dep_rank_sum(l, g[i].deps) > usize::MAX
}

/// With unique names, an entry's rank is the one recorded for its name.
pub proof fn lemma_rank_in(l: Seq<RankedModel>, k: int)
    requires
        ranked_unique(l),
        0 <= k < l.len(),
    ensures
        rank_in(l, l[k].name) == l[k].rank,
{
    let j = choose|j: int| 0 <= j < l.len() && (#[trigger] l[j]).name == l[k].name;
    assert(0 <= j < l.len() && l[j].name == l[k].name);
}

/// Two lists that record the same rank for each name of `deps` give the
/// same sum.
pub proof fn lemma_dep_rank_sum_agree(a: Seq<RankedModel>, b: Seq<RankedModel>, deps: Seq<Seq<char>>)
    requires
        forall|d: int| 0 <= d < deps.len() ==> rank_in(a, #[trigger] deps[d]) == rank_in(b, deps[d]),
    ensures
        dep_rank_sum(a, deps) == dep_rank_sum(b, deps),
    decreases deps.len(),
{
    if deps.len() > 0 {
        let rest = deps.drop_last();
        assert forall|d: int| 0 <= d < rest.len() implies rank_in(a, #[trigger] rest[d]) == rank_in(
            b,
            rest[d],
        ) by {
            assert(rest[d] == deps[d]);
        }
        lemma_dep_rank_sum_agree(a, b, rest);
        assert(deps.last() == deps[deps.len() - 1]);
    }
}

/// The first position in `placed_list` of an entry called `name`.
pub fn find_placed(placed_list: &Vec<Ranked>, name: &String) -> (res: Option<usize>)
    ensures
        res is Some <==> placed(ranked_models(placed_list@), name@),
        res is Some ==> res->0 < placed_list@.len() && placed_list@[res->0 as int].name@ == name@,
        res is Some ==> forall|a: int|
            0 <= a < res->0 ==> (#[trigger] ranked_models(placed_list@)[a]).name != name@,
{
    let n = placed_list.len();
    let ghost l = ranked_models(placed_list@);
    let mut i: usize = 0;
    while i < n
        invariant
            n == placed_list.len(),
            i <= n,
            l == ranked_models(placed_list@),
            forall|a: int| 0 <= a < i ==> (#[trigger] l[a]).name != name@,
        decreases n - i,
    {
        if placed_list[i].name == *name {
            assert(l[i as int].name == name@);
            return Some(i);
        }
        i += 1;
    }
    None
}

/// Whether the name at `j` already occurs before `j`.
pub fn occurs_before(names: &Vec<String>, j: usize) -> (res: bool)
    requires
        j < names.len(),
    ensures
        res == listed(name_models(names@).take(j as int), name_models(names@)[j as int]),
{
    let ghost m = name_models(names@);
    let mut i: usize = 0;
    while i < j
        invariant
            i <= j < names.len(),
            m == name_models(names@),
            forall|a: int| 0 <= a < i ==> #[trigger] m.take(j as int)[a] != m[j as int],
        decreases j - i,
    {
        if names[i] == names[j] {
            assert(m.take(j as int)[i as int] == m[j as int]);
            return true;
        }
        i += 1;
    }
    false
}

/// What the placements so far allow for a package with dependencies `deps`.
pub enum Readiness {
    /// Some dependency has no place yet.
    Blocked,
    /// Every dependency has its place, but the rank is too large.
    Overflow,
    /// Every dependency has its place; this is the rank.
    Ready(usize),
}

/// Decides whether a package with dependencies `deps` can be placed after
/// `placed_list`, and with which rank.
pub fn readiness(placed_list: &Vec<Ranked>, deps: &Vec<String>) -> (res: Readiness)
    requires
        ranked_unique(ranked_models(placed_list@)),
    ensures
        res is Blocked <==> !all_placed(ranked_models(placed_list@), name_models(deps@)),
        res is Overflow ==> 1 + dep_rank_sum(ranked_models(placed_list@), name_models(deps@))
            > usize::MAX,
        res is Ready ==> res->Ready_0 == 1 + dep_rank_sum(
            ranked_models(placed_list@),
            name_models(deps@),
        ),
{
    let ghost l = ranked_models(placed_list@);
    let ghost m = name_models(deps@);
    let n = deps.len();
    let mut j: usize = 0;
    while j < n
        invariant
            n == deps.len(),
            j <= n,
            l == ranked_models(placed_list@),
            m == name_models(deps@),
            forall|d: int| 0 <= d < j ==> placed(l, #[trigger] m[d]),
        decreases n - j,
    {
        if find_placed(placed_list, &deps[j]).is_none() {
            assert(!placed(l, m[j as int]));
            return Readiness::Blocked;
        }
        j += 1;
    }
    let mut rank: usize = 1;
    let mut overflowed = false;
    j = 0;
    while j < n
        invariant
            n == deps.len(),
            j <= n,
            l == ranked_models(placed_list@),
            m == name_models(deps@),
            ranked_unique(l),
            all_placed(l, m),
            !overflowed ==> rank == 1 + dep_rank_sum(l, m.take(j as int)),
            overflowed ==> 1 + dep_rank_sum(l, m.take(j as int)) > usize::MAX,
        decreases n - j,
    {
        proof {
            assert(m.take(j as int + 1).drop_last() =~= m.take(j as int));
            assert(m.take(j as int + 1).last() == m[j as int]);
        }
        if !occurs_before(deps, j) {
            let found = find_placed(placed_list, &deps[j]);
            assert(placed(l, m[j as int]));
            let k = found.unwrap();
            proof {
                assert(l[k as int].name == m[j as int]);
                lemma_rank_in(l, k as int);
            }
            if !overflowed {
                match rank.checked_add(placed_list[k].rank) {
                    Some(r) => {
                        rank = r;
                    },
                    None => {
                        overflowed = true;
                    },
                }
            }
        }
        j += 1;
    }
    proof {
        assert(m.take(n as int) =~= m);
    }
    if overflowed {
        Readiness::Overflow
    } else {
        Readiness::Ready(rank)
    }
}


/// A placement sequence is no longer than the workspace.
pub proof fn lemma_layering_len(g: Seq<PackageModel>, l: Seq<RankedModel>)
    requires
        is_layering(g, l),
    ensures
        l.len() <= g.len(),
{
    let names = Seq::new(l.len(), |k: int| l[k].name);
    assert forall|k: int| 0 <= k < names.len() implies has_package(g, #[trigger] names[k]) by {
        assert(has_package(g, l[k].name));
    }
    lemma_distinct_names_bounded(g, names);
}

/// A package whose dependencies all have their place can be placed next.
pub proof fn lemma_layering_push(g: Seq<PackageModel>, l: Seq<RankedModel>, x: RankedModel)
    requires
        is_layering(g, l),
        has_package(g, x.name),
        !placed(l, x.name),
        all_placed(l, deps_of(g, x.name)),
        x.rank == 1 + dep_rank_sum(l, deps_of(g, x.name)),
    ensures
        is_layering(g, l.push(x)),
{
    let l2 = l.push(x);
    assert forall|i: int, j: int| 0 <= i < j < l2.len() implies (#[trigger] l2[i]).name != (
    #[trigger] l2[j]).name by {
        assert(l2[i] == l[i]);
        if j < l.len() {
            assert(l2[j] == l[j]);
        }
    }
    assert forall|k: int, d: int|
        0 <= k < l2.len() && 0 <= d < deps_of(g, l2[k].name).len() implies placed_before(
        l2,
        #[trigger] deps_of(g, (#[trigger] l2[k]).name)[d],
        k,
    ) by {
        let dep = deps_of(g, l2[k].name)[d];
        if k < l.len() {
            assert(l2[k] == l[k]);
            assert(placed_before(l, dep, k));
            let w = choose|w: int| 0 <= w < k && w < l.len() && (#[trigger] l[w]).name == dep;
            assert(l2[w].name == dep);
        } else {
            assert(placed(l, dep));
            let w = choose|w: int| 0 <= w < l.len() && w < l.len() && (#[trigger] l[w]).name == dep;
            assert(l2[w].name == dep);
        }
    }
    assert forall|k: int| 0 <= k < l2.len() implies (#[trigger] l2[k]).rank == 1 + dep_rank_sum(
        l2,
        deps_of(g, l2[k].name),
    ) by {
        let deps = deps_of(g, l2[k].name);
        assert forall|d: int| 0 <= d < deps.len() implies rank_in(l2, #[trigger] deps[d]) == rank_in(
            l,
            deps[d],
        ) by {
            if k < l.len() {
                assert(l2[k] == l[k]);
                assert(placed_before(l, deps[d], k));
            } else {
                assert(placed(l, deps[d]));
            }
            let w = choose|w: int| 0 <= w < l.len() && (#[trigger] l[w]).name == deps[d];
            assert(l2[w] == l[w]);
            lemma_rank_in(l, w);
            lemma_rank_in(l2, w);
        }
        lemma_dep_rank_sum_agree(l2, l, deps);
        if k < l.len() {
            assert(l2[k] == l[k]);
        }
    }
    assert forall|k: int| 0 <= k < l2.len() implies has_package(g, (#[trigger] l2[k]).name) by {
        if k < l.len() {
            assert(l2[k] == l[k]);
        }
    }
}

/// Places packages pass by pass until a pass places nothing: a package is
/// placed once all its dependencies are, with rank one more than the sum of
/// their ranks. `None` where a rank does not fit the machine's word.
pub fn layer_packages(ws: &Workspace) -> (res: Option<Vec<Ranked>>)
    requires
        ws.wf(),
    ensures
        match res {
            Some(l) => is_layering(ws@, ranked_models(l@)) && is_stuck(ws@, ranked_models(l@))
                && !rank_overflows(ws@),
            None => rank_overflows(ws@),
        },
{
    let n = ws.packages.len();
    let ghost g = ws@;
    let mut placed_list: Vec<Ranked> = Vec::new();
    let mut progressed = true;
    proof {
        lemma_layering_len(g, ranked_models(placed_list@));
    }
    while progressed
        invariant
            n == ws.packages.len(),
            g == ws@,
            names_unique(g),
            is_layering(g, ranked_models(placed_list@)),
            placed_list.len() <= n,
            !progressed ==> is_stuck(g, ranked_models(placed_list@)),
        decreases n - placed_list.len() + (if progressed { 1int } else { 0int }),
    {
        progressed = false;
        let ghost start_len = placed_list.len();
        let mut i: usize = 0;
        while i < n
            invariant
                n == ws.packages.len(),
                g == ws@,
                names_unique(g),
                i <= n,
                is_layering(g, ranked_models(placed_list@)),
                start_len <= placed_list.len() <= n,
                progressed ==> start_len < placed_list.len(),
                !progressed ==> forall|a: int|
                    0 <= a < i ==> placed(ranked_models(placed_list@), (#[trigger] g[a]).name)
                        || !all_placed(ranked_models(placed_list@), g[a].deps),
            decreases n - i,
        {
            let pkg = &ws.packages[i];
            let ghost l = ranked_models(placed_list@);
            proof {
                lemma_package_index(g, i as int);
                assert(g[i as int] == pkg@);
            }
            if find_placed(&placed_list, &pkg.name).is_none() {
                match readiness(&placed_list, &pkg.deps) {
                    Readiness::Blocked => {},
                    Readiness::Overflow => {
                        assert(is_layering(g, l) && all_placed(l, g[i as int].deps) && 1
                            + dep_rank_sum(l, g[i as int].deps) > usize::MAX);
                        return None;
                    },
                    Readiness::Ready(rank) => {
                        let item = Ranked { name: pkg.name.clone(), rank };
                        proof {
                            lemma_layering_push(g, l, item@);
                            assert(ranked_models(placed_list@.push(item)) =~= l.push(item@));
                            lemma_layering_len(g, l.push(item@));
                        }
                        placed_list.push(item);
                        progressed = true;
                    },
                }
            }
            i += 1;
        }
    }
    proof {
        lemma_no_overflow(g, ranked_models(placed_list@));
    }
    Some(placed_list)
}


/// `a` stands no later than `b` when names are compared character by
/// character, a missing character before any other.
pub open spec fn name_le(a: Seq<char>, b: Seq<char>) -> bool
    decreases a.len(),
{
    if a.len() == 0 {
        true
    } else if b.len() == 0 {
        false
    } else if a[0] != b[0] {
        (a[0] as u32) < (b[0] as u32)
    } else {
        name_le(a.drop_first(), b.drop_first())
    }
}

/// `a` stands no later than `b` in a publish order: by rank, then by name.
pub open spec fn key_le(a: RankedModel, b: RankedModel) -> bool {
    a.rank < b.rank || (a.rank == b.rank && name_le(a.name, b.name))
}

/// `l` ascends by rank, then by name.
pub open spec fn sorted_by_key(l: Seq<RankedModel>) -> bool {
    forall|i: int, j: int| 0 <= i < j < l.len() ==> key_le(#[trigger] l[i], #[trigger] l[j])
}

/// Sorts with `sort` of std's slices, on pairs of rank and name. Trusted:
/// the result holds the same entries, ascending by rank and, within one
/// rank, by name as `String` orders names, which is character by character.
#[verifier::external_body]
fn sort_by_rank_then_name(items: Vec<Ranked>) -> (sorted: Vec<Ranked>)
    ensures
        ranked_models(sorted@).to_multiset() == ranked_models(items@).to_multiset(),
        sorted_by_key(ranked_models(sorted@)),
{
    let mut keyed: Vec<(usize, String)> = items.into_iter().map(|r| (r.rank, r.name)).collect();
    keyed.sort();
    keyed.into_iter().map(|k| Ranked { name: k.1, rank: k.0 }).collect()
}

/// The rank of each dependency is part of the sum.
pub proof fn lemma_dep_rank_bound(l: Seq<RankedModel>, deps: Seq<Seq<char>>, d: int)
    requires
        0 <= d < deps.len(),
    ensures
        rank_in(l, deps[d]) <= dep_rank_sum(l, deps),
    decreases deps.len(),
{
    let rest = deps.drop_last();
    if d < rest.len() {
        assert(rest[d] == deps[d]);
        lemma_dep_rank_bound(l, rest, d);
    } else if listed(rest, deps.last()) {
        let k = choose|k: int| 0 <= k < rest.len() && #[trigger] rest[k] == deps.last();
        lemma_dep_rank_bound(l, rest, k);
    }
}

/// A rearrangement of a placement sequence that ascends by rank is a
/// placement sequence too, with the same entries.
pub proof fn lemma_sorted_layering(g: Seq<PackageModel>, l: Seq<RankedModel>, s: Seq<RankedModel>)
    requires
        is_layering(g, l),
        s.to_multiset() == l.to_multiset(),
        sorted_by_key(s),
    ensures
        is_layering(g, s),
        s.len() == l.len(),
        forall|name: Seq<char>| placed(s, name) <==> placed(l, name),
{
    s.to_multiset_ensures();
    l.to_multiset_ensures();
    assert forall|x: RankedModel| s.contains(x) <==> l.contains(x) by {
        let sc = s.to_multiset().count(x);
        let lc = l.to_multiset().count(x);
        assert(sc == lc);
        assert(s.contains(x) <==> sc > 0);
        assert(l.contains(x) <==> lc > 0);
    }
    assert(l.no_duplicates()) by {
        assert forall|i: int, j: int| 0 <= i < l.len() && 0 <= j < l.len() && i != j implies l[i]
            != l[j] by {
            if i < j {
                assert(l[i].name != l[j].name);
            } else {
                assert(l[j].name != l[i].name);
            }
        }
    }
    l.lemma_multiset_has_no_duplicates();
    s.lemma_multiset_has_no_duplicates_conv();
    assert forall|k: int| 0 <= k < s.len() implies exists|a: int|
        0 <= a < l.len() && l[a] == #[trigger] s[k] by {
        assert(s.contains(s[k]));
        assert(l.contains(s[k]));
    }
    assert forall|a: int| 0 <= a < l.len() implies exists|k: int|
        0 <= k < s.len() && s[k] == #[trigger] l[a] by {
        assert(l.contains(l[a]));
        assert(s.contains(l[a]));
    }
    assert forall|name: Seq<char>| placed(s, name) <==> placed(l, name) by {
        if placed(s, name) {
            let k = choose|k: int| 0 <= k < s.len() && k < s.len() && (#[trigger] s[k]).name == name;
            let a = choose|a: int| 0 <= a < l.len() && l[a] == s[k];
            assert(l[a].name == name);
        }
        if placed(l, name) {
            let a = choose|a: int| 0 <= a < l.len() && a < l.len() && (#[trigger] l[a]).name == name;
            let k = choose|k: int| 0 <= k < s.len() && s[k] == l[a];
            assert(s[k].name == name);
        }
    }
    assert forall|i: int, j: int| 0 <= i < j < s.len() implies (#[trigger] s[i]).name != (
    #[trigger] s[j]).name by {
        let a = choose|a: int| 0 <= a < l.len() && l[a] == s[i];
        let b = choose|b: int| 0 <= b < l.len() && l[b] == s[j];
        if s[i].name == s[j].name {
            if a < b {
                assert(l[a].name != l[b].name);
            } else if b < a {
                assert(l[b].name != l[a].name);
            }
            assert(s[i] == s[j]);
        }
    }
    assert forall|k: int| 0 <= k < s.len() implies has_package(g, (#[trigger] s[k]).name) by {
        let a = choose|a: int| 0 <= a < l.len() && l[a] == s[k];
        assert(has_package(g, l[a].name));
    }
    assert forall|k: int, d: int|
        0 <= k < s.len() && 0 <= d < deps_of(g, s[k].name).len() implies placed_before(
        s,
        #[trigger] deps_of(g, (#[trigger] s[k]).name)[d],
        k,
    ) by {
        let deps = deps_of(g, s[k].name);
        let a = choose|a: int| 0 <= a < l.len() && l[a] == s[k];
        assert(placed_before(l, deps_of(g, l[a].name)[d], a));
        let w = choose|w: int| 0 <= w < a && w < l.len() && (#[trigger] l[w]).name == deps[d];
        let j = choose|j: int| 0 <= j < s.len() && s[j] == l[w];
        lemma_rank_in(l, w);
        lemma_dep_rank_bound(l, deps, d);
        assert(l[a].rank == 1 + dep_rank_sum(l, deps_of(g, l[a].name)));
        assert(s[j].rank < s[k].rank);
        if k < j {
            assert(key_le(s[k], s[j]));
        }
        assert(s[j].name == deps[d]);
    }
    assert forall|k: int| 0 <= k < s.len() implies (#[trigger] s[k]).rank == 1 + dep_rank_sum(
        s,
        deps_of(g, s[k].name),
    ) by {
        let deps = deps_of(g, s[k].name);
        let a = choose|a: int| 0 <= a < l.len() && l[a] == s[k];
        assert forall|d: int| 0 <= d < deps.len() implies rank_in(s, #[trigger] deps[d]) == rank_in(
            l,
            deps[d],
        ) by {
            assert(placed_before(l, deps_of(g, l[a].name)[d], a));
            let w = choose|w: int| 0 <= w < a && w < l.len() && (#[trigger] l[w]).name == deps[d];
            let j = choose|j: int| 0 <= j < s.len() && s[j] == l[w];
            lemma_rank_in(l, w);
            lemma_rank_in(s, j);
        }
        lemma_dep_rank_sum_agree(s, l, deps);
        assert(l[a].rank == 1 + dep_rank_sum(l, deps_of(g, l[a].name)));
    }
}

/// Whatever some placement sequence reaches has its place in one to which
/// nothing more can be added.
pub proof fn lemma_stuck_is_maximal(
    g: Seq<PackageModel>,
    m: Seq<RankedModel>,
    l: Seq<RankedModel>,
    k: int,
)
    requires
        names_unique(g),
        is_layering(g, m),
        is_stuck(g, m),
        is_layering(g, l),
        0 <= k < l.len(),
    ensures
        placed(m, l[k].name),
    decreases k,
{
    assert(has_package(g, l[k].name));
    let i = package_index(g, l[k].name);
    lemma_package_index(g, i);
    assert forall|d: int| 0 <= d < g[i].deps.len() implies placed(m, #[trigger] g[i].deps[d]) by {
        assert(placed_before(l, deps_of(g, l[k].name)[d], k));
        let w = choose|w: int| 0 <= w < k && w < l.len() && (#[trigger] l[w]).name == g[i].deps[d];
        lemma_stuck_is_maximal(g, m, l, w);
    }
    assert(all_placed(m, g[i].deps));
    assert(placed(m, g[i].name) || !all_placed(m, g[i].deps));
}

/// `order` is the publish order of `g`: every package has its place after
/// all its dependencies, ranks are one more than the sum of the
/// dependencies' ranks, and the sequence ascends by rank, then by name.
pub open spec fn is_publish_order(g: Seq<PackageModel>, order: Seq<RankedModel>) -> bool {
    &&& is_layering(g, order)
    &&& forall|i: int| 0 <= i < g.len() ==> placed(order, (#[trigger] g[i]).name)
    &&& sorted_by_key(order)
}

/// In a publish order every dependency of a package stands at a smaller
/// index than the package itself, and has a smaller rank.
pub proof fn lemma_dependencies_come_first(
    g: Seq<PackageModel>,
    order: Seq<RankedModel>,
    k: int,
    d: int,
)
    requires
        is_publish_order(g, order),
        0 <= k < order.len(),
        0 <= d < deps_of(g, order[k].name).len(),
    ensures
        exists|j: int|
            0 <= j < k && (#[trigger] order[j]).name == deps_of(g, order[k].name)[d] && order[j].rank
                < order[k].rank,
{
    let deps = deps_of(g, order[k].name);
    assert(placed_before(order, deps_of(g, order[k].name)[d], k));
    let j = choose|j: int| 0 <= j < k && j < order.len() && (#[trigger] order[j]).name == deps[d];
    lemma_rank_in(order, j);
    lemma_dep_rank_bound(order, deps, d);
    assert(order[k].rank == 1 + dep_rank_sum(order, deps_of(g, order[k].name)));
}

/// The publish order of the workspace, or the reason why there is none.
///
/// Packages are placed pass by pass, each once all its dependencies are
/// placed, with rank one more than the sum of the ranks of its distinct
/// dependencies; the result ascends by rank, then by name. Packages that
/// can never be placed (on a cycle, or depending on a name that is not in
/// the workspace, or on such a package) are reported, all of them, in the
/// order of the workspace.
pub fn resolve_publish_order(ws: &Workspace) -> (res: Result<Vec<Ranked>, OrderError>)
    requires
        ws.wf(),
    ensures
        res is Err && res->Err_0 is RankOverflow <==> rank_overflows(ws@),
        match res {
            Ok(order) => is_publish_order(ws@, ranked_models(order@)),
            Err(OrderError::Unorderable(names)) => {
                &&& names@.len() > 0
                &&& name_models(names@) == unorderable_names(ws@, ws@.len() as int)
                &&& forall|name: Seq<char>|
                    listed(name_models(names@), name) <==> has_package(ws@, name) && !orderable(
                        ws@,
                        name,
                    )
            },
            Err(OrderError::RankOverflow) => rank_overflows(ws@),
        },
{
    let ghost g = ws@;
    let placed_list = match layer_packages(ws) {
        Some(l) => l,
        None => {
            return Err(OrderError::RankOverflow);
        },
    };
    let ghost l = ranked_models(placed_list@);
    let n = ws.packages.len();
    let mut left: Vec<String> = Vec::new();
    let mut i: usize = 0;
    while i < n
        invariant
            n == ws.packages.len(),
            g == ws@,
            i <= n,
            l == ranked_models(placed_list@),
            names_unique(g),
            is_layering(g, l),
            is_stuck(g, l),
            name_models(left@) == unorderable_names(g, i as int),
            forall|k: int|
                0 <= k < left@.len() ==> has_package(g, #[trigger] name_models(left@)[k]) && !placed(
                    l,
                    name_models(left@)[k],
                ),
            forall|a: int|
                0 <= a < i ==> placed(l, (#[trigger] g[a]).name) || listed(
                    name_models(left@),
                    g[a].name,
                ),
        decreases n - i,
    {
        proof {
            let name = g[i as int].name;
            if orderable(g, name) {
                let o = choose|o: Seq<RankedModel>| is_layering(g, o) && placed(o, name);
                let k = choose|k: int|
                    0 <= k < o.len() && k < o.len() && (#[trigger] o[k]).name == name;
                lemma_stuck_is_maximal(g, l, o, k);
            }
            assert(placed(l, name) <==> orderable(g, name));
        }
        if find_placed(&placed_list, &ws.packages[i].name).is_none() {
            let name = ws.packages[i].name.clone();
            let ghost before = name_models(left@);
            left.push(name);
            proof {
                assert(name_models(left@) =~= before.push(g[i as int].name));
                assert(name_models(left@)[before.len() as int] == g[i as int].name);
                assert forall|a: int| 0 <= a < i && !placed(l, (#[trigger] g[a]).name) implies listed(
                    name_models(left@),
                    g[a].name,
                ) by {
                    let k = choose|k: int| 0 <= k < before.len() && #[trigger] before[k] == g[a].name;
                    assert(name_models(left@)[k] == g[a].name);
                }
            }
        }
        i += 1;
    }
    if left.len() > 0 {
        proof {
            assert forall|name: Seq<char>|
                listed(name_models(left@), name) <==> has_package(g, name) && !orderable(
                    g,
                    name,
                ) by {
                if listed(name_models(left@), name) {
                    if orderable(g, name) {
                        let o = choose|o: Seq<RankedModel>| is_layering(g, o) && placed(o, name);
                        let k = choose|k: int|
                            0 <= k < o.len() && k < o.len() && (#[trigger] o[k]).name == name;
                        lemma_stuck_is_maximal(g, l, o, k);
                    }
                }
                if has_package(g, name) && !orderable(g, name) {
                    let a = package_index(g, name);
                    assert(!placed(l, name));
                    assert(placed(l, g[a].name) || listed(name_models(left@), g[a].name));
                }
            }
        }
        return Err(OrderError::Unorderable(left));
    }
    let sorted = sort_by_rank_then_name(placed_list);
    proof {
        lemma_sorted_layering(g, l, ranked_models(sorted@));
        assert forall|i: int| 0 <= i < g.len() implies placed(
            ranked_models(sorted@),
            (#[trigger] g[i]).name,
        ) by {
            assert(placed(l, g[i].name) || listed(name_models(left@), g[i].name));
        }
    }
    Ok(sorted)
}

/// The names of a placement sequence, in the same order.
pub open spec fn order_names(l: Seq<RankedModel>) -> Seq<Seq<char>> {
    Seq::new(l.len(), |k: int| l[k].name)
}

/// The names of a list of ranked packages, in the same order.
pub fn names_of(order: &Vec<Ranked>) -> (names: Vec<String>)
    ensures
        name_models(names@) == order_names(ranked_models(order@)),
        names@.len() == order@.len(),
        forall|k: int| 0 <= k < order@.len() ==> #[trigger] name_models(names@)[k] == order@[k].name@,
{
    let mut names: Vec<String> = Vec::new();
    let mut i: usize = 0;
    while i < order.len()
        invariant
            i <= order.len(),
            names@.len() == i,
            forall|k: int| 0 <= k < i ==> #[trigger] name_models(names@)[k] == order@[k].name@,
        decreases order.len() - i,
    {
        let ghost before = name_models(names@);
        let name = order[i].name.clone();
        names.push(name);
        proof {
            assert(name_models(names@) =~= before.push(order@[i as int].name@));
        }
        i += 1;
    }
    proof {
        assert(name_models(names@) =~= order_names(ranked_models(order@)));
    }
    names
}

/// In two placement sequences of one workspace a package has the same
/// rank.
pub proof fn lemma_rank_unique(
    g: Seq<PackageModel>,
    a: Seq<RankedModel>,
    b: Seq<RankedModel>,
    i: int,
    j: int,
)
    requires
        is_layering(g, a),
        is_layering(g, b),
        0 <= i < a.len(),
        0 <= j < b.len(),
        a[i].name == b[j].name,
    ensures
        a[i].rank == b[j].rank,
    decreases i,
{
    let deps = deps_of(g, a[i].name);
    assert forall|d: int| 0 <= d < deps.len() implies rank_in(a, #[trigger] deps[d]) == rank_in(
        b,
        deps[d],
    ) by {
        assert(placed_before(a, deps_of(g, a[i].name)[d], i));
        assert(placed_before(b, deps_of(g, b[j].name)[d], j));
        let w = choose|w: int| 0 <= w < i && w < a.len() && (#[trigger] a[w]).name == deps[d];
        let v = choose|v: int| 0 <= v < j && v < b.len() && (#[trigger] b[v]).name == deps[d];
        lemma_rank_unique(g, a, b, w, v);
        lemma_rank_in(a, w);
        lemma_rank_in(b, v);
    }
    lemma_dep_rank_sum_agree(a, b, deps);
    assert(a[i].rank == 1 + dep_rank_sum(a, deps_of(g, a[i].name)));
    assert(b[j].rank == 1 + dep_rank_sum(b, deps_of(g, b[j].name)));
}

/// Every name stands no later than itself.
pub proof fn lemma_name_le_refl(a: Seq<char>)
    ensures
        name_le(a, a),
    decreases a.len(),
{
    if a.len() > 0 {
        lemma_name_le_refl(a.drop_first());
    }
}

/// Two names that stand no later than each other are one name.
pub proof fn lemma_name_le_antisym(a: Seq<char>, b: Seq<char>)
    requires
        name_le(a, b),
        name_le(b, a),
    ensures
        a == b,
    decreases a.len(),
{
    if a.len() > 0 {
        lemma_name_le_antisym(a.drop_first(), b.drop_first());
        assert(a =~= seq![a[0]] + a.drop_first());
        assert(b =~= seq![b[0]] + b.drop_first());
    } else {
        assert(a =~= b);
    }
}

/// The order of names is transitive.
pub proof fn lemma_name_le_trans(a: Seq<char>, b: Seq<char>, c: Seq<char>)
    requires
        name_le(a, b),
        name_le(b, c),
    ensures
        name_le(a, c),
    decreases a.len(),
{
    if a.len() > 0 && a[0] == b[0] && b[0] == c[0] {
        lemma_name_le_trans(a.drop_first(), b.drop_first(), c.drop_first());
    }
}

/// Two characters with one code point are one character.
pub proof fn lemma_code_point_injective(x: char, y: char)
    requires
        x as u32 == y as u32,
    ensures
        x == y,
{
    assert(x as int == y as int);
    assert((x as int) as char == (y as int) as char);
}

/// Of two names one stands no later than the other.
pub proof fn lemma_name_le_total(a: Seq<char>, b: Seq<char>)
    ensures
        name_le(a, b) || name_le(b, a),
    decreases a.len(),
{
    if a.len() > 0 && b.len() > 0 {
        if a[0] == b[0] {
            lemma_name_le_total(a.drop_first(), b.drop_first());
        } else {
            if a[0] as u32 == b[0] as u32 {
                lemma_code_point_injective(a[0], b[0]);
            }
        }
    }
}

/// A workspace has one publish order: two sequences that both are its
/// publish order are equal, ranks and tie-breaks by name included.
pub proof fn lemma_publish_order_unique(
    g: Seq<PackageModel>,
    a: Seq<RankedModel>,
    b: Seq<RankedModel>,
)
    requires
        names_unique(g),
        is_publish_order(g, a),
        is_publish_order(g, b),
    ensures
        a == b,
{
    let leq = |x: RankedModel, y: RankedModel| key_le(x, y);
    assert(vstd::relations::total_ordering(leq)) by {
        assert forall|x: RankedModel| #[trigger] leq(x, x) by {
            lemma_name_le_refl(x.name);
        }
        assert forall|x: RankedModel, y: RankedModel| #[trigger] leq(x, y) && #[trigger] leq(
            y,
            x,
        ) implies x == y by {
            lemma_name_le_antisym(x.name, y.name);
        }
        assert forall|x: RankedModel, y: RankedModel, z: RankedModel| #[trigger] leq(x, y)
            && #[trigger] leq(y, z) implies leq(x, z) by {
            if x.rank == y.rank && y.rank == z.rank {
                lemma_name_le_trans(x.name, y.name, z.name);
            }
        }
        assert forall|x: RankedModel, y: RankedModel| #[trigger] leq(x, y) || #[trigger] leq(
            y,
            x,
        ) by {
            lemma_name_le_total(x.name, y.name);
        }
    }
    assert(vstd::relations::sorted_by(a, leq)) by {
        assert forall|i: int, j: int| 0 <= i < j < a.len() implies #[trigger] leq(a[i], a[j]) by {
            assert(key_le(a[i], a[j]));
        }
    }
    assert(vstd::relations::sorted_by(b, leq)) by {
        assert forall|i: int, j: int| 0 <= i < j < b.len() implies #[trigger] leq(b[i], b[j]) by {
            assert(key_le(b[i], b[j]));
        }
    }
    lemma_same_entries(g, a, b);
    lemma_same_entries(g, b, a);
    lemma_entries_distinct(a);
    lemma_entries_distinct(b);
    a.to_multiset_ensures();
    b.to_multiset_ensures();
    a.lemma_multiset_has_no_duplicates();
    b.lemma_multiset_has_no_duplicates();
    assert forall|x: RankedModel| a.to_multiset().count(x) == b.to_multiset().count(x) by {
        let ac = a.to_multiset().count(x);
        let bc = b.to_multiset().count(x);
        assert(a.contains(x) <==> ac > 0);
        assert(b.contains(x) <==> bc > 0);
        assert(a.contains(x) <==> b.contains(x));
        if ac > 0 {
            assert(a.to_multiset().contains(x));
            assert(b.to_multiset().contains(x));
        }
    }
    assert(a.to_multiset() =~= b.to_multiset());
    vstd::seq_lib::lemma_sorted_unique(a, b, leq);
}

/// Every entry of one publish order is an entry of the other.
pub proof fn lemma_same_entries(g: Seq<PackageModel>, a: Seq<RankedModel>, b: Seq<RankedModel>)
    requires
        names_unique(g),
        is_publish_order(g, a),
        is_publish_order(g, b),
    ensures
        forall|x: RankedModel| a.contains(x) ==> b.contains(x),
{
    assert forall|x: RankedModel| a.contains(x) implies b.contains(x) by {
        let i = choose|i: int| 0 <= i < a.len() && a[i] == x;
        assert(has_package(g, a[i].name));
        let p = package_index(g, a[i].name);
        assert(placed(b, g[p].name));
        let j = choose|j: int| 0 <= j < b.len() && j < b.len() && (#[trigger] b[j]).name == x.name;
        lemma_rank_unique(g, a, b, i, j);
        assert(b[j] == x);
    }
}

/// The entries of a list with distinct names are distinct.
pub proof fn lemma_entries_distinct(l: Seq<RankedModel>)
    requires
        ranked_unique(l),
    ensures
        l.no_duplicates(),
{
    assert forall|i: int, j: int| 0 <= i < l.len() && 0 <= j < l.len() && i != j implies l[i]
        != l[j] by {
        if i < j {
            assert(l[i].name != l[j].name);
        } else {
            assert(l[j].name != l[i].name);
        }
    }
}

/// Where packages were placed until nothing more could be, with ranks that
/// fit the machine's word, no rank of the workspace is too large.
pub proof fn lemma_no_overflow(g: Seq<PackageModel>, m: Seq<RankedModel>)
    requires
        names_unique(g),
        is_layering(g, m),
        is_stuck(g, m),
        forall|k: int| 0 <= k < m.len() ==> (#[trigger] m[k]).rank <= usize::MAX,
    ensures
        !rank_overflows(g),
{
    assert forall|l: Seq<RankedModel>, i: int|
        is_layering(g, l) && 0 <= i < g.len() && all_placed(l, (#[trigger] g[i]).deps) implies 1
        + #[trigger] dep_rank_sum(l, g[i].deps) <= usize::MAX by {
        let deps = g[i].deps;
        lemma_package_index(g, i);
        assert forall|d: int| 0 <= d < deps.len() implies placed(m, #[trigger] deps[d]) && rank_in(
            m,
            deps[d],
        ) == rank_in(l, deps[d]) by {
            assert(placed(l, deps[d]));
            let w = choose|w: int| 0 <= w < l.len() && w < l.len() && (#[trigger] l[w]).name == deps[d];
            lemma_stuck_is_maximal(g, m, l, w);
            let v = choose|v: int| 0 <= v < m.len() && v < m.len() && (#[trigger] m[v]).name == deps[d];
            lemma_rank_unique(g, m, l, v, w);
            lemma_rank_in(m, v);
            lemma_rank_in(l, w);
        }
        assert(all_placed(m, g[i].deps));
        assert(placed(m, g[i].name) || !all_placed(m, g[i].deps));
        let k = choose|k: int| 0 <= k < m.len() && k < m.len() && (#[trigger] m[k]).name == g[i].name;
        assert(m[k].rank == 1 + dep_rank_sum(m, deps_of(g, m[k].name)));
        lemma_dep_rank_sum_agree(m, l, deps);
    }
}

/// Along a chain of dependencies the places in a placement sequence go
/// down: the `i`-th name of the chain stands at least `i` places before the
/// first.
pub proof fn lemma_path_descends(
    g: Seq<PackageModel>,
    l: Seq<RankedModel>,
    path: Seq<Seq<char>>,
    first: int,
    i: int,
)
    requires
        is_layering(g, l),
        is_dep_path(g, path),
        0 <= i < path.len(),
        0 <= first < l.len(),
        l[first].name == path[0],
    ensures
        placed_before(l, path[i], first - i + 1),
    decreases i,
{
    if i > 0 {
        lemma_path_descends(g, l, path, first, i - 1);
        let p = choose|p: int| 0 <= p < first - (i - 1) + 1 && p < l.len() && (#[trigger] l[p]).name == path[i - 1];
        assert(has_package(g, path[i - 1]) && listed(deps_of(g, path[i - 1]), path[i - 1 + 1]));
        let deps = deps_of(g, l[p].name);
        let d = choose|d: int| 0 <= d < deps.len() && #[trigger] deps[d] == path[i];
        assert(placed_before(l, deps_of(g, l[p].name)[d], p));
        let q = choose|q: int| 0 <= q < p && q < l.len() && (#[trigger] l[q]).name == path[i];
        assert(l[q].name == path[i]);
    }
}

/// A package that depends on itself, directly or through others, has no
/// place in any placement sequence.
pub proof fn lemma_cycle_not_orderable(g: Seq<PackageModel>, path: Seq<Seq<char>>)
    requires
        path.len() >= 2,
        is_dep_path(g, path),
        path.last() == path[0],
    ensures
        !orderable(g, path[0]),
{
    if orderable(g, path[0]) {
        let l = choose|l: Seq<RankedModel>| is_layering(g, l) && placed(l, path[0]);
        let first = choose|k: int| 0 <= k < l.len() && k < l.len() && (#[trigger] l[k]).name == path[0];
        let last = path.len() - 1;
        lemma_path_descends(g, l, path, first, last);
        let q = choose|q: int| 0 <= q < first - last + 1 && q < l.len() && (#[trigger] l[q]).name == path[last];
        assert(q < first);
        assert(l[q].name != l[first].name);
    }
}


/// Placing until nothing more can be placed gives the same packages with
/// the same ranks, in whatever order they were placed.
pub proof fn lemma_placements_unique(
    g: Seq<PackageModel>,
    a: Seq<RankedModel>,
    b: Seq<RankedModel>,
    k: int,
)
    requires
        names_unique(g),
        is_layering(g, a),
        is_stuck(g, a),
        is_layering(g, b),
        is_stuck(g, b),
        0 <= k < a.len(),
    ensures
        b.contains(a[k]),
{
    lemma_stuck_is_maximal(g, b, a, k);
    let j = choose|j: int| 0 <= j < b.len() && j < b.len() && (#[trigger] b[j]).name == a[k].name;
    lemma_rank_unique(g, a, b, k, j);
    assert(b[j] == a[k]);
}

} // verus!
