use vstd::prelude::*;
use crate::workspace::{Workspace, Package, PackageModel, name_models, has_package, package_index, listed, contains_name};

verus! {

/// Every name of `order` is a package of `g`.
pub open spec fn order_known(g: Seq<PackageModel>, order: Seq<Seq<char>>) -> bool {
    forall|k: int| 0 <= k < order.len() ==> has_package(g, #[trigger] order[k])
}

/// Some dependency of `p` is one of `names`.
pub open spec fn depends_on_listed(p: PackageModel, names: Seq<Seq<char>>) -> bool {
    exists|d: int| 0 <= d < p.deps.len() && listed(names, #[trigger] p.deps[d])
}

/// `p` may be added at all: it is publishable where that is asked for, and
/// it is not one of `barred`.
pub open spec fn eligible(p: PackageModel, only_publishable: bool, barred: Seq<Seq<char>>) -> bool {
    (!only_publishable || p.publishable) && !listed(barred, p.name)
}

/// The package called `name` is to be added to `current`: it may be added
/// and depends on one of `current`.
pub open spec fn joins(
    g: Seq<PackageModel>,
    name: Seq<char>,
    only_publishable: bool,
    barred: Seq<Seq<char>>,
    current: Seq<Seq<char>>,
) -> bool {
    &&& has_package(g, name)
    &&& eligible(g[package_index(g, name)], only_publishable, barred)
    &&& depends_on_listed(g[package_index(g, name)], current)
}

/// `out` is `seed` followed by the packages of `order` that depend, directly
/// or through others, on one of `seed`: each added name joins because of
/// what stands before it, and no name of `order` is left that would join.
pub open spec fn is_dependents_closure(
    g: Seq<PackageModel>,
    order: Seq<Seq<char>>,
    seed: Seq<Seq<char>>,
    only_publishable: bool,
    barred: Seq<Seq<char>>,
    out: Seq<Seq<char>>,
) -> bool {
    &&& seed.len() <= out.len()
    &&& forall|k: int| 0 <= k < seed.len() ==> #[trigger] out[k] == seed[k]
    &&& forall|k: int|
        seed.len() <= k < out.len() ==> listed(order, #[trigger] out[k]) && !listed(
            out.take(k),
            out[k],
        ) && joins(g, out[k], only_publishable, barred, out.take(k))
    &&& forall|k: int|
        0 <= k < order.len() && joins(g, #[trigger] order[k], only_publishable, barred, out)
            ==> listed(out, order[k])
}

/// A name that is listed stays listed when the list grows.
pub proof fn lemma_listed_push(names: Seq<Seq<char>>, name: Seq<char>, more: Seq<char>)
    ensures
        listed(names, name) ==> listed(names.push(more), name),
        listed(names.push(more), more),
        listed(names.push(more), name) ==> listed(names, name) || name == more,
{
    let bigger = names.push(more);
    if listed(names, name) {
        let k = choose|k: int| 0 <= k < names.len() && #[trigger] names[k] == name;
        assert(bigger[k] == name);
    }
    assert(bigger[names.len() as int] == more);
    if listed(bigger, name) {
        let k = choose|k: int| 0 <= k < bigger.len() && #[trigger] bigger[k] == name;
        if k < names.len() {
            assert(names[k] == name);
        }
    }
}

/// Whether some dependency of `pkg` is one of `names`.
pub fn depends_on(pkg: &Package, names: &Vec<String>) -> (res: bool)
    ensures
        res == depends_on_listed(pkg@, name_models(names@)),
{
    let n = pkg.deps.len();
    let mut d: usize = 0;
    while d < n
        invariant
            n == pkg.deps.len(),
            d <= n,
            forall|a: int| 0 <= a < d ==> !listed(name_models(names@), #[trigger] pkg@.deps[a]),
        decreases n - d,
    {
        if contains_name(names, &pkg.deps[d]) {
            assert(listed(name_models(names@), pkg@.deps[d as int]));
            return true;
        }
        d += 1;
    }
    false
}

/// A copy of a list of names.
pub fn copy_names(names: &Vec<String>) -> (out: Vec<String>)
    ensures
        name_models(out@) == name_models(names@),
{
    let mut out: Vec<String> = Vec::new();
    let mut i: usize = 0;
    while i < names.len()
        invariant
            i <= names.len(),
            name_models(out@) == name_models(names@).take(i as int),
        decreases names.len() - i,
    {
        let name = names[i].clone();
        let ghost before = name_models(out@);
        out.push(name);
        proof {
            assert(name_models(out@) =~= before.push(names@[i as int]@));
            assert(name_models(out@) =~= name_models(names@).take(i as int + 1));
        }
        i += 1;
    }
    proof {
        assert(name_models(names@).take(names.len() as int) =~= name_models(names@));
    }
    out
}

/// `k` is one of `v[from..]`.
pub open spec fn holds_index(v: Seq<usize>, from: int, k: int) -> bool {
    exists|t: int| from <= t < v.len() && #[trigger] v[t] == k
}

/// Adds to `seed` every package of `order` that depends on a name already
/// there, again and again until nothing is added. With `only_publishable`,
/// packages that are not publishable are passed over; those of `barred`
/// always are.
pub fn close_over_dependents(
    ws: &Workspace,
    order: &Vec<String>,
    seed: &Vec<String>,
    only_publishable: bool,
    barred: &Vec<String>,
) -> (out: Vec<String>)
    requires
        ws.wf(),
        order_known(ws@, name_models(order@)),
    ensures
        is_dependents_closure(
            ws@,
            name_models(order@),
            name_models(seed@),
            only_publishable,
            name_models(barred@),
            name_models(out@),
        ),
{
    let ghost g = ws@;
    let ghost om = name_models(order@);
    let ghost sm = name_models(seed@);
    let ghost bm = name_models(barred@);
    let mut out = copy_names(seed);
    let mut remaining: Vec<usize> = Vec::new();
    let mut k: usize = 0;
    while k < order.len()
        invariant
            k <= order.len(),
            remaining@.len() == k,
            forall|t: int| 0 <= t < k ==> #[trigger] remaining@[t] == t,
        decreases order.len() - k,
    {
        remaining.push(k);
        k += 1;
    }
    let mut progressed = true;
    assert forall|k: int| 0 <= k < om.len() implies holds_index(remaining@, 0, k) by {
        assert(remaining@[k] == k);
    }
    while progressed
        invariant
            g == ws@,
            om == name_models(order@),
            sm == name_models(seed@),
            bm == name_models(barred@),
            ws.wf(),
            order_known(g, om),
            sm.len() <= out@.len(),
            forall|k: int| 0 <= k < sm.len() ==> #[trigger] name_models(out@)[k] == sm[k],
            forall|k: int|
                sm.len() <= k < out@.len() ==> listed(om, #[trigger] name_models(out@)[k])
                    && !listed(name_models(out@).take(k), name_models(out@)[k]) && joins(
                    g,
                    name_models(out@)[k],
                    only_publishable,
                    bm,
                    name_models(out@).take(k),
                ),
            forall|t: int| 0 <= t < remaining@.len() ==> #[trigger] remaining@[t] < om.len(),
            forall|k: int|
                0 <= k < om.len() ==> holds_index(remaining@, 0, k) || listed(
                    name_models(out@),
                    #[trigger] om[k],
                ) || !eligible(g[package_index(g, om[k])], only_publishable, bm),
            !progressed ==> forall|t: int|
                0 <= t < remaining@.len() ==> !depends_on_listed(
                    g[package_index(g, om[#[trigger] remaining@[t] as int])],
                    name_models(out@),
                ),
        decreases remaining@.len() + (if progressed { 1int } else { 0int }),
    {
        progressed = false;
        let mut next: Vec<usize> = Vec::new();
        let mut t: usize = 0;
        while t < remaining.len()
            invariant
                g == ws@,
                om == name_models(order@),
                sm == name_models(seed@),
                bm == name_models(barred@),
                ws.wf(),
                order_known(g, om),
                t <= remaining@.len(),
                sm.len() <= out@.len(),
                forall|k: int| 0 <= k < sm.len() ==> #[trigger] name_models(out@)[k] == sm[k],
                forall|k: int|
                    sm.len() <= k < out@.len() ==> listed(om, #[trigger] name_models(out@)[k])
                        && !listed(name_models(out@).take(k), name_models(out@)[k]) && joins(
                        g,
                        name_models(out@)[k],
                        only_publishable,
                        bm,
                        name_models(out@).take(k),
                    ),
                forall|t: int| 0 <= t < remaining@.len() ==> #[trigger] remaining@[t] < om.len(),
                forall|u: int| 0 <= u < next@.len() ==> #[trigger] next@[u] < om.len(),
                forall|k: int|
                    0 <= k < om.len() ==> holds_index(remaining@, t as int, k) || holds_index(
                        next@,
                        0,
                        k,
                    ) || listed(name_models(out@), #[trigger] om[k]) || !eligible(
                        g[package_index(g, om[k])],
                        only_publishable,
                        bm,
                    ),
                next@.len() <= t,
                progressed ==> next@.len() < t,
                !progressed ==> forall|u: int|
                    0 <= u < next@.len() ==> !depends_on_listed(
                        g[package_index(g, om[#[trigger] next@[u] as int])],
                        name_models(out@),
                    ),
            decreases remaining@.len() - t,
        {
            let idx = remaining[t];
            let name = &order[idx];
            let ghost cur = name_models(out@);
            let ghost old_next = next@;
            assert(om[idx as int] == name@);
            assert(has_package(g, om[idx as int]));
            let found = ws.find(name);
            let pkg = &ws.packages[found.unwrap()];
            assert(pkg@ == g[package_index(g, name@)]);
            let mut dropped = false;
            if contains_name(&out, name) {
                dropped = true;
            } else if (only_publishable && !pkg.publishable) || contains_name(barred, name) {
                dropped = true;
            } else if depends_on(pkg, &out) {
                let copy = name.clone();
                out.push(copy);
                progressed = true;
                dropped = true;
                proof {
                    let now = name_models(out@);
                    assert(now =~= cur.push(name@));
                    assert(now.take(cur.len() as int) =~= cur);
                    assert forall|k: int| sm.len() <= k < now.len() implies listed(
                        om,
                        #[trigger] now[k],
                    ) && !listed(now.take(k), now[k]) && joins(
                        g,
                        now[k],
                        only_publishable,
                        bm,
                        now.take(k),
                    ) by {
                        if k < cur.len() {
                            assert(now.take(k) =~= cur.take(k));
                            assert(now[k] == cur[k]);
                        }
                    }
                    assert forall|k: int| 0 <= k < om.len() && listed(cur, #[trigger] om[k]) implies listed(
                        now,
                        om[k],
                    ) by {
                        lemma_listed_push(cur, om[k], name@);
                    }
                    lemma_listed_push(cur, name@, name@);
                }
            } else {
                next.push(idx);
                proof {
                    assert(next@[old_next.len() as int] == idx);
                    assert forall|k: int| holds_index(old_next, 0, k) implies holds_index(next@, 0, k) by {
                        let u = choose|u: int| 0 <= u < old_next.len() && #[trigger] old_next[u] == k;
                        assert(next@[u] == k);
                    }
                }
            }
            proof {
                assert forall|k: int| 0 <= k < om.len() implies holds_index(
                    remaining@,
                    t as int + 1,
                    k,
                ) || holds_index(next@, 0, k) || listed(name_models(out@), #[trigger] om[k])
                    || !eligible(g[package_index(g, om[k])], only_publishable, bm) by {
                    if holds_index(remaining@, t as int, k) && !holds_index(
                        remaining@,
                        t as int + 1,
                        k,
                    ) {
                        let w = choose|w: int| t <= w < remaining@.len() && #[trigger] remaining@[w] == k;
                        assert(w == t);
                        assert(k == idx);
                        if !dropped {
                            assert(next@[old_next.len() as int] == idx);
                        }
                    }
                }
            }
            t += 1;
        }
        remaining = next;
    }
    proof {
        let now = name_models(out@);
        assert forall|k: int|
            0 <= k < om.len() && joins(g, #[trigger] om[k], only_publishable, bm, now) implies listed(
            now,
            om[k],
        ) by {
            if holds_index(remaining@, 0, k) {
                let w = choose|w: int| 0 <= w < remaining@.len() && #[trigger] remaining@[w] == k;
                assert(!depends_on_listed(g[package_index(g, om[remaining@[w] as int])], now));
            }
        }
    }
    out
}


/// Closing a closure again changes nothing, and a closure holds its seed.
pub proof fn lemma_closure_idempotent(
    g: Seq<PackageModel>,
    order: Seq<Seq<char>>,
    seed: Seq<Seq<char>>,
    only_publishable: bool,
    barred: Seq<Seq<char>>,
    first: Seq<Seq<char>>,
    second: Seq<Seq<char>>,
)
    requires
        is_dependents_closure(g, order, seed, only_publishable, barred, first),
        is_dependents_closure(g, order, first, only_publishable, barred, second),
    ensures
        second == first,
        forall|name: Seq<char>| listed(seed, name) ==> listed(first, name),
{
    if second.len() > first.len() {
        let k = first.len() as int;
        let extra = second[k];
        assert(second.take(k) =~= first);
        let at = choose|at: int| 0 <= at < order.len() && #[trigger] order[at] == extra;
        assert(joins(g, order[at], only_publishable, barred, first));
    }
    assert(second =~= first);
    assert forall|name: Seq<char>| listed(seed, name) implies listed(first, name) by {
        let k = choose|k: int| 0 <= k < seed.len() && #[trigger] seed[k] == name;
        assert(first[k] == name);
    }
}

/// A larger seed gives a larger closure: what is reached from `small` is
/// reached from any seed that holds every name of `small`.
pub proof fn lemma_closure_monotone(
    g: Seq<PackageModel>,
    order: Seq<Seq<char>>,
    small: Seq<Seq<char>>,
    large: Seq<Seq<char>>,
    only_publishable: bool,
    barred: Seq<Seq<char>>,
    from_small: Seq<Seq<char>>,
    from_large: Seq<Seq<char>>,
    k: int,
)
    requires
        forall|name: Seq<char>| listed(small, name) ==> listed(large, name),
        is_dependents_closure(g, order, small, only_publishable, barred, from_small),
        is_dependents_closure(g, order, large, only_publishable, barred, from_large),
        0 <= k < from_small.len(),
    ensures
        listed(from_large, from_small[k]),
    decreases k,
{
    let name = from_small[k];
    if k < small.len() {
        assert(small[k] == name);
        assert(listed(small, name));
        let w = choose|w: int| 0 <= w < large.len() && #[trigger] large[w] == name;
        assert(from_large[w] == name);
    } else {
        let p = g[package_index(g, name)];
        let before = from_small.take(k);
        assert(joins(g, name, only_publishable, barred, before));
        let d = choose|d: int| 0 <= d < p.deps.len() && listed(before, #[trigger] p.deps[d]);
        let w = choose|w: int| 0 <= w < before.len() && #[trigger] before[w] == p.deps[d];
        assert(from_small[w] == p.deps[d]);
        lemma_closure_monotone(
            g,
            order,
            small,
            large,
            only_publishable,
            barred,
            from_small,
            from_large,
            w,
        );
        assert(depends_on_listed(p, from_large));
        let at = choose|at: int| 0 <= at < order.len() && #[trigger] order[at] == name;
        assert(joins(g, order[at], only_publishable, barred, from_large));
    }
}

/// A seed has one closure: two lists that both are its closure hold the
/// same names.
pub proof fn lemma_closure_members_unique(
    g: Seq<PackageModel>,
    order: Seq<Seq<char>>,
    seed: Seq<Seq<char>>,
    only_publishable: bool,
    barred: Seq<Seq<char>>,
    a: Seq<Seq<char>>,
    b: Seq<Seq<char>>,
)
    requires
        is_dependents_closure(g, order, seed, only_publishable, barred, a),
        is_dependents_closure(g, order, seed, only_publishable, barred, b),
    ensures
        forall|name: Seq<char>| listed(a, name) <==> listed(b, name),
{
    assert forall|name: Seq<char>| listed(a, name) <==> listed(b, name) by {
        if listed(a, name) {
            let k = choose|k: int| 0 <= k < a.len() && #[trigger] a[k] == name;
            lemma_closure_monotone(g, order, seed, seed, only_publishable, barred, a, b, k);
        }
        if listed(b, name) {
            let k = choose|k: int| 0 <= k < b.len() && #[trigger] b[k] == name;
            lemma_closure_monotone(g, order, seed, seed, only_publishable, barred, b, a, k);
        }
    }
}

} // verus!
