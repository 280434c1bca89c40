use vstd::prelude::*;
use crate::workspace::{Workspace, PackageModel, name_models, has_package, package_index, deps_of, listed, distinct, contains_name, lemma_package_index, lemma_distinct_names_bounded};
use crate::closure::lemma_listed_push;

verus! {

/// What is wrong with a package that a selected package depends on.
#[derive(Debug, PartialEq, Eq, Structural, Clone, Copy)]
pub enum Offence {
    /// It is on the exclusion list.
    Excluded,
    /// Its manifest says that it is not to be published.
    NotPublishable,
    /// The workspace has no package of that name.
    Unknown,
}

/// A package that must not be published, and how it is reached.
pub struct ValidationFailure {
    /// The offending package.
    pub package: String,
    /// The package that depends on it directly, unless that is `initial`.
    pub parent: Option<String>,
    /// The selected package from which it is reached.
    pub initial: String,
    /// What is wrong with it.
    pub offence: Offence,
    /// The offending package's manifest; empty where it is unknown.
    pub manifest: String,
}

/// Each name of `path` but the last depends directly on the next.
pub open spec fn is_dep_path(g: Seq<PackageModel>, path: Seq<Seq<char>>) -> bool {
    forall|i: int|
        0 <= i < path.len() - 1 ==> has_package(g, #[trigger] path[i]) && listed(
            deps_of(g, path[i]),
            path[i + 1],
        )
}

/// `to` is `from` or one of its direct or indirect dependencies.
pub open spec fn reaches(g: Seq<PackageModel>, from: Seq<char>, to: Seq<char>) -> bool {
    exists|path: Seq<Seq<char>>|
        path.len() > 0 && path[0] == from && path.last() == to && #[trigger] is_dep_path(g, path)
}

/// What, if anything, forbids publishing something that depends on `name`.
pub open spec fn offence_of(g: Seq<PackageModel>, excluded: Seq<Seq<char>>, name: Seq<char>) -> Option<
    Offence,
> {
    if listed(excluded, name) {
        Some(Offence::Excluded)
    } else if !has_package(g, name) {
        Some(Offence::Unknown)
    } else if !g[package_index(g, name)].publishable {
        Some(Offence::NotPublishable)
    } else {
        None
    }
}

/// Nothing that `initial` reaches forbids publishing it.
pub open spec fn safe_to_publish(g: Seq<PackageModel>, excluded: Seq<Seq<char>>, initial: Seq<char>) -> bool {
    forall|name: Seq<char>| #[trigger] reaches(g, initial, name) ==> offence_of(g, excluded, name) is None
}

/// `parent` is how `name` was reached from `initial`: a package that
/// nothing forbids and that depends on it directly, or nothing where that
/// is `initial` itself.
pub open spec fn parent_links(
    g: Seq<PackageModel>,
    excluded: Seq<Seq<char>>,
    initial: Seq<char>,
    parent: Option<Seq<char>>,
    name: Seq<char>,
) -> bool {
    match parent {
        Some(p) => p != initial && reaches(g, initial, p) && offence_of(g, excluded, p) is None
            && listed(deps_of(g, p), name),
        None => name == initial || (offence_of(g, excluded, initial) is None && listed(
            deps_of(g, initial),
            name,
        )),
    }
}

/// The name held by an optional parent.
pub open spec fn parent_model(parent: Option<String>) -> Option<Seq<char>> {
    match parent {
        Some(p) => Some(p@),
        None => None,
    }
}

/// The failure names a package that `initial` reaches and that must not be
/// published, with the reason and the package through which it is reached.
pub open spec fn failure_explains(
    g: Seq<PackageModel>,
    excluded: Seq<Seq<char>>,
    initial: Seq<char>,
    f: ValidationFailure,
) -> bool {
    &&& f.initial@ == initial
    &&& reaches(g, initial, f.package@)
    &&& offence_of(g, excluded, f.package@) == Some(f.offence)
    &&& parent_links(g, excluded, initial, parent_model(f.parent), f.package@)
    &&& f.offence == Offence::NotPublishable ==> f.manifest@ == g[package_index(g, f.package@)].manifest
    &&& f.offence != Offence::NotPublishable ==> f.manifest@.len() == 0
}

/// Every name reaches itself.
pub proof fn lemma_reaches_self(g: Seq<PackageModel>, a: Seq<char>)
    ensures
        reaches(g, a, a),
{
    let path = seq![a];
    assert(is_dep_path(g, path));
    assert(path.len() > 0 && path[0] == a && path.last() == a);
}

/// What a reached package depends on is reached too.
pub proof fn lemma_reaches_step(g: Seq<PackageModel>, a: Seq<char>, b: Seq<char>, c: Seq<char>)
    requires
        reaches(g, a, b),
        has_package(g, b),
        listed(deps_of(g, b), c),
    ensures
        reaches(g, a, c),
{
    let path = choose|path: Seq<Seq<char>>|
        path.len() > 0 && path[0] == a && path.last() == b && #[trigger] is_dep_path(g, path);
    let longer = path.push(c);
    assert forall|i: int| 0 <= i < longer.len() - 1 implies has_package(g, #[trigger] longer[i])
        && listed(deps_of(g, longer[i]), longer[i + 1]) by {
        if i < path.len() - 1 {
            assert(longer[i] == path[i]);
            assert(longer[i + 1] == path[i + 1]);
        } else {
            assert(longer[i] == b);
            assert(longer[i + 1] == c);
        }
    }
    assert(is_dep_path(g, longer));
    assert(longer.len() > 0 && longer[0] == a && longer.last() == c);
}

/// A list that holds the dependencies of each of its names holds whatever
/// one of its names reaches.
pub proof fn lemma_closed_holds_path(
    g: Seq<PackageModel>,
    seen: Seq<Seq<char>>,
    path: Seq<Seq<char>>,
    i: int,
)
    requires
        forall|k: int, d: int|
            0 <= k < seen.len() && 0 <= d < deps_of(g, seen[k]).len() ==> listed(
                seen,
                #[trigger] deps_of(g, #[trigger] seen[k])[d],
            ),
        is_dep_path(g, path),
        0 <= i < path.len(),
        listed(seen, path[0]),
    ensures
        listed(seen, path[i]),
    decreases i,
{
    if i > 0 {
        lemma_closed_holds_path(g, seen, path, i - 1);
        let k = choose|k: int| 0 <= k < seen.len() && #[trigger] seen[k] == path[i - 1];
        assert(has_package(g, path[i - 1]) && listed(deps_of(g, path[i - 1]), path[i - 1 + 1]));
        let deps = deps_of(g, seen[k]);
        let d = choose|d: int| 0 <= d < deps.len() && #[trigger] deps[d] == path[i];
        assert(listed(seen, deps_of(g, seen[k])[d]));
    }
}


/// A package that is still to be looked at, and how it was reached.
pub struct Pending {
    pub name: String,
    pub parent: Option<String>,
}

/// `name` is still to be looked at.
pub open spec fn on_stack(stack: Seq<Pending>, name: Seq<char>) -> bool {
    exists|s: int| 0 <= s < stack.len() && (#[trigger] stack[s]).name@ == name
}

/// Dependency `d` of the `k`-th package seen has been seen or is still to
/// be looked at.
pub open spec fn dep_accounted(
    g: Seq<PackageModel>,
    seen: Seq<Seq<char>>,
    stack: Seq<Pending>,
    k: int,
    d: int,
) -> bool {
    listed(seen, deps_of(g, seen[k])[d]) || on_stack(stack, deps_of(g, seen[k])[d])
}

/// Each entry of the stack is reached from `initial` through its parent.
pub open spec fn stack_linked(
    g: Seq<PackageModel>,
    excluded: Seq<Seq<char>>,
    initial: Seq<char>,
    stack: Seq<Pending>,
) -> bool {
    forall|s: int|
        0 <= s < stack.len() ==> reaches(g, initial, (#[trigger] stack[s]).name@) && parent_links(
            g,
            excluded,
            initial,
            parent_model(stack[s].parent),
            stack[s].name@,
        )
}

/// Each package seen is a package of the workspace that `initial` reaches
/// and that nothing forbids.
pub open spec fn seen_sound(
    g: Seq<PackageModel>,
    excluded: Seq<Seq<char>>,
    initial: Seq<char>,
    seen: Seq<Seq<char>>,
) -> bool {
    forall|k: int|
        0 <= k < seen.len() ==> has_package(g, #[trigger] seen[k]) && offence_of(
            g,
            excluded,
            seen[k],
        ) is None && reaches(g, initial, seen[k])
}

/// A pending package as plain values.
pub struct PendingModel {
    pub name: Seq<char>,
    pub parent: Option<Seq<char>>,
}

impl View for Pending {
    type V = PendingModel;

    open spec fn view(&self) -> PendingModel {
        PendingModel { name: self.name@, parent: parent_model(self.parent) }
    }
}

/// The views of a stack of pending packages.
pub open spec fn pending_models(stack: Seq<Pending>) -> Seq<PendingModel> {
    Seq::new(stack.len(), |s: int| stack[s]@)
}

/// A failure as plain values.
pub struct FailureModel {
    pub package: Seq<char>,
    pub parent: Option<Seq<char>>,
    pub initial: Seq<char>,
    pub offence: Offence,
    pub manifest: Seq<char>,
}

impl View for ValidationFailure {
    type V = FailureModel;

    open spec fn view(&self) -> FailureModel {
        FailureModel {
            package: self.package@,
            parent: parent_model(self.parent),
            initial: self.initial@,
            offence: self.offence,
            manifest: self.manifest@,
        }
    }
}

/// The dependencies of the package called `name` as pending packages, the
/// first dependency on top.
pub open spec fn children(g: Seq<PackageModel>, initial: Seq<char>, name: Seq<char>) -> Seq<
    PendingModel,
> {
    let deps = deps_of(g, name);
    let parent = if name == initial {
        None
    } else {
        Some(name)
    };
    Seq::new(deps.len(), |t: int| PendingModel { name: deps[deps.len() - 1 - t], parent })
}

/// The first package that must not be published, walking depth first from
/// the top of `pending` and passing over what was `seen`; nothing where the
/// walk meets none.
pub open spec fn first_failure(
    g: Seq<PackageModel>,
    excluded: Seq<Seq<char>>,
    initial: Seq<char>,
    pending: Seq<PendingModel>,
    seen: Seq<Seq<char>>,
) -> Option<FailureModel>
    decreases g.len() - seen.len(), pending.len(),
{
    if pending.len() == 0 {
        None
    } else {
        let top = pending.last();
        let rest = pending.drop_last();
        if listed(seen, top.name) {
            first_failure(g, excluded, initial, rest, seen)
        } else {
            match offence_of(g, excluded, top.name) {
                Some(offence) => Some(
                    FailureModel {
                        package: top.name,
                        parent: top.parent,
                        initial,
                        offence,
                        manifest: if offence == Offence::NotPublishable {
                            g[package_index(g, top.name)].manifest
                        } else {
                            Seq::empty()
                        },
                    },
                ),
                None => if seen.len() < g.len() {
                    first_failure(
                        g,
                        excluded,
                        initial,
                        rest + children(g, initial, top.name),
                        seen.push(top.name),
                    )
                } else {
                    None
                },
            }
        }
    }
}

/// The first package that must not be published on a depth-first walk of
/// the dependencies of `initial`, each package's dependencies in their
/// order.
pub open spec fn first_offender(
    g: Seq<PackageModel>,
    excluded: Seq<Seq<char>>,
    initial: Seq<char>,
) -> Option<FailureModel> {
    first_failure(
        g,
        excluded,
        initial,
        seq![PendingModel { name: initial, parent: None }],
        Seq::empty(),
    )
}

/// What is on a stack stays there when an entry is added, and the entry is
/// there.
pub proof fn lemma_on_stack_push(stack: Seq<Pending>, entry: Pending, name: Seq<char>)
    ensures
        on_stack(stack, name) ==> on_stack(stack.push(entry), name),
        on_stack(stack.push(entry), entry.name@),
        on_stack(stack.push(entry), name) ==> on_stack(stack, name) || name == entry.name@,
{
    let bigger = stack.push(entry);
    if on_stack(stack, name) {
        let s = choose|s: int| 0 <= s < stack.len() && (#[trigger] stack[s]).name@ == name;
        assert(bigger[s].name@ == name);
    }
    assert(bigger[stack.len() as int].name@ == entry.name@);
    if on_stack(bigger, name) {
        let s = choose|s: int| 0 <= s < bigger.len() && (#[trigger] bigger[s]).name@ == name;
        if s < stack.len() {
            assert(stack[s].name@ == name);
        }
    }
}

/// Walks the dependencies of `initial`, depth first, and reports the first
/// package met that is excluded, unknown or not to be published.
pub fn validate_package(ws: &Workspace, initial: &String, excluded: &Vec<String>) -> (res: Result<
    (),
    ValidationFailure,
>)
    requires
        ws.wf(),
    ensures
        match res {
            Ok(_) => safe_to_publish(ws@, name_models(excluded@), initial@),
            Err(f) => failure_explains(ws@, name_models(excluded@), initial@, f),
        },
        match res {
            Ok(_) => first_offender(ws@, name_models(excluded@), initial@) is None,
            Err(f) => first_offender(ws@, name_models(excluded@), initial@) == Some(f@),
        },
{
    let ghost g = ws@;
    let ghost ex = name_models(excluded@);
    let ghost init = initial@;
    let mut visited: Vec<String> = Vec::new();
    let mut stack: Vec<Pending> = Vec::new();
    let first = Pending { name: initial.clone(), parent: None };
    proof {
        lemma_reaches_self(g, init);
        lemma_on_stack_push(stack@, first, init);
    }
    stack.push(first);
    let ghost goal = first_offender(g, ex, init);
    proof {
        assert(pending_models(stack@) =~= seq![PendingModel { name: init, parent: None }]);
        assert(name_models(visited@) =~= Seq::empty());
    }
    while stack.len() > 0
        invariant
            goal == first_offender(g, ex, init),
            goal == first_failure(g, ex, init, pending_models(stack@), name_models(visited@)),
            g == ws@,
            ex == name_models(excluded@),
            init == initial@,
            ws.wf(),
            distinct(name_models(visited@)),
            seen_sound(g, ex, init, name_models(visited@)),
            forall|k: int, d: int|
                0 <= k < visited@.len() && 0 <= d < deps_of(g, name_models(visited@)[k]).len()
                    ==> #[trigger] dep_accounted(g, name_models(visited@), stack@, k, d),
            listed(name_models(visited@), init) || on_stack(stack@, init),
            stack_linked(g, ex, init, stack@),
            visited@.len() <= g.len(),
        decreases g.len() - visited@.len(), stack@.len(),
    {
        let ghost full = stack@;
        let ghost vm = name_models(visited@);
        let entry = stack.pop().unwrap();
        let ghost rest = stack@;
        proof {
            assert(full =~= rest.push(entry));
            assert(full[rest.len() as int] == entry);
            assert(pending_models(full).drop_last() =~= pending_models(rest));
            assert(pending_models(full).last() == entry@);
            assert forall|s: int| 0 <= s < rest.len() implies rest[s] == full[s] by {}
            assert(stack_linked(g, ex, init, rest));
        }
        if contains_name(&visited, &entry.name) {
            proof {
                assert forall|k: int, d: int|
                    0 <= k < vm.len() && 0 <= d < deps_of(g, vm[k]).len() implies #[trigger] dep_accounted(
                    g,
                    vm,
                    rest,
                    k,
                    d,
                ) by {
                    assert(dep_accounted(g, vm, full, k, d));
                    lemma_on_stack_push(rest, entry, deps_of(g, vm[k])[d]);
                }
                lemma_on_stack_push(rest, entry, init);
            }
        } else if contains_name(excluded, &entry.name) {
            let failure = ValidationFailure {
                package: entry.name,
                parent: entry.parent,
                initial: initial.clone(),
                offence: Offence::Excluded,
                manifest: String::new(),
            };
            return Err(failure);
        } else {
            let found = ws.find(&entry.name);
            if found.is_none() {
                return Err(
                    ValidationFailure {
                        package: entry.name,
                        parent: entry.parent,
                        initial: initial.clone(),
                        offence: Offence::Unknown,
                        manifest: String::new(),
                    },
                );
            }
            let i = found.unwrap();
            let pkg = &ws.packages[i];
            proof {
                lemma_package_index(g, i as int);
                assert(g[i as int] == pkg@);
            }
            if !pkg.publishable {
                return Err(
                    ValidationFailure {
                        package: entry.name,
                        parent: entry.parent,
                        initial: initial.clone(),
                        offence: Offence::NotPublishable,
                        manifest: pkg.manifest.clone(),
                    },
                );
            }
            let is_initial = entry.name == *initial;
            let ghost name = entry.name@;
            let ghost deps = g[i as int].deps;
            let copy = entry.name.clone();
            visited.push(copy);
            let ghost vm2 = name_models(visited@);
            proof {
                assert(vm2 =~= vm.push(name));
                assert forall|a: int, b: int| 0 <= a < b < vm2.len() implies #[trigger] vm2[a]
                    != #[trigger] vm2[b] by {
                    assert(vm2[a] == vm[a]);
                    if b < vm.len() {
                        assert(vm2[b] == vm[b]);
                    }
                }
                assert forall|k: int| 0 <= k < vm2.len() implies has_package(g, #[trigger] vm2[k])
                    && offence_of(g, ex, vm2[k]) is None && reaches(g, init, vm2[k]) by {
                    if k < vm.len() {
                        assert(vm2[k] == vm[k]);
                    }
                }
                lemma_distinct_names_bounded(g, vm2);
                assert forall|k: int, d: int|
                    0 <= k < vm.len() && 0 <= d < deps_of(g, vm2[k]).len() implies #[trigger] dep_accounted(
                    g,
                    vm2,
                    rest,
                    k,
                    d,
                ) by {
                    assert(vm2[k] == vm[k]);
                    assert(dep_accounted(g, vm, full, k, d));
                    let dep = deps_of(g, vm[k])[d];
                    lemma_on_stack_push(rest, entry, dep);
                    lemma_listed_push(vm, dep, name);
                }
                lemma_on_stack_push(rest, entry, init);
                lemma_listed_push(vm, init, name);
            }
            let ghost below_all = pending_models(rest);
            let ghost kids = children(g, init, name);
            proof {
                assert(vm.len() < g.len());
                assert(offence_of(g, ex, name) is None);
                assert(goal == first_failure(g, ex, init, below_all + kids, vm2));
                assert(kids.take(0) =~= Seq::empty());
                assert(pending_models(stack@) =~= below_all + kids.take(0));
            }
            let mut j: usize = pkg.deps.len();
            while j > 0
                invariant
                    kids == children(g, init, name),
                    kids.len() == deps.len(),
                    pending_models(stack@) == below_all + kids.take(deps.len() - j),
                    g == ws@,
                    init == initial@,
                    ws.wf(),
                    i < ws.packages.len(),
                    pkg == &ws.packages[i as int],
                    deps == g[i as int].deps,
                    deps == deps_of(g, name),
                    deps == name_models(pkg.deps@),
                    has_package(g, name),
                    reaches(g, init, name),
                    ex == name_models(excluded@),
                    offence_of(g, ex, name) is None,
                    name == entry.name@,
                    is_initial == (name == init),
                    j <= pkg.deps.len(),
                    vm2 == name_models(visited@),
                    vm2.len() == vm.len() + 1,
                    vm2[vm.len() as int] == name,
                    forall|k: int, d: int|
                        0 <= k < vm.len() && 0 <= d < deps_of(g, vm2[k]).len()
                            ==> #[trigger] dep_accounted(g, vm2, stack@, k, d),
                    forall|d: int| j <= d < deps.len() ==> on_stack(stack@, #[trigger] deps[d]),
                    listed(vm2, init) || on_stack(stack@, init),
                    stack_linked(g, ex, init, stack@),
                decreases j,
            {
                j -= 1;
                let parent = if is_initial {
                    None
                } else {
                    Some(entry.name.clone())
                };
                let next = Pending { name: pkg.deps[j].clone(), parent };
                let ghost below = stack@;
                proof {
                    let t = deps.len() - 1 - j;
                    assert(kids[t] == next@);
                    assert(kids.take(t + 1) =~= kids.take(t).push(kids[t]));
                    assert(pending_models(below.push(next)) =~= pending_models(below).push(next@));
                    assert(pending_models(below.push(next)) =~= below_all + kids.take(t + 1));
                    assert(next.name@ == deps[j as int]);
                    assert(listed(deps_of(g, name), next.name@));
                    lemma_reaches_step(g, init, name, next.name@);
                    assert(parent_links(g, ex, init, parent_model(next.parent), next.name@));
                    assert forall|k: int, d: int|
                        0 <= k < vm.len() && 0 <= d < deps_of(g, vm2[k]).len() implies #[trigger] dep_accounted(
                        g,
                        vm2,
                        below.push(next),
                        k,
                        d,
                    ) by {
                        assert(dep_accounted(g, vm2, below, k, d));
                        lemma_on_stack_push(below, next, deps_of(g, vm2[k])[d]);
                    }
                    assert forall|d: int| j <= d < deps.len() implies on_stack(
                        below.push(next),
                        #[trigger] deps[d],
                    ) by {
                        lemma_on_stack_push(below, next, deps[d]);
                    }
                    lemma_on_stack_push(below, next, init);
                    assert forall|s: int| 0 <= s < below.push(next).len() implies reaches(
                        g,
                        init,
                        (#[trigger] below.push(next)[s]).name@,
                    ) && parent_links(
                        g,
                        ex,
                        init,
                        parent_model(below.push(next)[s].parent),
                        below.push(next)[s].name@,
                    ) by {
                        if s < below.len() {
                            assert(below.push(next)[s] == below[s]);
                        }
                    }
                }
                stack.push(next);
            }
            proof {
                assert(kids.take(deps.len() as int) =~= kids);
                assert forall|k: int, d: int|
                    0 <= k < vm2.len() && 0 <= d < deps_of(g, vm2[k]).len() implies #[trigger] dep_accounted(
                    g,
                    vm2,
                    stack@,
                    k,
                    d,
                ) by {
                    if k == vm.len() {
                        assert(on_stack(stack@, deps[d]));
                    }
                }
            }
        }
    }
    proof {
        let vm = name_models(visited@);
        assert forall|k: int, d: int|
            0 <= k < vm.len() && 0 <= d < deps_of(g, vm[k]).len() implies listed(
            vm,
            #[trigger] deps_of(g, #[trigger] vm[k])[d],
        ) by {
            assert(dep_accounted(g, vm, stack@, k, d));
        }
        assert forall|name: Seq<char>| #[trigger] reaches(g, init, name) implies offence_of(
            g,
            ex,
            name,
        ) is None by {
            let path = choose|path: Seq<Seq<char>>|
                path.len() > 0 && path[0] == init && path.last() == name && #[trigger] is_dep_path(
                    g,
                    path,
                );
            lemma_closed_holds_path(g, vm, path, path.len() - 1);
            let k = choose|k: int| 0 <= k < vm.len() && #[trigger] vm[k] == name;
            assert(offence_of(g, ex, vm[k]) is None);
        }
    }
    Ok(())
}

/// `failure` is what the walk from the first unsafe package of `selected`
/// meets first.
pub open spec fn first_unsafe(
    g: Seq<PackageModel>,
    excluded: Seq<Seq<char>>,
    selected: Seq<Seq<char>>,
    failure: ValidationFailure,
) -> bool {
    exists|k: int|
        0 <= k < selected.len() && failure_explains(g, excluded, #[trigger] selected[k], failure)
            && first_offender(g, excluded, selected[k]) == Some(failure@) && forall|e: int|
            0 <= e < k ==> safe_to_publish(g, excluded, #[trigger] selected[e])
}

/// Every package of `selected` is safe to publish.
pub open spec fn all_safe(
    g: Seq<PackageModel>,
    excluded: Seq<Seq<char>>,
    selected: Seq<Seq<char>>,
) -> bool {
    forall|k: int| 0 <= k < selected.len() ==> safe_to_publish(g, excluded, #[trigger] selected[k])
}

/// Validates each selected package in turn and stops at the first that
/// must not be published.
pub fn validate_selection(ws: &Workspace, selected: &Vec<String>, excluded: &Vec<String>) -> (res:
    Result<(), ValidationFailure>)
    requires
        ws.wf(),
    ensures
        match res {
            Ok(_) => all_safe(ws@, name_models(excluded@), name_models(selected@)),
            Err(f) => first_unsafe(ws@, name_models(excluded@), name_models(selected@), f),
        },
{
    let mut i: usize = 0;
    while i < selected.len()
        invariant
            ws.wf(),
            i <= selected@.len(),
            forall|k: int|
                0 <= k < i ==> safe_to_publish(
                    ws@,
                    name_models(excluded@),
                    #[trigger] name_models(selected@)[k],
                ),
        decreases selected@.len() - i,
    {
        match validate_package(ws, &selected[i], excluded) {
            Ok(_) => {},
            Err(f) => {
                assert(failure_explains(
                    ws@,
                    name_models(excluded@),
                    name_models(selected@)[i as int],
                    f,
                ));
                return Err(f);
            },
        }
        i += 1;
    }
    Ok(())
}

} // verus!
