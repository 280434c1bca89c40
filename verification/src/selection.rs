use vstd::prelude::*;
use crate::workspace::{Workspace, PackageModel, name_models, has_package, package_index, listed, contains_name};
use crate::closure::{order_known, is_dependents_closure, close_over_dependents, copy_names, lemma_listed_push};

verus! {

/// The packages to act on, in publish order, and the names that are
/// excluded, for the validation that follows.
pub struct Selection {
    pub packages: Vec<String>,
    pub excluded: Vec<String>,
}

/// Why no selection could be made.
#[derive(Debug, PartialEq, Eq, Structural, Clone, Copy)]
pub enum SelectionError {
    /// The options select no package at all.
    Empty,
}

/// The name held by an optional starting point.
pub open spec fn start_model(start: Option<String>) -> Option<Seq<char>> {
    match start {
        Some(s) => Some(s@),
        None => None,
    }
}

/// With no package asked for by name: the names of `order` that are
/// publishable and not excluded, and the starting point in any case.
pub open spec fn base_of_all(
    g: Seq<PackageModel>,
    order: Seq<Seq<char>>,
    excluded: Seq<Seq<char>>,
    start: Option<Seq<char>>,
) -> Seq<Seq<char>>
    decreases order.len(),
{
    if order.len() == 0 {
        Seq::empty()
    } else {
        let rest = base_of_all(g, order.drop_last(), excluded, start);
        let name = order.last();
        if start == Some(name) || (!listed(excluded, name) && g[package_index(
            g,
            name,
        )].publishable) {
            rest.push(name)
        } else {
            rest
        }
    }
}

/// The names of `order` that are among `included`.
pub open spec fn base_of_requested(order: Seq<Seq<char>>, included: Seq<Seq<char>>) -> Seq<
    Seq<char>,
>
    decreases order.len(),
{
    if order.len() == 0 {
        Seq::empty()
    } else {
        let rest = base_of_requested(order.drop_last(), included);
        if listed(included, order.last()) {
            rest.push(order.last())
        } else {
            rest
        }
    }
}

/// `names` without what precedes the first `start`; with `drop_start`,
/// without `start` itself too.
pub open spec fn from_start(names: Seq<Seq<char>>, start: Seq<char>, drop_start: bool) -> Seq<
    Seq<char>,
>
    decreases names.len(),
{
    if names.len() == 0 {
        Seq::empty()
    } else {
        let rest = from_start(names.drop_last(), start, drop_start);
        if listed(names, start) && !(names.last() == start && drop_start) {
            rest.push(names.last())
        } else {
            rest
        }
    }
}

/// The packages to act on, given the closed exclusion list and the closed
/// list of included names.
pub open spec fn planned(
    g: Seq<PackageModel>,
    order: Seq<Seq<char>>,
    requested: Seq<Seq<char>>,
    start: Option<Seq<char>>,
    excluded: Seq<Seq<char>>,
    included: Seq<Seq<char>>,
) -> Seq<Seq<char>> {
    let base = if requested.len() == 0 {
        base_of_all(g, order, excluded, start)
    } else {
        base_of_requested(order, included)
    };
    match start {
        Some(s) => from_start(base, s, listed(excluded, s)),
        None => base,
    }
}

/// The selection when no package is asked for by name.
pub fn keep_all(
    ws: &Workspace,
    order: &Vec<String>,
    excluded: &Vec<String>,
    start_from: &Option<String>,
) -> (out: Vec<String>)
    requires
        ws.wf(),
        order_known(ws@, name_models(order@)),
    ensures
        name_models(out@) == base_of_all(
            ws@,
            name_models(order@),
            name_models(excluded@),
            start_model(*start_from),
        ),
{
    let ghost g = ws@;
    let ghost om = name_models(order@);
    let ghost em = name_models(excluded@);
    let ghost st = start_model(*start_from);
    let mut out: Vec<String> = Vec::new();
    let mut i: usize = 0;
    while i < order.len()
        invariant
            i <= order.len(),
            g == ws@,
            om == name_models(order@),
            em == name_models(excluded@),
            st == start_model(*start_from),
            ws.wf(),
            order_known(g, om),
            name_models(out@) == base_of_all(g, om.take(i as int), em, st),
        decreases order.len() - i,
    {
        let name = &order[i];
        proof {
            assert(om.take(i as int + 1).drop_last() =~= om.take(i as int));
            assert(om.take(i as int + 1).last() == name@);
            assert(has_package(g, om[i as int]));
        }
        let is_start = match start_from {
            Some(s) => *s == *name,
            None => false,
        };
        let mut keep = is_start;
        if !keep && !contains_name(excluded, name) {
            let found = ws.find(name);
            keep = ws.packages[found.unwrap()].publishable;
        }
        if keep {
            let ghost before = name_models(out@);
            let copy = name.clone();
            out.push(copy);
            proof {
                assert(name_models(out@) =~= before.push(name@));
            }
        }
        i += 1;
    }
    proof {
        assert(om.take(order.len() as int) =~= om);
    }
    out
}

/// The selection when packages are asked for by name.
pub fn keep_requested(order: &Vec<String>, included: &Vec<String>) -> (out: Vec<String>)
    ensures
        name_models(out@) == base_of_requested(name_models(order@), name_models(included@)),
{
    let ghost om = name_models(order@);
    let mut out: Vec<String> = Vec::new();
    let mut i: usize = 0;
    while i < order.len()
        invariant
            i <= order.len(),
            om == name_models(order@),
            name_models(out@) == base_of_requested(om.take(i as int), name_models(included@)),
        decreases order.len() - i,
    {
        let name = &order[i];
        proof {
            assert(om.take(i as int + 1).drop_last() =~= om.take(i as int));
            assert(om.take(i as int + 1).last() == name@);
        }
        if contains_name(included, name) {
            let ghost before = name_models(out@);
            let copy = name.clone();
            out.push(copy);
            proof {
                assert(name_models(out@) =~= before.push(name@));
            }
        }
        i += 1;
    }
    proof {
        assert(om.take(order.len() as int) =~= om);
    }
    out
}

/// Drops what precedes the starting point, and the starting point itself
/// where `drop_start` says so.
pub fn slice_from_start(names: &Vec<String>, start: &String, drop_start: bool) -> (out: Vec<String>)
    ensures
        name_models(out@) == from_start(name_models(names@), start@, drop_start),
{
    let ghost nm = name_models(names@);
    let mut out: Vec<String> = Vec::new();
    let mut keep = false;
    let mut i: usize = 0;
    while i < names.len()
        invariant
            i <= names.len(),
            nm == name_models(names@),
            keep == listed(nm.take(i as int), start@),
            name_models(out@) == from_start(nm.take(i as int), start@, drop_start),
        decreases names.len() - i,
    {
        let name = &names[i];
        let ghost shorter = nm.take(i as int);
        let ghost longer = nm.take(i as int + 1);
        proof {
            assert(longer.drop_last() =~= shorter);
            assert(longer.last() == name@);
            assert(longer =~= shorter.push(name@));
            lemma_listed_push(shorter, start@, name@);
        }
        let is_start = *name == *start;
        if is_start {
            keep = true;
        }
        if keep && !(is_start && drop_start) {
            let ghost before = name_models(out@);
            let copy = name.clone();
            out.push(copy);
            proof {
                assert(name_models(out@) =~= before.push(name@));
            }
        }
        i += 1;
    }
    proof {
        assert(nm.take(names.len() as int) =~= nm);
    }
    out
}

/// `res` is what the options select: the exclusion list closed over
/// dependents, the packages asked for closed over dependents where that is
/// wanted, and the packages to act on; an error exactly where there is none
/// to act on.
pub open spec fn selection_outcome(
    g: Seq<PackageModel>,
    order: Seq<Seq<char>>,
    requested: Seq<Seq<char>>,
    start: Option<Seq<char>>,
    include_dependents: bool,
    exclude: Seq<Seq<char>>,
    res: Result<Selection, SelectionError>,
) -> bool {
    exists|excluded: Seq<Seq<char>>, included: Seq<Seq<char>>|
        {
            &&& is_dependents_closure(g, order, exclude, false, Seq::empty(), excluded)
            &&& if include_dependents {
                is_dependents_closure(g, order, requested, true, excluded, included)
            } else {
                included == requested
            }
            &&& match res {
                Ok(sel) => {
                    &&& name_models(sel.excluded@) == excluded
                    &&& name_models(sel.packages@) == #[trigger] planned(
                        g,
                        order,
                        requested,
                        start,
                        excluded,
                        included,
                    )
                    &&& sel.packages@.len() > 0
                },
                Err(_) => #[trigger] planned(g, order, requested, start, excluded, included).len()
                    == 0,
            }
        }
}

/// Turns the options of one run into the packages to act on.
///
/// The exclusion list is closed over dependents first. With no package
/// asked for, every publishable package that is not excluded is taken, and
/// the starting point in any case; otherwise the packages asked for and,
/// with `include_dependents`, the publishable, not excluded packages that
/// depend on them. What remains is put in publish order and cut before the
/// starting point; a starting point that is excluded is cut too.
pub fn select_packages(
    ws: &Workspace,
    order: &Vec<String>,
    requested: &Vec<String>,
    start_from: &Option<String>,
    include_dependents: bool,
    exclude: &Vec<String>,
) -> (res: Result<Selection, SelectionError>)
    requires
        ws.wf(),
        order_known(ws@, name_models(order@)),
    ensures
        selection_outcome(
            ws@,
            name_models(order@),
            name_models(requested@),
            start_model(*start_from),
            include_dependents,
            name_models(exclude@),
            res,
        ),
{
    let none: Vec<String> = Vec::new();
    proof {
        assert(name_models(none@) =~= Seq::empty());
    }
    let excluded = close_over_dependents(ws, order, exclude, false, &none);
    let included = if include_dependents {
        close_over_dependents(ws, order, requested, true, &excluded)
    } else {
        copy_names(requested)
    };
    let base = if requested.len() == 0 {
        keep_all(ws, order, &excluded, start_from)
    } else {
        keep_requested(order, &included)
    };
    let packages = match start_from {
        Some(s) => {
            let drop_start = contains_name(&excluded, s);
            slice_from_start(&base, s, drop_start)
        },
        None => base,
    };
    proof {
        assert(name_models(packages@) == planned(
            ws@,
            name_models(order@),
            name_models(requested@),
            start_model(*start_from),
            name_models(excluded@),
            name_models(included@),
        ));
    }
    if packages.len() == 0 {
        Err(SelectionError::Empty)
    } else {
        Ok(Selection { packages, excluded })
    }
}

/// What is kept from the starting point on was in the list, and is not
/// the starting point where that is dropped.
pub proof fn lemma_from_start_members(
    names: Seq<Seq<char>>,
    start: Seq<char>,
    drop_start: bool,
    name: Seq<char>,
)
    requires
        listed(from_start(names, start, drop_start), name),
    ensures
        listed(names, name),
        !(drop_start && name == start),
    decreases names.len(),
{
    if names.len() > 0 {
        let rest = names.drop_last();
        assert(names =~= rest.push(names.last()));
        lemma_listed_push(rest, name, names.last());
        lemma_listed_push(from_start(rest, start, drop_start), name, names.last());
        if listed(from_start(rest, start, drop_start), name) {
            lemma_from_start_members(rest, start, drop_start, name);
        }
    }
}

/// What is selected with no package asked for is a name of the order.
pub proof fn lemma_base_of_all_members(
    g: Seq<PackageModel>,
    order: Seq<Seq<char>>,
    excluded: Seq<Seq<char>>,
    start: Option<Seq<char>>,
    name: Seq<char>,
)
    requires
        listed(base_of_all(g, order, excluded, start), name),
    ensures
        listed(order, name),
        start == Some(name) || (!listed(excluded, name) && g[package_index(g, name)].publishable),
    decreases order.len(),
{
    if order.len() > 0 {
        let rest = order.drop_last();
        assert(order =~= rest.push(order.last()));
        lemma_listed_push(rest, name, order.last());
        lemma_listed_push(base_of_all(g, rest, excluded, start), name, order.last());
        if listed(base_of_all(g, rest, excluded, start), name) {
            lemma_base_of_all_members(g, rest, excluded, start, name);
        }
    }
}

/// What is selected among the packages asked for is a name of the order
/// and one of the included names.
pub proof fn lemma_base_of_requested_members(
    order: Seq<Seq<char>>,
    included: Seq<Seq<char>>,
    name: Seq<char>,
)
    requires
        listed(base_of_requested(order, included), name),
    ensures
        listed(order, name),
        listed(included, name),
    decreases order.len(),
{
    if order.len() > 0 {
        let rest = order.drop_last();
        assert(order =~= rest.push(order.last()));
        lemma_listed_push(rest, name, order.last());
        lemma_listed_push(base_of_requested(rest, included), name, order.last());
        if listed(base_of_requested(rest, included), name) {
            lemma_base_of_requested_members(rest, included, name);
        }
    }
}

/// Every package to act on is a name of the publish order, and a starting
/// point that is excluded is never among them: exclusion wins over the
/// starting point. With no package asked for, nothing excluded is selected,
/// and nothing that is not publishable but the starting point.
pub proof fn lemma_planned_within_order(
    g: Seq<PackageModel>,
    order: Seq<Seq<char>>,
    requested: Seq<Seq<char>>,
    start: Option<Seq<char>>,
    excluded: Seq<Seq<char>>,
    included: Seq<Seq<char>>,
    name: Seq<char>,
)
    requires
        listed(planned(g, order, requested, start, excluded, included), name),
    ensures
        listed(order, name),
        start == Some(name) ==> !listed(excluded, name),
        requested.len() == 0 ==> !listed(excluded, name),
        requested.len() == 0 && start != Some(name) ==> g[package_index(g, name)].publishable,
{
    let base = if requested.len() == 0 {
        base_of_all(g, order, excluded, start)
    } else {
        base_of_requested(order, included)
    };
    match start {
        Some(s) => {
            lemma_from_start_members(base, s, listed(excluded, s), name);
        },
        None => {},
    }
    if requested.len() == 0 {
        lemma_base_of_all_members(g, order, excluded, start, name);
    } else {
        lemma_base_of_requested_members(order, included, name);
    }
}

} // verus!
