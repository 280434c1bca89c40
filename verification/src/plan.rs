use vstd::prelude::*;
use crate::workspace::{Workspace, name_models, has_package};
use crate::order::{Ranked, OrderError, ranked_models, order_names, is_publish_order, rank_overflows, unorderable_names, resolve_publish_order, names_of};
use crate::closure::order_known;
use crate::selection::{Selection, SelectionError, selection_outcome, start_model, select_packages};
use crate::validate::{ValidationFailure, all_safe, first_unsafe, validate_selection};

verus! {

/// All that is decided before the first change to the tree.
pub struct Plan {
    /// The publish order, with ranks.
    pub order: Vec<Ranked>,
    /// The names of the publish order.
    pub names: Vec<String>,
    /// The packages to act on and the exclusion list.
    pub selection: Selection,
}

/// Why a run ends before the first change to the tree.
pub enum PlanError {
    /// The workspace has no publish order.
    Order(OrderError),
    /// The options select no package.
    Selection { order: Vec<Ranked> },
    /// A selected package reaches one that must not be published.
    Validation { order: Vec<Ranked>, selection: Selection, failure: ValidationFailure },
}

/// Resolves the publish order, selects the packages to act on and
/// validates each of them: what a run settles before it changes anything.
pub fn plan_run(
    ws: &Workspace,
    requested: &Vec<String>,
    start_from: &Option<String>,
    include_dependents: bool,
    exclude: &Vec<String>,
) -> (res: Result<Plan, PlanError>)
    requires
        ws.wf(),
    ensures
        match res {
            Ok(plan) => {
                &&& is_publish_order(ws@, ranked_models(plan.order@))
                &&& name_models(plan.names@) == order_names(ranked_models(plan.order@))
                &&& selection_outcome(
                    ws@,
                    name_models(plan.names@),
                    name_models(requested@),
                    start_model(*start_from),
                    include_dependents,
                    name_models(exclude@),
                    Ok(plan.selection),
                )
                &&& all_safe(
                    ws@,
                    name_models(plan.selection.excluded@),
                    name_models(plan.selection.packages@),
                )
            },
            Err(PlanError::Order(OrderError::RankOverflow)) => rank_overflows(ws@),
            Err(PlanError::Order(OrderError::Unorderable(names))) => {
                &&& !rank_overflows(ws@)
                &&& names@.len() > 0
                &&& name_models(names@) == unorderable_names(ws@, ws@.len() as int)
            },
            Err(PlanError::Selection { order }) => {
                &&& is_publish_order(ws@, ranked_models(order@))
                &&& selection_outcome(
                    ws@,
                    order_names(ranked_models(order@)),
                    name_models(requested@),
                    start_model(*start_from),
                    include_dependents,
                    name_models(exclude@),
                    Err(SelectionError::Empty),
                )
            },
            Err(PlanError::Validation { order, selection, failure }) => {
                &&& is_publish_order(ws@, ranked_models(order@))
                &&& selection_outcome(
                    ws@,
                    order_names(ranked_models(order@)),
                    name_models(requested@),
                    start_model(*start_from),
                    include_dependents,
                    name_models(exclude@),
                    Ok(selection),
                )
                &&& first_unsafe(
                    ws@,
                    name_models(selection.excluded@),
                    name_models(selection.packages@),
                    failure,
                )
            },
        },
{
    let order = match resolve_publish_order(ws) {
        Ok(order) => order,
        Err(e) => {
            return Err(PlanError::Order(e));
        },
    };
    let names = names_of(&order);
    proof {
        let l = ranked_models(order@);
        assert forall|k: int| 0 <= k < names@.len() implies has_package(
            ws@,
            #[trigger] name_models(names@)[k],
        ) by {
            assert(name_models(names@)[k] == l[k].name);
            assert(has_package(ws@, l[k].name));
        }
        assert(order_known(ws@, name_models(names@)));
    }
    let selection = match select_packages(
        ws,
        &names,
        requested,
        start_from,
        include_dependents,
        exclude,
    ) {
        Ok(selection) => selection,
        Err(_) => {
            return Err(PlanError::Selection { order });
        },
    };
    match validate_selection(ws, &selection.packages, &selection.excluded) {
        Ok(_) => Ok(Plan { order, names, selection }),
        Err(failure) => Err(PlanError::Validation { order, selection, failure }),
    }
}

} // verus!
