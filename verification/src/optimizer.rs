//! The entry to the search.

use vstd::prelude::*;
use crate::context::OptimizerContext;
use crate::fault::OptimizerError;
use crate::memo::{plan_arity_ok, plan_delivered, MemoView};
use crate::metadata::MdAccessor;
use crate::plan::{LogicalPlan, PhysicalPlan, PhysicalPlanView, PlanView};
use crate::property::{satisfies_spec, PhysicalProperties, SortKey};
use crate::rules::{Rule, RuleSet};
use crate::task::{lemma_run_keeps_root, run_spec, Task, TaskRunner, TaskView, MAX_TASKS};

verus! {

/// The settings of an optimizer. There are none yet.
#[derive(Clone, Copy, Debug, Default)]
pub struct Options {}

/// What an optimization gives: the logical plan is taken into an empty
/// memo, the search of the group of its root under `required` is run,
/// and the best plan of that group under `required` is the result; where
/// the table of the root has no entry for `required` there is no plan.
pub open spec fn optimize_spec(plan: PlanView, required: Seq<SortKey>, md: MdAccessor, rules: Seq<Rule>) -> Result<PhysicalPlanView, OptimizerError> {
    let empty = MemoView { groups: Seq::empty(), root: None };
    let (taken, root) = empty.interned(plan);
    match root {
        Err(e) => Err(e),
        Ok(g) => {
            let start = MemoView { groups: taken.groups, root: Some(g) };
            let (searched, left, r) = run_spec(
                start,
                rules,
                md,
                seq![TaskView::OptimizeGroup { group: g, required }],
                MAX_TASKS as nat,
            );
            match r {
                Err(e) => Err(e),
                Ok(_) => match searched.extracted(g as int, required) {
                    Some(best) => Ok(best),
                    None => Err(OptimizerError::NoPlan),
                },
            }
        },
    }
}

/// Why an optimization without rules gives no plan: the plan is
/// malformed, or else nothing implements it.
pub open spec fn fault_without_rules(plan: PlanView) -> OptimizerError {
    match (MemoView { groups: Seq::empty(), root: None }).interned(plan).1 {
        Ok(_) => OptimizerError::NoPlan,
        Err(_) => OptimizerError::MalformedInput,
    }
}

/// An optimizer of logical plans.
#[derive(Debug)]
pub struct Optimizer {
    options: Options,
}

impl Optimizer {
    /// The settings of the optimizer.
    pub closed spec fn options(&self) -> Options {
        self.options
    }

    pub fn new(options: Options) -> (o: Self)
        ensures
            o.options() == options,
    {
        Optimizer { options }
    }

    /// The cheapest physical plan that the search finds for `plan` and
    /// that delivers `required_properties`. Every node of it has as many
    /// inputs as its operator. Without rules there is no plan.
    pub fn optimize(
        &mut self,
        plan: LogicalPlan,
        required_properties: PhysicalProperties,
        md_accessor: MdAccessor,
        rule_set: RuleSet,
    ) -> (r: Result<PhysicalPlan, OptimizerError>)
        ensures
            final(self).options() == old(self).options(),
            rule_set@.len() == 0 ==> r is Err && r->Err_0 == fault_without_rules(plan@),
            match r {
                Ok(best) => {
                    &&& optimize_spec(plan@, required_properties@, md_accessor, rule_set@) == Ok::<
                        PhysicalPlanView,
                        OptimizerError,
                    >(best@)
                    &&& plan_arity_ok(best@)
                    &&& satisfies_spec(plan_delivered(best@), required_properties@)
                },
                Err(e) => optimize_spec(plan@, required_properties@, md_accessor, rule_set@) == Err::<
                    PhysicalPlanView,
                    OptimizerError,
                >(e),
            },
    {
        let ghost fuel = MAX_TASKS as nat;
        let ghost want = optimize_spec(plan@, required_properties@, md_accessor, rule_set@);
        proof {
            if rule_set@.len() == 0 {
                assert(rule_set@ =~= Seq::<Rule>::empty());
                crate::bare::lemma_no_rules_no_plan(plan@, required_properties@, md_accessor);
            }
        }
        let mut optimizer_ctx = OptimizerContext::new(md_accessor, rule_set);
        let ghost empty = MemoView { groups: Seq::empty(), root: None };
        assert(optimizer_ctx.memo@ == empty) by {
            assert(optimizer_ctx.memo@.groups =~= Seq::empty());
        }
        match optimizer_ctx.memo_mut().init(plan) {
            Ok(()) => {},
            Err(e) => {
                return Err(e);
            },
        }
        let ghost start = optimizer_ctx.memo@;
        let root = match optimizer_ctx.memo().root_group() {
            Some(root) => root,
            None => {
                return Err(OptimizerError::NoPlan);
            },
        };
        assert(empty.interned(plan@).1 == Ok::<usize, OptimizerError>(root));
        assert(start == MemoView { groups: empty.interned(plan@).0.groups, root: Some(root) });
        let mut task_runner = TaskRunner::new();
        let initial_task = Task::OptimizeGroup { group: root, required: required_properties.clone() };
        task_runner.push_task(initial_task);
        let ghost stack = seq![TaskView::OptimizeGroup { group: root, required: required_properties@ }];
        assert(task_runner.tasks() =~= stack);
        let ran = task_runner.run(&mut optimizer_ctx);
        let ghost searched = optimizer_ctx.memo@;
        assert(run_spec(start, rule_set@, md_accessor, stack, fuel).0 == searched);
        assert(run_spec(start, rule_set@, md_accessor, stack, fuel).2 == ran);
        match ran {
            Ok(()) => {},
            Err(e) => {
                return Err(e);
            },
        }
        assert(searched.root == Some(root)) by {
            lemma_run_keeps_root(start, rule_set@, md_accessor, stack, fuel);
        }
        optimizer_ctx.memo().extract_best_plan(&required_properties)
    }
}

/// Two optimizations of the same plan under the same requirement, with
/// the same metadata and rules, give the same plan, or fail in the same
/// way.
pub proof fn lemma_optimize_deterministic(
    plan: PlanView,
    required: Seq<SortKey>,
    md: MdAccessor,
    rules: Seq<Rule>,
    first: Result<PhysicalPlanView, OptimizerError>,
    second: Result<PhysicalPlanView, OptimizerError>,
)
    requires
        first == optimize_spec(plan, required, md, rules),
        second == optimize_spec(plan, required, md, rules),
    ensures
        first == second,
{
}

} // verus!
