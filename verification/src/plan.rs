//! Plans: trees of operators.

use vstd::prelude::*;
use crate::operator::catalog::{LogicalOp, Operator, PhysicalOp};
use crate::column_set::ColumnRefSet;
use crate::expression::{add_columns, add_used_columns, column_ids, used_columns_of};
use crate::operator::{LogicalOpView, OperatorView, PhysicalOpView};
use crate::property::{copy_props, props_views, PhysicalProperties, SortKey};

verus! {

/// A tree of operators whose leaves may be groups of a memo. A rule reads
/// what it matched as such a tree, and hands back what it makes of it as
/// such trees.
#[derive(Debug)]
pub enum Plan {
    /// A whole group, by its number.
    Group(usize),
    /// An operator over plans, with the requirements put on its result,
    /// and the group that holds the expression, where the memo holds it.
    Node(Operator, Vec<Plan>, Vec<PhysicalProperties>, Option<usize>),
}

/// What a plan says.
pub ghost enum PlanView {
    Group(usize),
    Node(OperatorView, Seq<PlanView>, Seq<Seq<SortKey>>, Option<usize>),
}

/// The view of a plan.
pub open spec fn plan_view(p: Plan) -> PlanView
    decreases p,
{
    match p {
        Plan::Group(g) => PlanView::Group(g),
        Plan::Node(op, inputs, required, group) => PlanView::Node(
            op@,
            Seq::new(
                inputs@.len(),
                |i: int|
                    if 0 <= i < inputs@.len() {
                        plan_view(inputs@[i])
                    } else {
                        PlanView::Group(0)
                    },
            ),
            props_views(required@),
            group,
        ),
    }
}

/// The views of a sequence of plans, place by place.
pub open spec fn plan_views(ps: Seq<Plan>) -> Seq<PlanView> {
    Seq::new(ps.len(), |i: int| ps[i]@)
}

impl View for Plan {
    type V = PlanView;

    open spec fn view(&self) -> PlanView {
        plan_view(*self)
    }
}

impl Plan {
    /// The plan of `op` over `inputs`, with nothing required of it, that
    /// stands in the group `group_plan` where the memo holds it.
    pub fn new(op: Operator, inputs: Vec<Plan>, group_plan: Option<usize>) -> (p: Self)
        ensures
            p@ == PlanView::Node(op@, plan_views(inputs@), Seq::empty(), group_plan),
    {
        let p = Plan::Node(op, inputs, Vec::new(), group_plan);
        assert(p@->Node_1 =~= plan_views(inputs@));
        assert(p@->Node_2 =~= Seq::<Seq<SortKey>>::empty());
        p
    }

    /// The plan that stands for the group `group`.
    pub fn group(group: usize) -> (p: Self)
        ensures
            p@ == PlanView::Group(group),
    {
        Plan::Group(group)
    }

    /// The group that the plan stands for, or stands in, where it has one.
    pub fn group_plan(&self) -> (g: Option<usize>)
        ensures
            g == match self@ {
                PlanView::Group(g) => Some(g),
                PlanView::Node(_, _, _, group) => group,
            },
    {
        match self {
            Plan::Group(g) => Some(*g),
            Plan::Node(_, _, _, group) => *group,
        }
    }

    /// The operator at the root of the plan, if it has one.
    pub fn operator(&self) -> (op: Option<&Operator>)
        ensures
            match op {
                Some(o) => self@ is Node && o@ == self@->Node_0,
                None => self@ is Group,
            },
    {
        match self {
            Plan::Node(op, _, _, _) => Some(op),
            _ => None,
        }
    }

    /// The inputs of the root of the plan.
    pub fn inputs(&self) -> (inputs: &Vec<Plan>)
        requires
            self@ is Node,
        ensures
            plan_views(inputs@) == self@->Node_1,
            inputs@.len() == self@->Node_1.len(),
    {
        match self {
            Plan::Node(_, inputs, _, _) => {
                assert(plan_views(inputs@) =~= self@->Node_1);
                inputs
            },
            _ => {
                proof {
                    assert(false);
                }
                vstd::pervasive::unreached()
            },
        }
    }

    /// The number of inputs of the root of the plan.
    pub fn input_count(&self) -> (n: usize)
        ensures
            n == match self@ {
                PlanView::Node(_, inputs, _, _) => inputs.len(),
                _ => 0,
            },
    {
        match self {
            Plan::Node(_, inputs, _, _) => inputs.len(),
            _ => 0,
        }
    }

    /// The `i`-th input of the root of the plan.
    pub fn input(&self, i: usize) -> (p: &Plan)
        requires
            self@ is Node,
            i < self@->Node_1.len(),
        ensures
            p@ == self@->Node_1[i as int],
    {
        match self {
            Plan::Node(_, inputs, _, _) => &inputs[i],
            _ => {
                proof {
                    assert(false);
                }
                vstd::pervasive::unreached()
            },
        }
    }
}

/// Whether a plan is a tree of logical operators whose filters have an input.
pub open spec fn logical_tree(plan: PlanView) -> bool
    decreases plan,
{
    match plan {
        PlanView::Group(_) => false,
        PlanView::Node(op, inputs, _, _) => {
            &&& op is Logical
            &&& op->Logical_0 is Filter ==> inputs.len() > 0 && logical_tree(inputs[0])
        },
    }
}

/// The columns of the relations that a logical plan needs: those that its
/// scans yield and those that its projections read; a filter needs what
/// its input needs.
pub open spec fn output_columns(plan: PlanView) -> Set<nat>
    decreases plan,
{
    match plan {
        PlanView::Group(_) => Set::<nat>::empty(),
        PlanView::Node(op, inputs, _, _) => match op {
            OperatorView::Logical(LogicalOpView::Scan(s)) => column_ids(
                s.output_columns,
                s.output_columns.len(),
            ),
            OperatorView::Logical(LogicalOpView::IndexScan(s)) => column_ids(
                s.output_columns,
                s.output_columns.len(),
            ),
            OperatorView::Logical(LogicalOpView::Project(exprs)) => used_columns_of(exprs, exprs.len()),
            OperatorView::Logical(LogicalOpView::Filter(_)) => if inputs.len() > 0 {
                output_columns(inputs[0])
            } else {
                Set::<nat>::empty()
            },
            OperatorView::Physical(_) => Set::<nat>::empty(),
        },
    }
}

impl Plan {
    /// Adds the columns of the relations that the plan needs to `column_set`.
    pub fn derive_output_columns(&self, column_set: &mut ColumnRefSet)
        requires
            logical_tree(self@),
        ensures
            final(column_set)@ == old(column_set)@.union(output_columns(self@)),
        decreases self,
    {
        match self {
            Plan::Node(Operator::Logical(op), inputs, _, _) => match op {
                LogicalOp::Scan(s) => add_columns(s.output_columns(), column_set),
                LogicalOp::IndexScan(s) => add_columns(s.output_columns(), column_set),
                LogicalOp::Project(p) => add_used_columns(p.project(), column_set),
                LogicalOp::Filter(_) => {
                    proof {
                        assert(decreases_to!(*self => self->Node_1));
                        assert(decreases_to!(*inputs => inputs@));
                        assert(decreases_to!(inputs@ => inputs@[0]));
                    }
                    inputs[0].derive_output_columns(column_set)
                },
            },
            _ => {
                proof {
                    assert(false);
                }
            },
        }
    }
}

impl Clone for Plan {
    fn clone(&self) -> (r: Self)
        ensures
            r@ == self@,
        decreases self,
    {
        match self {
            Plan::Group(g) => Plan::Group(*g),
            Plan::Node(op, inputs, required, group) => {
                let mut out: Vec<Plan> = Vec::new();
                let mut i: usize = 0;
                while i < inputs.len()
                    invariant
                        i <= inputs.len(),
                        self is Node,
                        self->Node_1 == *inputs,
                        out@.len() == i,
                        forall|j: int| 0 <= j < i ==> (#[trigger] out@[j])@ == inputs@[j]@,
                    decreases inputs.len() - i,
                {
                    proof {
                        assert(decreases_to!(*self => self->Node_1));
                        assert(decreases_to!(*inputs => inputs@));
                        assert(decreases_to!(inputs@ => inputs@[i as int]));
                    }
                    let c = inputs[i].clone();
                    out.push(c);
                    i += 1;
                }
                let r = Plan::Node(op.clone(), out, copy_props(required), *group);
                assert(r@->Node_1 =~= self@->Node_1);
                r
            },
        }
    }
}

/// A copy of `plans`.
pub fn copy_plans(plans: &Vec<Plan>) -> (r: Vec<Plan>)
    ensures
        plan_views(r@) == plan_views(plans@),
{
    let mut out: Vec<Plan> = Vec::new();
    let mut i: usize = 0;
    while i < plans.len()
        invariant
            i <= plans.len(),
            out@.len() == i,
            forall|j: int| 0 <= j < i ==> (#[trigger] out@[j])@ == plans@[j]@,
        decreases plans.len() - i,
    {
        out.push(plans[i].clone());
        i += 1;
    }
    assert(plan_views(out@) =~= plan_views(plans@));
    out
}

/// A logical plan: a tree of logical operators, each with the
/// requirements put on its result.
#[derive(Debug)]
pub struct LogicalPlan {
    plan: Plan,
}

impl View for LogicalPlan {
    type V = PlanView;

    closed spec fn view(&self) -> PlanView {
        self.plan@
    }
}

/// The views of a sequence of logical plans, place by place.
pub open spec fn logical_views(ps: Seq<LogicalPlan>) -> Seq<PlanView> {
    Seq::new(ps.len(), |i: int| ps[i]@)
}

impl LogicalPlan {
    /// A logical plan has an operator at its root.
    #[verifier::type_invariant]
    spec fn rooted(self) -> bool {
        self.plan is Node
    }

    pub fn new(op: LogicalOp, inputs: Vec<LogicalPlan>, required_properties: Vec<PhysicalProperties>) -> (p: Self)
        ensures
            p@ == PlanView::Node(
                OperatorView::Logical(op@),
                logical_views(inputs@),
                props_views(required_properties@),
                None,
            ),
    {
        let ghost want = logical_views(inputs@);
        let mut rest = inputs;
        let mut plans: Vec<Plan> = Vec::new();
        while rest.len() > 0
            invariant
                rest@.len() + plans@.len() == want.len(),
                forall|j: int| 0 <= j < rest@.len() ==> (#[trigger] rest@[j])@ == want[j],
                forall|j: int| 0 <= j < plans@.len() ==> (#[trigger] plans@[j])@ == want[rest@.len() + j],
            decreases rest@.len(),
        {
            let ghost n = rest@.len();
            let ghost old_plans = plans@;
            match rest.pop() {
                Some(last) => {
                    plans.insert(0, last.plan);
                    assert forall|j: int| 0 <= j < plans@.len() implies (#[trigger] plans@[j])@ == want[rest@.len()
                        + j] by {
                        if j > 0 {
                            assert(plans@[j] == old_plans[j - 1]);
                        }
                    }
                },
                None => {},
            }
        }
        let plan = Plan::Node(Operator::Logical(op), plans, required_properties, None);
        assert(plan@->Node_1 =~= want);
        LogicalPlan { plan }
    }

    /// The requirements put on the result of the root of the plan.
    pub fn required_properties(&self) -> (r: &Vec<PhysicalProperties>)
        ensures
            self@ is Node,
            props_views(r@) == self@->Node_2,
    {
        proof {
            use_type_invariant(self);
        }
        match &self.plan {
            Plan::Node(_, _, required, _) => required,
            _ => {
                proof {
                    assert(false);
                }
                vstd::pervasive::unreached()
            },
        }
    }

    /// The plan as a tree of operators.
    pub fn plan(&self) -> (p: &Plan)
        ensures
            p@ == self@,
    {
        &self.plan
    }
}

/// A physical plan: a tree of physical operators.
#[derive(Debug)]
pub struct PhysicalPlan {
    op: PhysicalOp,
    inputs: Vec<PhysicalPlan>,
}

/// What a physical plan says.
pub ghost struct PhysicalPlanView {
    pub op: PhysicalOpView,
    pub inputs: Seq<PhysicalPlanView>,
}

/// The view of a physical plan.
pub closed spec fn physical_view(p: PhysicalPlan) -> PhysicalPlanView
    decreases p,
{
    PhysicalPlanView {
        op: p.op@,
        inputs: Seq::new(
            p.inputs@.len(),
            |i: int|
                if 0 <= i < p.inputs@.len() {
                    physical_view(p.inputs@[i])
                } else {
                    arbitrary()
                },
        ),
    }
}

/// The views of a sequence of physical plans, place by place.
pub open spec fn physical_views(ps: Seq<PhysicalPlan>) -> Seq<PhysicalPlanView> {
    Seq::new(ps.len(), |i: int| ps[i]@)
}

impl View for PhysicalPlan {
    type V = PhysicalPlanView;

    open spec fn view(&self) -> PhysicalPlanView {
        physical_view(*self)
    }
}

impl PhysicalPlan {
    pub fn new(op: PhysicalOp, inputs: Vec<PhysicalPlan>) -> (p: Self)
        ensures
            p@ == (PhysicalPlanView { op: op@, inputs: physical_views(inputs@) }),
    {
        let p = PhysicalPlan { op, inputs };
        assert(p@.inputs =~= physical_views(inputs@));
        p
    }

    pub fn operator(&self) -> (op: &PhysicalOp)
        ensures
            op@ == self@.op,
    {
        &self.op
    }

    pub fn inputs(&self) -> (inputs: &Vec<PhysicalPlan>)
        ensures
            physical_views(inputs@) == self@.inputs,
            inputs@.len() == self@.inputs.len(),
    {
        assert(physical_views(self.inputs@) =~= self@.inputs);
        &self.inputs
    }

    /// Whether the two plans have the same operators in the same places.
    pub fn equal(&self, other: &PhysicalPlan) -> (b: bool)
        ensures
            b == (self@ == other@),
        decreases self,
    {
        if !self.op.equal(&other.op) {
            return false;
        }
        if self.inputs.len() != other.inputs.len() {
            assert(self@.inputs.len() != other@.inputs.len());
            return false;
        }
        let mut i: usize = 0;
        while i < self.inputs.len()
            invariant
                i <= self.inputs.len(),
                self.inputs.len() == other.inputs.len(),
                forall|j: int| 0 <= j < i ==> (#[trigger] self.inputs@[j])@ == other.inputs@[j]@,
            decreases self.inputs.len() - i,
        {
            proof {
                assert(decreases_to!(*self => self.inputs));
                assert(decreases_to!(self.inputs => self.inputs@));
                assert(decreases_to!(self.inputs@ => self.inputs@[i as int]));
            }
            if !self.inputs[i].equal(&other.inputs[i]) {
                assert(self@.inputs[i as int] != other@.inputs[i as int]);
                return false;
            }
            i += 1;
        }
        assert(self@.inputs =~= other@.inputs);
        true
    }
}

impl PartialEq for PhysicalPlan {
    fn eq(&self, other: &Self) -> (b: bool) {
        self.equal(other)
    }
}

impl vstd::std_specs::cmp::PartialEqSpecImpl for PhysicalPlan {
    open spec fn obeys_eq_spec() -> bool {
        true
    }

    open spec fn eq_spec(&self, other: &Self) -> bool {
        self@ == other@
    }
}

} // verus!
