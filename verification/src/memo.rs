//! The memo: groups of equivalent expressions, and the best plan found for
//! each group under each requirement.

use vstd::prelude::*;
use crate::cost::Cost;
use crate::metadata::{MdAccessor, Stats};
use crate::operator::catalog::{Operator, PhysicalOp};
use crate::operator::{logical_rows, LogicalOperator, PhysicalOperator};
use crate::plan::{LogicalPlan, PhysicalPlan, PhysicalPlanView, Plan, PlanView};
use crate::operator::{
    arity_spec, cost_spec, delivered_spec, physical_arity, OperatorView, PhysicalOpView,
};
use crate::plan::physical_views;
use crate::fault::OptimizerError;
use crate::property::{copy_props, props_views, satisfies_spec, PhysicalProperties, SortKey};

verus! {

/// An operator over groups: one alternative within a group.
#[derive(Debug)]
pub struct GroupExpr {
    op: Operator,
    children: Vec<usize>,
    enforcer: bool,
}

/// What a group expression says.
pub ghost struct ExprNode {
    pub op: OperatorView,
    pub children: Seq<usize>,
    pub enforcer: bool,
}

impl View for GroupExpr {
    type V = ExprNode;

    closed spec fn view(&self) -> ExprNode {
        ExprNode { op: self.op@, children: self.children@, enforcer: self.enforcer }
    }
}

impl GroupExpr {
    /// The expression of `op` over the groups `children`.
    pub fn new(op: Operator, children: Vec<usize>) -> (e: Self)
        ensures
            e@ == (ExprNode { op: op@, children: children@, enforcer: false }),
    {
        GroupExpr { op, children, enforcer: false }
    }

    pub fn operator(&self) -> (op: &Operator)
        ensures
            op@ == self@.op,
    {
        &self.op
    }

    pub fn children(&self) -> (c: &Vec<usize>)
        ensures
            c@ == self@.children,
    {
        &self.children
    }

    /// Whether the expression was put into its group to enforce a property.
    pub fn is_enforcer(&self) -> (b: bool)
        ensures
            b == self@.enforcer,
    {
        self.enforcer
    }
}

/// The best plan found for a group under one requirement.
#[derive(Debug)]
pub struct Winner {
    required: PhysicalProperties,
    expr: usize,
    delivered: PhysicalProperties,
    input_required: Vec<PhysicalProperties>,
    cost: Cost,
}

/// What an entry of the best-plan table says.
pub ghost struct WinnerView {
    pub required: Seq<SortKey>,
    pub expr: usize,
    pub delivered: Seq<SortKey>,
    pub inputs: Seq<Seq<SortKey>>,
    pub cost: Cost,
}

impl View for Winner {
    type V = WinnerView;

    closed spec fn view(&self) -> WinnerView {
        WinnerView {
            required: self.required@,
            expr: self.expr,
            delivered: self.delivered@,
            inputs: props_views(self.input_required@),
            cost: self.cost,
        }
    }
}

impl Winner {
    /// The requirement under which the plan won.
    pub fn required(&self) -> (r: &PhysicalProperties)
        ensures
            r@ == self@.required,
    {
        &self.required
    }

    /// The place of the winning expression among the physical expressions
    /// of its group.
    pub fn expr(&self) -> (e: usize)
        ensures
            e == self@.expr,
    {
        self.expr
    }

    /// The properties that the plan delivers.
    pub fn delivered(&self) -> (d: &PhysicalProperties)
        ensures
            d@ == self@.delivered,
    {
        &self.delivered
    }

    /// What the plan asks of each input of the winning expression.
    pub fn input_required(&self) -> (r: &Vec<PhysicalProperties>)
        ensures
            props_views(r@) == self@.inputs,
    {
        &self.input_required
    }

    /// The cost of the plan.
    pub fn cost(&self) -> (c: Cost)
        ensures
            c == self@.cost,
    {
        self.cost
    }
}

/// A class of expressions that yield the same result.
#[derive(Debug)]
pub struct Group {
    logical: Vec<GroupExpr>,
    physical: Vec<GroupExpr>,
    stats: Option<Stats>,
    winners: Vec<Winner>,
    closed: Vec<PhysicalProperties>,
    fired: Vec<usize>,
    required: Vec<PhysicalProperties>,
    rank: usize,
}

/// What a group holds.
pub ghost struct GroupView {
    /// The logical expressions, in the order in which they came.
    pub logical: Seq<ExprNode>,
    /// The physical expressions, in the order in which they came.
    pub physical: Seq<ExprNode>,
    /// The statistics, once they are derived.
    pub stats: Option<Stats>,
    /// The best-plan table.
    pub winners: Seq<WinnerView>,
    /// The requirements under which the search of the group is over.
    pub closed: Seq<Seq<SortKey>>,
    /// The rules that were applied in the group, in the order of their application.
    pub fired: Seq<usize>,
    /// The requirements that the plan put on the group.
    pub required: Seq<Seq<SortKey>>,
    /// A number above that of every group that a logical expression of
    /// this group reads.
    pub rank: usize,
}

/// The views of a sequence of expressions, place by place.
pub open spec fn nodes_of(es: Seq<GroupExpr>) -> Seq<ExprNode> {
    Seq::new(es.len(), |i: int| es[i]@)
}

/// The views of a sequence of table entries, place by place.
pub open spec fn winners_of(ws: Seq<Winner>) -> Seq<WinnerView> {
    Seq::new(ws.len(), |i: int| ws[i]@)
}

impl View for Group {
    type V = GroupView;

    closed spec fn view(&self) -> GroupView {
        GroupView {
            logical: nodes_of(self.logical@),
            physical: nodes_of(self.physical@),
            stats: self.stats,
            winners: winners_of(self.winners@),
            closed: props_views(self.closed@),
            fired: self.fired@,
            required: props_views(self.required@),
            rank: self.rank,
        }
    }
}

/// What a memo holds.
pub ghost struct MemoView {
    pub groups: Seq<GroupView>,
    pub root: Option<usize>,
}

/// The views of a sequence of groups, place by place.
pub open spec fn groups_of(gs: Seq<Group>) -> Seq<GroupView> {
    Seq::new(gs.len(), |i: int| gs[i]@)
}

/// The requirements that the entries of a best-plan table stand under.
pub open spec fn winner_keys(ws: Seq<WinnerView>) -> Seq<Seq<SortKey>> {
    Seq::new(ws.len(), |i: int| ws[i].required)
}

impl MemoView {
    /// Whether `g` is a group of the memo.
    pub open spec fn has_group(self, g: int) -> bool {
        0 <= g < self.groups.len()
    }

    /// Whether the best-plan table of group `g` has an entry for `required`.
    pub open spec fn has_winner(self, g: int, required: Seq<SortKey>) -> bool {
        winner_keys(self.groups[g].winners).contains(required)
    }

    /// The first entry for `required` in the best-plan table of group `g`.
    pub open spec fn winner(self, g: int, required: Seq<SortKey>) -> WinnerView {
        self.groups[g].winners[winner_keys(self.groups[g].winners).index_of_first(required).unwrap()]
    }

    /// Whether the search of group `g` under `required` is over.
    pub open spec fn is_closed(self, g: int, required: Seq<SortKey>) -> bool {
        self.groups[g].closed.contains(required)
    }

    /// Whether `rule` was applied in group `g`.
    pub open spec fn is_fired(self, g: int, rule: usize) -> bool {
        self.groups[g].fired.contains(rule)
    }

    /// Whether group `c` may stand under an expression of group `g`: it
    /// exists and ranks lower.
    pub open spec fn child_ok(self, g: int, c: usize) -> bool {
        self.has_group(c as int) && self.groups[c as int].rank < self.groups[g].rank
    }

    /// The rule that a logical expression of group `g` keeps.
    pub open spec fn logical_ok(self, g: int, e: ExprNode) -> bool {
        &&& e.op is Logical
        &&& !e.enforcer
        &&& e.children.len() == arity_spec(e.op)
        &&& forall|i: int| 0 <= i < e.children.len() ==> self.child_ok(g, #[trigger] e.children[i])
    }

    /// The rule that a physical expression of group `g` keeps. An enforcer
    /// is a sort into a non-empty order over the group itself.
    pub open spec fn physical_ok(self, g: int, e: ExprNode) -> bool {
        &&& e.op is Physical
        &&& e.children.len() == arity_spec(e.op)
        &&& if e.enforcer {
            &&& e.op->Physical_0 is Sort
            &&& e.op->Physical_0->Sort_0.len() > 0
            &&& e.children[0] == g
        } else {
            forall|i: int| 0 <= i < e.children.len() ==> self.child_ok(g, #[trigger] e.children[i])
        }
    }

    /// What the winners of the inputs of `e` deliver, under the requirements `inputs`.
    pub open spec fn input_delivered(self, e: ExprNode, inputs: Seq<Seq<SortKey>>) -> Seq<Seq<SortKey>> {
        Seq::new(e.children.len(), |i: int| self.winner(e.children[i] as int, inputs[i]).delivered)
    }

    /// What the winners of the inputs of `e` cost, under the requirements `inputs`.
    pub open spec fn input_costs(self, e: ExprNode, inputs: Seq<Seq<SortKey>>) -> Seq<Cost> {
        Seq::new(e.children.len(), |i: int| self.winner(e.children[i] as int, inputs[i]).cost)
    }

    /// The rule that an entry of the best-plan table of group `g` keeps:
    /// its expression is a physical expression of the group; for each
    /// input the search is over and has a winner; what it delivers follows
    /// from what those winners deliver and meets the requirement; its cost
    /// is that of its operator over those winners.
    pub open spec fn winner_ok(self, g: int, w: WinnerView) -> bool {
        let grp = self.groups[g];
        &&& w.expr < grp.physical.len()
        &&& grp.stats is Some
        &&& {
            let p = grp.physical[w.expr as int];
            &&& w.inputs.len() == p.children.len()
            &&& forall|i: int|
                0 <= i < p.children.len() ==> {
                    &&& self.is_closed((#[trigger] p.children[i]) as int, w.inputs[i])
                    &&& self.has_winner(p.children[i] as int, w.inputs[i])
                }
            &&& p.enforcer ==> w.required.len() > 0 && w.inputs[0].len() == 0
            &&& w.delivered == delivered_spec(p.op->Physical_0, self.input_delivered(p, w.inputs))
            &&& satisfies_spec(w.delivered, w.required)
            &&& w.cost == cost_spec(
                p.op->Physical_0,
                self.input_costs(p, w.inputs),
                grp.stats->0.row_count,
            )
        }
    }

    /// The rules that group `g` keeps.
    pub open spec fn group_ok(self, g: int) -> bool {
        let grp = self.groups[g];
        &&& grp.logical.len() > 0
        &&& forall|i: int| 0 <= i < grp.logical.len() ==> self.logical_ok(g, #[trigger] grp.logical[i])
        &&& forall|i: int| 0 <= i < grp.physical.len() ==> self.physical_ok(g, #[trigger] grp.physical[i])
        &&& forall|i: int| 0 <= i < grp.winners.len() ==> self.winner_ok(g, #[trigger] grp.winners[i])
        &&& winner_keys(grp.winners).no_duplicates()
        &&& grp.fired.no_duplicates()
    }

    /// Whether the group of the whole plan is a group of the memo, and
    /// every group keeps its rules.
    pub open spec fn regular(self) -> bool {
        &&& self.root matches Some(r) ==> self.has_group(r as int)
        &&& forall|g: int| 0 <= g < self.groups.len() ==> #[trigger] self.group_ok(g)
    }

    /// Whether no expression stands at two places of the memo.
    pub open spec fn distinct(self) -> bool {
        &&& forall|g: int, i: int, h: int, j: int|
            0 <= g < self.groups.len() && 0 <= i < self.groups[g].logical.len() && 0 <= h
                < self.groups.len() && 0 <= j < self.groups[h].logical.len() && (g != h || i != j)
                ==> #[trigger] self.groups[g].logical[i] != #[trigger] self.groups[h].logical[j]
        &&& forall|g: int, i: int, h: int, j: int|
            0 <= g < self.groups.len() && 0 <= i < self.groups[g].physical.len() && 0 <= h
                < self.groups.len() && 0 <= j < self.groups[h].physical.len() && (g != h || i != j)
                ==> #[trigger] self.groups[g].physical[i] != #[trigger] self.groups[h].physical[j]
    }

    /// The rules that a memo keeps: the group of the whole plan is a group
    /// of the memo, every group keeps its rules, and no expression stands
    /// at two places.
    pub open spec fn wf(self) -> bool {
        self.regular() && self.distinct()
    }
}

/// The groups of a search, and the group of the whole plan.
#[derive(Debug)]
pub struct Memo {
    groups: Vec<Group>,
    root: Option<usize>,
}

impl View for Memo {
    type V = MemoView;

    closed spec fn view(&self) -> MemoView {
        MemoView { groups: groups_of(self.groups@), root: self.root }
    }
}

impl Memo {
    /// Whether the memo keeps its rules.
    pub open spec fn wf(&self) -> bool {
        self@.wf()
    }

    /// The memo without groups.
    pub fn new() -> (m: Self)
        ensures
            m@.groups.len() == 0,
            m@.root is None,
            m.wf(),
    {
        Memo { groups: Vec::new(), root: None }
    }

    /// The number of groups.
    pub fn group_count(&self) -> (n: usize)
        ensures
            n == self@.groups.len(),
    {
        self.groups.len()
    }

    /// The group of the whole plan, once a plan is in the memo.
    pub fn root_group(&self) -> (r: Option<usize>)
        ensures
            r == self@.root,
    {
        self.root
    }
}

/// The first place of `x` in `s` is `i`, where `x` stands at `i` and
/// nowhere before.
pub proof fn lemma_first_index<A>(s: Seq<A>, x: A, i: int)
    requires
        0 <= i < s.len(),
        s[i] == x,
        forall|j: int| 0 <= j < i ==> s[j] != x,
    ensures
        s.contains(x),
        s.index_of_first(x) == Some(i),
{
    s.index_of_first_ensures(x);
    assert(s.contains(x));
}

impl Group {
    /// The place of the entry for `required` in the best-plan table.
    fn winner_position(&self, required: &PhysicalProperties) -> (r: Option<usize>)
        ensures
            match r {
                Some(i) => winner_keys(self@.winners).index_of_first(required@) == Some(i as int) && i
                    < self.winners@.len() && winner_keys(self@.winners).contains(required@),
                None => !winner_keys(self@.winners).contains(required@),
            },
    {
        let mut i: usize = 0;
        while i < self.winners.len()
            invariant
                i <= self.winners.len(),
                forall|j: int| 0 <= j < i ==> winner_keys(self@.winners)[j] != required@,
            decreases self.winners.len() - i,
        {
            if self.winners[i].required.equal(required) {
                proof {
                    lemma_first_index(winner_keys(self@.winners), required@, i as int);
                }
                return Some(i);
            }
            i += 1;
        }
        None
    }

    /// Whether `required` is among the requirements under which the search is over.
    fn holds_closed(&self, required: &PhysicalProperties) -> (b: bool)
        ensures
            b == self@.closed.contains(required@),
    {
        let mut i: usize = 0;
        while i < self.closed.len()
            invariant
                i <= self.closed.len(),
                forall|j: int| 0 <= j < i ==> self@.closed[j] != required@,
            decreases self.closed.len() - i,
        {
            if self.closed[i].equal(required) {
                assert(self@.closed[i as int] == required@);
                return true;
            }
            i += 1;
        }
        false
    }

    /// Whether `rule` is among the rules applied in the group.
    fn holds_fired(&self, rule: usize) -> (b: bool)
        ensures
            b == self@.fired.contains(rule),
    {
        let mut i: usize = 0;
        while i < self.fired.len()
            invariant
                i <= self.fired.len(),
                forall|j: int| 0 <= j < i ==> self@.fired[j] != rule,
            decreases self.fired.len() - i,
        {
            if self.fired[i] == rule {
                assert(self@.fired[i as int] == rule);
                return true;
            }
            i += 1;
        }
        false
    }
}

impl Memo {
    /// The entry for `required` in the best-plan table of `group`; none
    /// where the table has no such entry or the memo no such group.
    pub fn lookup(&self, group: usize, required: &PhysicalProperties) -> (w: Option<&Winner>)
        ensures
            match w {
                Some(entry) => self@.has_group(group as int) && self@.has_winner(group as int, required@)
                    && entry@ == self@.winner(group as int, required@),
                None => !(self@.has_group(group as int) && self@.has_winner(group as int, required@)),
            },
    {
        if group >= self.groups.len() {
            return None;
        }
        match self.groups[group].winner_position(required) {
            Some(i) => Some(&self.groups[group].winners[i]),
            None => None,
        }
    }

    /// Whether the search of `group` under `required` is over.
    pub fn is_closed(&self, group: usize, required: &PhysicalProperties) -> (b: bool)
        ensures
            b == (self@.has_group(group as int) && self@.is_closed(group as int, required@)),
    {
        if group >= self.groups.len() {
            return false;
        }
        self.groups[group].holds_closed(required)
    }

    /// Whether `rule` was applied in `group`.
    pub fn is_fired(&self, group: usize, rule: usize) -> (b: bool)
        ensures
            b == (self@.has_group(group as int) && self@.is_fired(group as int, rule)),
    {
        if group >= self.groups.len() {
            return false;
        }
        self.groups[group].holds_fired(rule)
    }

    /// The number of logical expressions of `group`.
    pub fn logical_count(&self, group: usize) -> (n: usize)
        requires
            self@.has_group(group as int),
        ensures
            n == self@.groups[group as int].logical.len(),
    {
        self.groups[group].logical.len()
    }

    /// The number of physical expressions of `group`.
    pub fn physical_count(&self, group: usize) -> (n: usize)
        requires
            self@.has_group(group as int),
        ensures
            n == self@.groups[group as int].physical.len(),
    {
        self.groups[group].physical.len()
    }

    /// The `i`-th logical expression of `group`.
    pub fn logical_expr(&self, group: usize, i: usize) -> (e: &GroupExpr)
        requires
            self@.has_group(group as int),
            i < self@.groups[group as int].logical.len(),
        ensures
            e@ == self@.groups[group as int].logical[i as int],
    {
        &self.groups[group].logical[i]
    }

    /// The `i`-th physical expression of `group`.
    pub fn physical_expr(&self, group: usize, i: usize) -> (e: &GroupExpr)
        requires
            self@.has_group(group as int),
            i < self@.groups[group as int].physical.len(),
        ensures
            e@ == self@.groups[group as int].physical[i as int],
    {
        &self.groups[group].physical[i]
    }

    /// The statistics of `group`, once they are derived.
    pub fn statistics(&self, group: usize) -> (s: Option<Stats>)
        requires
            self@.has_group(group as int),
        ensures
            s == self@.groups[group as int].stats,
    {
        self.groups[group].stats
    }

    /// The requirements that the plan put on `group`.
    pub fn required_properties(&self, group: usize) -> (r: &Vec<PhysicalProperties>)
        requires
            self@.has_group(group as int),
        ensures
            props_views(r@) == self@.groups[group as int].required,
    {
        &self.groups[group].required
    }

    /// The rank of `group`.
    pub fn rank(&self, group: usize) -> (r: usize)
        requires
            self@.has_group(group as int),
        ensures
            r == self@.groups[group as int].rank,
    {
        self.groups[group].rank
    }
}

impl MemoView {
    /// The memo with `group` in the place of group `g`.
    pub open spec fn with_group(self, g: int, group: GroupView) -> MemoView {
        MemoView { groups: self.groups.update(g, group), root: self.root }
    }
}

/// Whether group `b` holds all that group `a` holds: the expressions of
/// `a` in their places, its statistics, its closed requirements and its
/// applied rules; for each requirement of the table of `a` an entry that
/// costs no more; and for each closed requirement of `a` the very entry, or
/// none, as in `a`.
pub open spec fn group_extends(a: GroupView, b: GroupView) -> bool {
    &&& a.rank == b.rank
    &&& a.required == b.required
    &&& a.logical.len() <= b.logical.len()
    &&& forall|i: int| 0 <= i < a.logical.len() ==> a.logical[i] == b.logical[i]
    &&& a.physical.len() <= b.physical.len()
    &&& forall|i: int| 0 <= i < a.physical.len() ==> a.physical[i] == b.physical[i]
    &&& a.stats is Some ==> b.stats == a.stats
    &&& forall|r: Seq<SortKey>| a.closed.contains(r) ==> b.closed.contains(r)
    &&& forall|x: usize| a.fired.contains(x) ==> b.fired.contains(x)
    &&& forall|r: Seq<SortKey>| #[trigger]
        winner_keys(a.winners).contains(r) ==> {
            &&& winner_keys(b.winners).contains(r)
            &&& entry_of(b.winners, r).cost.value <= entry_of(a.winners, r).cost.value
        }
    &&& forall|r: Seq<SortKey>| #[trigger]
        a.closed.contains(r) ==> {
            &&& winner_keys(b.winners).contains(r) == winner_keys(a.winners).contains(r)
            &&& winner_keys(a.winners).contains(r) ==> entry_of(b.winners, r) == entry_of(a.winners, r)
        }
}

/// The first entry for `required` in a best-plan table.
pub open spec fn entry_of(ws: Seq<WinnerView>, required: Seq<SortKey>) -> WinnerView {
    ws[winner_keys(ws).index_of_first(required).unwrap()]
}

/// Whether memo `b` holds all that memo `a` holds.
pub open spec fn memo_extends(a: MemoView, b: MemoView) -> bool {
    &&& a.groups.len() <= b.groups.len()
    &&& forall|g: int| 0 <= g < a.groups.len() ==> group_extends(#[trigger] a.groups[g], b.groups[g])
}

/// A group holds all that it holds.
pub proof fn lemma_group_extends_reflexive(a: GroupView)
    ensures
        group_extends(a, a),
{
}

/// An expression that keeps the rule of logical expressions in a memo
/// keeps it in every memo that holds all of the first.
pub proof fn lemma_logical_ok_stable(a: MemoView, b: MemoView, g: int, e: ExprNode)
    requires
        memo_extends(a, b),
        a.has_group(g),
        a.logical_ok(g, e),
    ensures
        b.logical_ok(g, e),
{
    assert forall|i: int| 0 <= i < e.children.len() implies b.child_ok(g, #[trigger] e.children[i]) by {
        assert(a.child_ok(g, e.children[i]));
        assert(group_extends(a.groups[e.children[i] as int], b.groups[e.children[i] as int]));
        assert(group_extends(a.groups[g], b.groups[g]));
    }
}

/// An expression that keeps the rule of physical expressions in a memo
/// keeps it in every memo that holds all of the first.
pub proof fn lemma_physical_ok_stable(a: MemoView, b: MemoView, g: int, e: ExprNode)
    requires
        memo_extends(a, b),
        a.has_group(g),
        a.physical_ok(g, e),
    ensures
        b.physical_ok(g, e),
{
    if !e.enforcer {
        assert forall|i: int| 0 <= i < e.children.len() implies b.child_ok(g, #[trigger] e.children[i]) by {
            assert(a.child_ok(g, e.children[i]));
            assert(group_extends(a.groups[e.children[i] as int], b.groups[e.children[i] as int]));
            assert(group_extends(a.groups[g], b.groups[g]));
        }
    }
}

/// An entry that keeps the rule of table entries in a memo keeps it in
/// every memo that holds all of the first.
pub proof fn lemma_winner_ok_stable(a: MemoView, b: MemoView, g: int, w: WinnerView)
    requires
        memo_extends(a, b),
        a.has_group(g),
        a.winner_ok(g, w),
        a.physical_ok(g, a.groups[g].physical[w.expr as int]),
    ensures
        b.winner_ok(g, w),
{
    let p = a.groups[g].physical[w.expr as int];
    assert(group_extends(a.groups[g], b.groups[g]));
    assert(b.groups[g].physical[w.expr as int] == p);
    assert forall|i: int| 0 <= i < p.children.len() implies {
        &&& b.is_closed((#[trigger] p.children[i]) as int, w.inputs[i])
        &&& b.has_winner(p.children[i] as int, w.inputs[i])
        &&& b.winner(p.children[i] as int, w.inputs[i]) == a.winner(p.children[i] as int, w.inputs[i])
    } by {
        let c = p.children[i] as int;
        assert(a.is_closed(c, w.inputs[i]));
        if p.enforcer {
            assert(c == g);
        } else {
            assert(a.child_ok(g, p.children[i]));
        }
        assert(group_extends(a.groups[c], b.groups[c]));
        assert(a.groups[c].closed.contains(w.inputs[i]));
    }
    assert(b.input_delivered(p, w.inputs) =~= a.input_delivered(p, w.inputs));
    assert(b.input_costs(p, w.inputs) =~= a.input_costs(p, w.inputs));
}

/// A group that keeps its rules in a memo keeps them in every memo that
/// holds all of the first and holds the group as it was.
pub proof fn lemma_group_ok_stable(a: MemoView, b: MemoView, g: int)
    requires
        memo_extends(a, b),
        a.has_group(g),
        a.group_ok(g),
        b.groups[g] == a.groups[g],
    ensures
        b.group_ok(g),
{
    let grp = a.groups[g];
    assert forall|i: int| 0 <= i < grp.logical.len() implies b.logical_ok(g, #[trigger] grp.logical[i]) by {
        lemma_logical_ok_stable(a, b, g, grp.logical[i]);
    }
    assert forall|i: int| 0 <= i < grp.physical.len() implies b.physical_ok(g, #[trigger] grp.physical[i]) by {
        lemma_physical_ok_stable(a, b, g, grp.physical[i]);
    }
    assert forall|i: int| 0 <= i < grp.winners.len() implies b.winner_ok(g, #[trigger] grp.winners[i]) by {
        assert(a.winner_ok(g, grp.winners[i]));
        lemma_winner_ok_stable(a, b, g, grp.winners[i]);
    }
}

impl Memo {
    /// Ends the search of `group` under `required`. A memo without such a
    /// group stays as it is.
    pub fn close(&mut self, group: usize, required: &PhysicalProperties)
        requires
            old(self).wf(),
        ensures
            final(self).wf(),
            memo_extends(old(self)@, final(self)@),
            old(self)@.has_group(group as int) ==> final(self)@ == old(self)@.with_group(
                group as int,
                GroupView {
                    closed: old(self)@.groups[group as int].closed.push(required@),
                    ..old(self)@.groups[group as int]
                },
            ),
            !old(self)@.has_group(group as int) ==> final(self)@ == old(self)@,
    {
        if group >= self.groups.len() {
            proof {
                lemma_memo_extends_reflexive(self@);
            }
            return ;
        }
        let ghost before = self@;
        self.groups[group].closed.push(required.clone());
        proof {
            let after = self@;
            let g = group as int;
            assert(after.groups[g].closed =~= before.groups[g].closed.push(required@));
            assert(after.groups =~= before.groups.update(
                g,
                GroupView { closed: before.groups[g].closed.push(required@), ..before.groups[g] },
            ));
            assert forall|r: Seq<SortKey>| before.groups[g].closed.contains(r) implies after.groups[g].closed.contains(r) by {
                let i = choose|i: int| 0 <= i < before.groups[g].closed.len() && before.groups[g].closed[i] == r;
                assert(after.groups[g].closed[i] == r);
            }
            assert forall|i: int| 0 <= i < after.groups[g].winners.len() implies before.winner_ok(
                g,
                #[trigger] after.groups[g].winners[i],
            ) by {
                assert(before.group_ok(g));
                assert(after.groups[g].winners[i] == before.groups[g].winners[i]);
            }
            assert(before.group_ok(g));
            lemma_wf_after_change(before, after, g);
        }
    }
}

/// A memo holds all that it holds.
pub proof fn lemma_memo_extends_reflexive(a: MemoView)
    ensures
        memo_extends(a, a),
{
}

/// A memo keeps its rules when one group comes to hold more: the group
/// holds all that it held, its new expressions keep their rules, each
/// entry of its table kept its rule before or keeps it now, and neither
/// its table nor its applied rules name a thing twice.
pub proof fn lemma_wf_after_change(a: MemoView, b: MemoView, g: int)
    requires
        a.regular(),
        a.has_group(g),
        b == a.with_group(g, b.groups[g]),
        group_extends(a.groups[g], b.groups[g]),
        forall|i: int|
            a.groups[g].logical.len() <= i < b.groups[g].logical.len() ==> b.logical_ok(
                g,
                #[trigger] b.groups[g].logical[i],
            ),
        forall|i: int|
            a.groups[g].physical.len() <= i < b.groups[g].physical.len() ==> b.physical_ok(
                g,
                #[trigger] b.groups[g].physical[i],
            ),
        forall|i: int|
            0 <= i < b.groups[g].winners.len() ==> a.winner_ok(g, #[trigger] b.groups[g].winners[i])
                || b.winner_ok(g, b.groups[g].winners[i]),
        winner_keys(b.groups[g].winners).no_duplicates(),
        b.groups[g].fired.no_duplicates(),
    ensures
        b.regular(),
        memo_extends(a, b),
{
    assert forall|h: int| 0 <= h < a.groups.len() implies group_extends(#[trigger] a.groups[h], b.groups[h]) by {
        if h != g {
            lemma_group_extends_reflexive(a.groups[h]);
        }
    }
    assert forall|h: int| 0 <= h < b.groups.len() implies #[trigger] b.group_ok(h) by {
        assert(a.group_ok(h));
        if h == g {
            let old_grp = a.groups[g];
            let grp = b.groups[g];
            assert forall|i: int| 0 <= i < grp.logical.len() implies b.logical_ok(g, #[trigger] grp.logical[i]) by {
                if i < old_grp.logical.len() {
                    assert(grp.logical[i] == old_grp.logical[i]);
                    lemma_logical_ok_stable(a, b, g, old_grp.logical[i]);
                }
            }
            assert forall|i: int| 0 <= i < grp.physical.len() implies b.physical_ok(g, #[trigger] grp.physical[i]) by {
                if i < old_grp.physical.len() {
                    assert(grp.physical[i] == old_grp.physical[i]);
                    lemma_physical_ok_stable(a, b, g, old_grp.physical[i]);
                }
            }
            assert forall|i: int| 0 <= i < grp.winners.len() implies b.winner_ok(g, #[trigger] grp.winners[i]) by {
                let w = grp.winners[i];
                if !b.winner_ok(g, w) {
                    assert(a.winner_ok(g, w));
                    assert(a.physical_ok(g, old_grp.physical[w.expr as int]));
                    lemma_winner_ok_stable(a, b, g, w);
                }
            }
        } else {
            lemma_group_ok_stable(a, b, h);
        }
    }
}

/// Whether a group holds the expression `e`.
pub open spec fn group_holds(grp: GroupView, e: ExprNode) -> bool {
    grp.logical.contains(e) || grp.physical.contains(e)
}

/// For each number up to `n`, one more than the rank of the group that
/// `children` names there; the largest of them, and 0 where there is none.
pub open spec fn rank_above(m: MemoView, children: Seq<usize>, n: nat) -> nat
    decreases n,
{
    if n == 0 || n > children.len() {
        0
    } else {
        let rest = rank_above(m, children, (n - 1) as nat);
        let here = m.groups[children[n - 1] as int].rank + 1;
        if here > rest {
            here as nat
        } else {
            rest
        }
    }
}

impl MemoView {
    /// For each group, whether it holds the expression `e`.
    pub open spec fn holders(self, e: ExprNode) -> Seq<bool> {
        Seq::new(self.groups.len(), |g: int| group_holds(self.groups[g], e))
    }

    /// The first group that holds the expression `e`.
    pub open spec fn holder(self, e: ExprNode) -> Option<int> {
        self.holders(e).index_of_first(true)
    }

    /// Whether every group that `children` names is a group of the memo.
    pub open spec fn has_groups(self, children: Seq<usize>) -> bool {
        forall|i: int| 0 <= i < children.len() ==> self.has_group(#[trigger] children[i] as int)
    }

    /// Whether `e` can come into group `g`: it is no enforcer, has as many
    /// inputs as its operator, and each of them is a group that ranks
    /// below `g`.
    pub open spec fn admits_expr(self, g: int, e: ExprNode) -> bool {
        &&& self.has_group(g)
        &&& !e.enforcer
        &&& e.children.len() == arity_spec(e.op)
        &&& forall|i: int| 0 <= i < e.children.len() ==> self.child_ok(g, #[trigger] e.children[i])
    }

    /// Whether `e` can found a group: it is a logical expression, no
    /// enforcer, has as many inputs as its operator, each of them is a
    /// group of the memo, and a rank above theirs can be had.
    pub open spec fn admits_founder(self, e: ExprNode) -> bool {
        &&& e.op is Logical
        &&& !e.enforcer
        &&& e.children.len() == arity_spec(e.op)
        &&& self.has_groups(e.children)
        &&& rank_above(self, e.children, e.children.len()) <= usize::MAX
    }

    /// The group that `e` founds, with `required` put on it.
    pub open spec fn founded(self, e: ExprNode, required: Seq<Seq<SortKey>>) -> GroupView {
        GroupView {
            logical: seq![e],
            physical: Seq::empty(),
            stats: None,
            winners: Seq::empty(),
            closed: Seq::empty(),
            fired: Seq::empty(),
            required,
            rank: rank_above(self, e.children, e.children.len()) as usize,
        }
    }

    /// Group `g` with `e` added to its expressions of the kind of `e`.
    pub open spec fn group_with_expr(self, g: int, e: ExprNode) -> GroupView {
        if e.op is Logical {
            GroupView { logical: self.groups[g].logical.push(e), ..self.groups[g] }
        } else {
            GroupView { physical: self.groups[g].physical.push(e), ..self.groups[g] }
        }
    }
}

impl Group {
    /// Whether the group holds an expression of `op` over `children`.
    fn holds(&self, op: &Operator, children: &Vec<usize>) -> (b: bool)
        ensures
            b == group_holds(self@, ExprNode { op: op@, children: children@, enforcer: false }),
    {
        let ghost e = ExprNode { op: op@, children: children@, enforcer: false };
        let mut i: usize = 0;
        while i < self.logical.len()
            invariant
                i <= self.logical.len(),
                e == (ExprNode { op: op@, children: children@, enforcer: false }),
                forall|j: int| 0 <= j < i ==> self@.logical[j] != e,
            decreases self.logical.len() - i,
        {
            if same_expr(&self.logical[i], op, children) {
                assert(self@.logical[i as int] == e);
                return true;
            }
            i += 1;
        }
        let mut k: usize = 0;
        while k < self.physical.len()
            invariant
                k <= self.physical.len(),
                e == (ExprNode { op: op@, children: children@, enforcer: false }),
                forall|j: int| 0 <= j < self.logical.len() ==> self@.logical[j] != e,
                forall|j: int| 0 <= j < k ==> self@.physical[j] != e,
            decreases self.physical.len() - k,
        {
            if same_expr(&self.physical[k], op, children) {
                assert(self@.physical[k as int] == e);
                return true;
            }
            k += 1;
        }
        false
    }
}

/// Whether `e` is the expression of `op` over `children`, and no enforcer.
fn same_expr(e: &GroupExpr, op: &Operator, children: &Vec<usize>) -> (b: bool)
    ensures
        b == (e@ == ExprNode { op: op@, children: children@, enforcer: false }),
{
    if e.enforcer {
        return false;
    }
    if e.children.len() != children.len() {
        return false;
    }
    let mut i: usize = 0;
    while i < children.len()
        invariant
            i <= children.len(),
            e.children.len() == children.len(),
            forall|j: int| 0 <= j < i ==> e.children@[j] == children@[j],
        decreases children.len() - i,
    {
        if e.children[i] != children[i] {
            return false;
        }
        i += 1;
    }
    assert(e.children@ =~= children@);
    e.op.equal(op)
}

impl Memo {
    /// The first group that holds an expression of `op` over `children`.
    pub fn find_expr(&self, op: &Operator, children: &Vec<usize>) -> (r: Option<usize>)
        ensures
            match r {
                Some(g) => self@.holder(ExprNode { op: op@, children: children@, enforcer: false })
                    == Some(g as int) && self@.has_group(g as int),
                None => self@.holder(ExprNode { op: op@, children: children@, enforcer: false }) is None,
            },
    {
        let ghost e = ExprNode { op: op@, children: children@, enforcer: false };
        let mut g: usize = 0;
        while g < self.groups.len()
            invariant
                g <= self.groups.len(),
                e == (ExprNode { op: op@, children: children@, enforcer: false }),
                forall|j: int| 0 <= j < g ==> self@.holders(e)[j] != true,
            decreases self.groups.len() - g,
        {
            if self.groups[g].holds(op, children) {
                proof {
                    lemma_first_index(self@.holders(e), true, g as int);
                }
                return Some(g);
            }
            g += 1;
        }
        proof {
            self@.holders(e).index_of_first_ensures(true);
        }
        None
    }

    /// Marks `rule` as applied in `group`, and tells whether it did: it
    /// does not where the rule was applied there before, or the memo has
    /// no such group.
    pub fn mark_fired(&mut self, group: usize, rule: usize) -> (b: bool)
        requires
            old(self).wf(),
        ensures
            final(self).wf(),
            memo_extends(old(self)@, final(self)@),
            b == (old(self)@.has_group(group as int) && !old(self)@.is_fired(group as int, rule)),
            b ==> final(self)@ == old(self)@.with_group(
                group as int,
                GroupView {
                    fired: old(self)@.groups[group as int].fired.push(rule),
                    ..old(self)@.groups[group as int]
                },
            ),
            !b ==> final(self)@ == old(self)@,
    {
        if group >= self.groups.len() || self.groups[group].holds_fired(rule) {
            proof {
                lemma_memo_extends_reflexive(self@);
            }
            return false;
        }
        let ghost before = self@;
        self.groups[group].fired.push(rule);
        proof {
            let after = self@;
            let g = group as int;
            assert(after.groups =~= before.groups.update(
                g,
                GroupView { fired: before.groups[g].fired.push(rule), ..before.groups[g] },
            ));
            assert(before.group_ok(g));
            assert forall|x: usize| before.groups[g].fired.contains(x) implies after.groups[g].fired.contains(x) by {
                let i = choose|i: int| 0 <= i < before.groups[g].fired.len() && before.groups[g].fired[i] == x;
                assert(after.groups[g].fired[i] == x);
            }
            assert forall|i: int| 0 <= i < after.groups[g].winners.len() implies before.winner_ok(
                g,
                #[trigger] after.groups[g].winners[i],
            ) by {
                assert(after.groups[g].winners[i] == before.groups[g].winners[i]);
            }
            lemma_wf_after_change(before, after, g);
        }
        true
    }

    /// One more than the largest rank among the groups `children`, if a
    /// `usize` holds it.
    fn rank_over(&self, children: &Vec<usize>) -> (r: Option<usize>)
        requires
            self@.has_groups(children@),
        ensures
            match r {
                Some(rank) => rank == rank_above(self@, children@, children@.len()),
                None => rank_above(self@, children@, children@.len()) > usize::MAX,
            },
    {
        let mut rank: usize = 0;
        let mut i: usize = 0;
        while i < children.len()
            invariant
                i <= children.len(),
                self@.has_groups(children@),
                rank == rank_above(self@, children@, i as nat),
            decreases children.len() - i,
        {
            let c = children[i];
            assert(self@.has_group(children@[i as int] as int));
            let child_rank = self.groups[c].rank;
            if child_rank == usize::MAX {
                proof {
                    lemma_rank_above_grows(self@, children@, (i + 1) as nat, children@.len());
                }
                return None;
            }
            if child_rank + 1 > rank {
                rank = child_rank + 1;
            }
            i += 1;
        }
        Some(rank)
    }

    /// Whether each of `children` is a group of the memo.
    fn groups_exist(&self, children: &Vec<usize>) -> (b: bool)
        ensures
            b == self@.has_groups(children@),
    {
        let mut i: usize = 0;
        while i < children.len()
            invariant
                i <= children.len(),
                forall|j: int| 0 <= j < i ==> self@.has_group(#[trigger] children@[j] as int),
            decreases children.len() - i,
        {
            if children[i] >= self.groups.len() {
                assert(!self@.has_group(children@[i as int] as int));
                return false;
            }
            i += 1;
        }
        true
    }

    /// Whether each of `children` is a group of the memo that ranks below `group`.
    fn children_below(&self, group: usize, children: &Vec<usize>) -> (b: bool)
        requires
            self@.has_group(group as int),
        ensures
            b == (forall|i: int| 0 <= i < children@.len() ==> self@.child_ok(group as int, #[trigger] children@[i])),
    {
        let mut i: usize = 0;
        while i < children.len()
            invariant
                i <= children.len(),
                self@.has_group(group as int),
                forall|j: int| 0 <= j < i ==> self@.child_ok(group as int, #[trigger] children@[j]),
            decreases children.len() - i,
        {
            let c = children[i];
            if c >= self.groups.len() || self.groups[c].rank >= self.groups[group].rank {
                assert(!self@.child_ok(group as int, children@[i as int]));
                return false;
            }
            i += 1;
        }
        true
    }
}

/// The rank above the first `n` groups is no larger than that above the
/// first `k`, for `n` up to `k`.
pub proof fn lemma_rank_above_grows(m: MemoView, children: Seq<usize>, n: nat, k: nat)
    requires
        n <= k <= children.len(),
    ensures
        rank_above(m, children, n) <= rank_above(m, children, k),
    decreases k,
{
    if n < k {
        lemma_rank_above_grows(m, children, n, (k - 1) as nat);
    }
}

/// The rank above groups is above the rank of each of them.
pub proof fn lemma_rank_above_each(m: MemoView, children: Seq<usize>, i: int)
    requires
        0 <= i < children.len(),
    ensures
        m.groups[children[i] as int].rank < rank_above(m, children, children.len()),
{
    lemma_rank_above_grows(m, children, (i + 1) as nat, children.len());
}

impl Memo {
    /// Adds `expr` to the expressions of `group`, unless the memo holds
    /// it already, and gives its place among the expressions of its kind.
    /// An expression that cannot come into the group is refused.
    pub fn add_expr(&mut self, group: usize, expr: GroupExpr) -> (r: Result<Option<usize>, OptimizerError>)
        requires
            old(self).wf(),
        ensures
            final(self).wf(),
            memo_extends(old(self)@, final(self)@),
            match r {
                Ok(Some(i)) => {
                    &&& old(self)@.admits_expr(group as int, expr@)
                    &&& old(self)@.holder(expr@) is None
                    &&& final(self)@ == old(self)@.with_group(
                        group as int,
                        old(self)@.group_with_expr(group as int, expr@),
                    )
                    &&& i == if expr@.op is Logical {
                        old(self)@.groups[group as int].logical.len()
                    } else {
                        old(self)@.groups[group as int].physical.len()
                    }
                },
                Ok(None) => {
                    &&& old(self)@.admits_expr(group as int, expr@)
                    &&& old(self)@.holder(expr@) is Some
                    &&& final(self)@ == old(self)@
                },
                Err(e) => {
                    &&& !old(self)@.admits_expr(group as int, expr@)
                    &&& e == OptimizerError::InvariantViolation
                    &&& final(self)@ == old(self)@
                },
            },
    {
        proof {
            lemma_memo_extends_reflexive(self@);
        }
        if group >= self.groups.len() || expr.enforcer || expr.children.len() != expr.op.arity() {
            return Err(OptimizerError::InvariantViolation);
        }
        if !self.children_below(group, &expr.children) {
            return Err(OptimizerError::InvariantViolation);
        }
        match self.find_expr(&expr.op, &expr.children) {
            Some(_) => {
                return Ok(None);
            },
            None => {},
        }
        let ghost before = self@;
        let ghost e = expr@;
        let g = group;
        let logical = expr.op.is_logical();
        let place = if logical {
            self.groups[g].logical.len()
        } else {
            self.groups[g].physical.len()
        };
        if logical {
            self.groups[g].logical.push(expr);
        } else {
            self.groups[g].physical.push(expr);
        }
        proof {
            let after = self@;
            let gi = g as int;
            let ng = before.group_with_expr(gi, e);
            if logical {
                assert(after.groups[gi].logical =~= before.groups[gi].logical.push(e));
            } else {
                assert(after.groups[gi].physical =~= before.groups[gi].physical.push(e));
            }
            assert(after.groups =~= before.groups.update(gi, ng));
            assert(before.group_ok(gi));
            assert forall|i: int| 0 <= i < after.groups[gi].winners.len() implies before.winner_ok(
                gi,
                #[trigger] after.groups[gi].winners[i],
            ) by {
                assert(after.groups[gi].winners[i] == before.groups[gi].winners[i]);
            }
            assert forall|i: int| 0 <= i < e.children.len() implies after.child_ok(gi, #[trigger] e.children[i]) by {
                assert(before.child_ok(gi, e.children[i]));
            }
            lemma_wf_after_change(before, after, gi);
            lemma_distinct_after_expr(before, after, gi, e);
        }
        Ok(Some(place))
    }

    /// The group of the expression `expr`: the first group that holds it,
    /// or a new group that it founds, with `required` put on it. An
    /// expression that cannot found a group is refused.
    pub fn add_group(&mut self, expr: GroupExpr, required: Vec<PhysicalProperties>) -> (r: Result<usize, OptimizerError>)
        requires
            old(self).wf(),
        ensures
            final(self).wf(),
            memo_extends(old(self)@, final(self)@),
            match r {
                Ok(g) => {
                    &&& old(self)@.admits_founder(expr@)
                    &&& match old(self)@.holder(expr@) {
                        Some(h) => g == h && final(self)@ == old(self)@,
                        None => {
                            &&& g == old(self)@.groups.len()
                            &&& final(self)@ == (MemoView {
                                groups: old(self)@.groups.push(
                                    old(self)@.founded(expr@, props_views(required@)),
                                ),
                                root: old(self)@.root,
                            })
                        },
                    }
                },
                Err(e) => {
                    &&& !old(self)@.admits_founder(expr@)
                    &&& e == OptimizerError::MalformedInput
                    &&& final(self)@ == old(self)@
                },
            },
    {
        proof {
            lemma_memo_extends_reflexive(self@);
        }
        if !expr.op.is_logical() || expr.enforcer || expr.children.len() != expr.op.arity() {
            return Err(OptimizerError::MalformedInput);
        }
        if !self.groups_exist(&expr.children) {
            return Err(OptimizerError::MalformedInput);
        }
        let rank = match self.rank_over(&expr.children) {
            Some(rank) => rank,
            None => {
                return Err(OptimizerError::MalformedInput);
            },
        };
        match self.find_expr(&expr.op, &expr.children) {
            Some(g) => {
                return Ok(g);
            },
            None => {},
        }
        let ghost before = self@;
        let ghost e = expr@;
        let ghost req = props_views(required@);
        let place = self.groups.len();
        let mut logical: Vec<GroupExpr> = Vec::new();
        logical.push(expr);
        let group = Group {
            logical,
            physical: Vec::new(),
            stats: None,
            winners: Vec::new(),
            closed: Vec::new(),
            fired: Vec::new(),
            required,
            rank,
        };
        proof {
            assert(group@.logical =~= seq![e]);
            assert(group@.physical =~= Seq::<ExprNode>::empty());
            assert(group@.winners =~= Seq::<WinnerView>::empty());
            assert(group@.closed =~= Seq::<Seq<SortKey>>::empty());
            assert(group@ == before.founded(e, req));
        }
        self.groups.push(group);
        proof {
            let after = self@;
            assert(after.groups =~= before.groups.push(before.founded(e, req)));
            lemma_wf_after_new_group(before, after, e, req);
            lemma_distinct_after_group(before, after, e, req);
        }
        Ok(place)
    }
}

/// A memo keeps its rules when an expression founds a new group in it.
pub proof fn lemma_wf_after_new_group(a: MemoView, b: MemoView, e: ExprNode, required: Seq<Seq<SortKey>>)
    requires
        a.regular(),
        a.admits_founder(e),
        b == (MemoView { groups: a.groups.push(a.founded(e, required)), root: a.root }),
    ensures
        b.regular(),
        memo_extends(a, b),
{
    let n = a.groups.len() as int;
    assert forall|h: int| 0 <= h < a.groups.len() implies group_extends(#[trigger] a.groups[h], b.groups[h]) by {
        lemma_group_extends_reflexive(a.groups[h]);
    }
    assert forall|h: int| 0 <= h < b.groups.len() implies #[trigger] b.group_ok(h) by {
        if h < n {
            assert(a.group_ok(h));
            lemma_group_ok_stable(a, b, h);
        } else {
            let grp = b.groups[n];
            assert(grp == a.founded(e, required));
            assert forall|i: int| 0 <= i < e.children.len() implies b.child_ok(n, #[trigger] e.children[i]) by {
                assert(a.has_group(e.children[i] as int));
                lemma_rank_above_each(a, e.children, i);
            }
            assert(grp.logical[0] == e);
            assert(b.logical_ok(n, e));
        }
    }
}

/// In a table that gains an entry for a requirement it had none for, that
/// entry is the one for the requirement, and the entries for the others
/// stay.
pub proof fn lemma_table_push(ws: Seq<WinnerView>, w: WinnerView, r: Seq<SortKey>)
    requires
        !winner_keys(ws).contains(w.required),
    ensures
        winner_keys(ws.push(w)) == winner_keys(ws).push(w.required),
        winner_keys(ws.push(w)).contains(r) == (winner_keys(ws).contains(r) || r == w.required),
        r == w.required ==> entry_of(ws.push(w), r) == w,
        winner_keys(ws).contains(r) ==> entry_of(ws.push(w), r) == entry_of(ws, r),
        winner_keys(ws).no_duplicates() ==> winner_keys(ws.push(w)).no_duplicates(),
{
    let ks = winner_keys(ws);
    let ks2 = winner_keys(ws.push(w));
    assert(ks2 =~= ks.push(w.required));
    ks.index_of_first_ensures(r);
    ks2.index_of_first_ensures(r);
    assert(ks2[ks.len() as int] == w.required);
    if ks.contains(r) {
        let i = ks.index_of_first(r).unwrap();
        assert(ks2[i] == r);
        lemma_first_index(ks2, r, i);
    }
    if ks2.contains(r) && r != w.required {
        let j = choose|j: int| 0 <= j < ks2.len() && ks2[j] == r;
        assert(ks[j] == r);
    }
    if r == w.required {
        assert forall|j: int| 0 <= j < ks.len() implies ks2[j] != r by {
            if ks2[j] == r {
                assert(ks[j] == r);
            }
        }
        lemma_first_index(ks2, r, ks.len() as int);
    }
}

/// In a table in which an entry gives way to another for the same
/// requirement, the new entry is the one for that requirement, and the
/// entries for the others stay.
pub proof fn lemma_table_update(ws: Seq<WinnerView>, i: int, w: WinnerView, r: Seq<SortKey>)
    requires
        0 <= i < ws.len(),
        ws[i].required == w.required,
        winner_keys(ws).no_duplicates(),
    ensures
        winner_keys(ws.update(i, w)) == winner_keys(ws),
        r == w.required ==> entry_of(ws.update(i, w), r) == w,
        r != w.required && winner_keys(ws).contains(r) ==> entry_of(ws.update(i, w), r) == entry_of(
            ws,
            r,
        ),
{
    let ks = winner_keys(ws);
    assert(winner_keys(ws.update(i, w)) =~= ks);
    ks.index_of_first_ensures(r);
    if r == w.required {
        assert(ks[i] == r);
        let j = ks.index_of_first(r).unwrap();
        assert(j == i) by {
            if j != i {
                assert(ks[j] == ks[i]);
            }
        }
    } else if ks.contains(r) {
        let j = ks.index_of_first(r).unwrap();
        assert(j != i);
    }
}

impl MemoView {
    /// The enforcer of `required` in group `g`: the sort into that order
    /// over the group itself.
    pub open spec fn enforcer_of(g: int, required: Seq<SortKey>) -> ExprNode {
        ExprNode {
            op: OperatorView::Physical(PhysicalOpView::Sort(required)),
            children: seq![g as usize],
            enforcer: true,
        }
    }

    /// What a plan of the physical expression `expr` of group `g`
    /// delivers and costs when `inputs` is asked of its inputs; none
    /// unless the group has that expression and statistics, `inputs`
    /// holds one requirement for each input, under each of them the
    /// search of the input is over and has a winner, and an enforcer is
    /// run for a requirement and asks nothing of its input.
    pub open spec fn candidate(self, g: int, expr: usize, required: Seq<SortKey>, inputs: Seq<Seq<SortKey>>) -> Option<(Seq<SortKey>, Cost)> {
        if !self.has_group(g) || expr >= self.groups[g].physical.len() || self.groups[g].stats is None {
            None
        } else {
            let p = self.groups[g].physical[expr as int];
            if !(p.op is Physical) || inputs.len() != p.children.len() || (p.enforcer && !(required.len() > 0
                && inputs[0].len() == 0)) || !(forall|i: int|
                0 <= i < p.children.len() ==> {
                    &&& self.has_group((#[trigger] p.children[i]) as int)
                    &&& self.is_closed(p.children[i] as int, inputs[i])
                    &&& self.has_winner(p.children[i] as int, inputs[i])
                }) {
                None
            } else {
                Some(
                    (
                        delivered_spec(p.op->Physical_0, self.input_delivered(p, inputs)),
                        cost_spec(
                            p.op->Physical_0,
                            self.input_costs(p, inputs),
                            self.groups[g].stats->0.row_count,
                        ),
                    ),
                )
            }
        }
    }

    /// Whether `w` can come into the best-plan table of group `g`: the
    /// search of the group under its requirement is not over, and it
    /// delivers and costs what a plan of its expression does, which
    /// meets its requirement.
    pub open spec fn admits_winner(self, g: int, w: WinnerView) -> bool {
        &&& self.has_group(g)
        &&& !self.is_closed(g, w.required)
        &&& self.candidate(g, w.expr, w.required, w.inputs) == Some((w.delivered, w.cost))
        &&& satisfies_spec(w.delivered, w.required)
    }

    /// Whether `w` betters the best-plan table of group `g`: the table has
    /// no entry for its requirement, or one that costs more.
    pub open spec fn improves(self, g: int, w: WinnerView) -> bool {
        !self.has_winner(g, w.required) || w.cost.value < self.winner(g, w.required).cost.value
    }

    /// Group `g` with `w` as the entry for its requirement.
    pub open spec fn group_with_winner(self, g: int, w: WinnerView) -> GroupView {
        let ws = self.groups[g].winners;
        if self.has_winner(g, w.required) {
            GroupView {
                winners: ws.update(winner_keys(ws).index_of_first(w.required).unwrap(), w),
                ..self.groups[g]
            }
        } else {
            GroupView { winners: ws.push(w), ..self.groups[g] }
        }
    }
}

impl Memo {
    /// What a plan of the physical expression `expr` of `group` delivers
    /// and costs when `inputs` is asked of its inputs.
    pub fn candidate(&self, group: usize, expr: usize, required: &PhysicalProperties, inputs: &Vec<PhysicalProperties>) -> (r: Option<(PhysicalProperties, Cost)>)
        requires
            self.wf(),
        ensures
            match r {
                Some((delivered, cost)) => self@.candidate(group as int, expr, required@, props_views(inputs@))
                    == Some((delivered@, cost)),
                None => self@.candidate(group as int, expr, required@, props_views(inputs@)) is None,
            },
    {
        if group >= self.groups.len() || expr >= self.groups[group].physical.len() {
            return None;
        }
        let stats = match self.groups[group].stats {
            Some(stats) => stats,
            None => {
                return None;
            },
        };
        let p = &self.groups[group].physical[expr];
        assert(p@ == self@.groups[group as int].physical[expr as int]);
        if !p.op.is_physical() || inputs.len() != p.children.len() {
            return None;
        }
        if p.enforcer {
            assert(self@.group_ok(group as int));
            assert(self@.physical_ok(group as int, p@));
            if required.is_empty() || !inputs[0].is_empty() {
                assert(props_views(inputs@)[0] == inputs@[0]@);
                return None;
            }
            assert(props_views(inputs@)[0] == inputs@[0]@);
        }
        let mut delivered: Vec<PhysicalProperties> = Vec::new();
        let mut costs: Vec<Cost> = Vec::new();
        let mut i: usize = 0;
        while i < p.children.len()
            invariant
                i <= p.children.len(),
                inputs.len() == p.children.len(),
                group < self.groups.len(),
                p@ == self@.groups[group as int].physical[expr as int],
                delivered@.len() == i,
                costs@.len() == i,
                forall|j: int|
                    0 <= j < i ==> {
                        &&& self@.has_group((#[trigger] p@.children[j]) as int)
                        &&& self@.is_closed(p@.children[j] as int, props_views(inputs@)[j])
                        &&& self@.has_winner(p@.children[j] as int, props_views(inputs@)[j])
                    },
                forall|j: int|
                    0 <= j < i ==> (#[trigger] delivered@[j])@ == self@.input_delivered(
                        p@,
                        props_views(inputs@),
                    )[j],
                forall|j: int|
                    0 <= j < i ==> #[trigger] costs@[j] == self@.input_costs(p@, props_views(inputs@))[j],
            decreases p.children.len() - i,
        {
            let c = p.children[i];
            assert(props_views(inputs@)[i as int] == inputs@[i as int]@);
            if !self.is_closed(c, &inputs[i]) {
                return None;
            }
            match self.lookup(c, &inputs[i]) {
                Some(w) => {
                    delivered.push(w.delivered.clone());
                    costs.push(w.cost);
                },
                None => {
                    return None;
                },
            }
            i += 1;
        }
        proof {
            assert(props_views(delivered@) =~= self@.input_delivered(p@, props_views(inputs@)));
            assert(costs@ =~= self@.input_costs(p@, props_views(inputs@)));
            assert(self@.group_ok(group as int));
            assert(self@.physical_ok(group as int, p@));
        }
        let op = p.op.physical_op();
        let d = op.derive_output_properties(&delivered);
        let cost = op.compute_cost(&costs, &stats);
        Some((d, cost))
    }
}

impl Memo {
    /// Offers a plan to the best-plan table of `group`: the physical
    /// expression `winner_expr`, with `inputs_required` asked of its
    /// inputs, delivers `delivered` at `total_cost` under `required`. The
    /// entry is installed where the table has none for `required`, or one
    /// that costs more, and the result tells whether it was. A plan that
    /// cannot come into the table is refused.
    pub fn update(
        &mut self,
        group: usize,
        required: PhysicalProperties,
        winner_expr: usize,
        delivered: PhysicalProperties,
        inputs_required: Vec<PhysicalProperties>,
        total_cost: Cost,
    ) -> (r: Result<bool, OptimizerError>)
        requires
            old(self).wf(),
        ensures
            final(self).wf(),
            memo_extends(old(self)@, final(self)@),
            ({
                let w = WinnerView {
                    required: required@,
                    expr: winner_expr,
                    delivered: delivered@,
                    inputs: props_views(inputs_required@),
                    cost: total_cost,
                };
                match r {
                    Ok(installed) => {
                        &&& old(self)@.admits_winner(group as int, w)
                        &&& installed == old(self)@.improves(group as int, w)
                        &&& installed ==> final(self)@ == old(self)@.with_group(
                            group as int,
                            old(self)@.group_with_winner(group as int, w),
                        )
                        &&& !installed ==> final(self)@ == old(self)@
                    },
                    Err(e) => {
                        &&& !old(self)@.admits_winner(group as int, w)
                        &&& e == OptimizerError::InvariantViolation
                        &&& final(self)@ == old(self)@
                    },
                }
            }),
    {
        proof {
            lemma_memo_extends_reflexive(self@);
        }
        let ghost w = WinnerView {
            required: required@,
            expr: winner_expr,
            delivered: delivered@,
            inputs: props_views(inputs_required@),
            cost: total_cost,
        };
        if group >= self.groups.len() || self.is_closed(group, &required) {
            return Err(OptimizerError::InvariantViolation);
        }
        match self.candidate(group, winner_expr, &required, &inputs_required) {
            Some((d, c)) => {
                if !d.equal(&delivered) || c.value != total_cost.value || !delivered.satisfies(&required) {
                    return Err(OptimizerError::InvariantViolation);
                }
            },
            None => {
                return Err(OptimizerError::InvariantViolation);
            },
        }
        let ghost before = self@;
        let ghost g = group as int;
        let position = self.groups[group].winner_position(&required);
        let entry = Winner { required, expr: winner_expr, delivered, input_required: inputs_required, cost: total_cost };
        assert(entry@ == w);
        match position {
            Some(i) => {
                if !total_cost.less_than(&self.groups[group].winners[i].cost) {
                    return Ok(false);
                }
                self.groups[group].winners.set(i, entry);
                proof {
                    let after = self@;
                    assert(after.groups[g].winners =~= before.groups[g].winners.update(i as int, w));
                    assert(after.groups =~= before.groups.update(g, before.group_with_winner(g, w)));
                    lemma_wf_after_winner(before, after, g, w);
                    lemma_distinct_same_exprs(before, after);
                }
                Ok(true)
            },
            None => {
                self.groups[group].winners.push(entry);
                proof {
                    let after = self@;
                    assert(after.groups[g].winners =~= before.groups[g].winners.push(w));
                    assert(after.groups =~= before.groups.update(g, before.group_with_winner(g, w)));
                    lemma_wf_after_winner(before, after, g, w);
                    lemma_distinct_same_exprs(before, after);
                }
                Ok(true)
            },
        }
    }
}

/// A memo keeps its rules when an entry that can come into a table, and
/// betters it, is installed.
pub proof fn lemma_wf_after_winner(a: MemoView, b: MemoView, g: int, w: WinnerView)
    requires
        a.regular(),
        a.admits_winner(g, w),
        a.improves(g, w),
        b == a.with_group(g, a.group_with_winner(g, w)),
    ensures
        b.regular(),
        memo_extends(a, b),
{
    let ws = a.groups[g].winners;
    let ws2 = b.groups[g].winners;
    assert(a.group_ok(g));
    lemma_table_change(a, g, w, w.required);
    assert(group_extends(a.groups[g], b.groups[g])) by {
        assert forall|r: Seq<SortKey>| #[trigger] winner_keys(ws).contains(r) implies winner_keys(ws2).contains(r)
            && entry_of(ws2, r).cost.value <= entry_of(ws, r).cost.value by {
            lemma_table_change(a, g, w, r);
        }
        assert forall|r: Seq<SortKey>| #[trigger] a.groups[g].closed.contains(r) implies winner_keys(
            ws2,
        ).contains(r) == winner_keys(ws).contains(r) && (winner_keys(ws).contains(r) ==> entry_of(ws2, r)
            == entry_of(ws, r)) by {
            assert(r != w.required);
            lemma_table_change(a, g, w, r);
        }
    }
    // the new entry keeps its rule in the new memo
    let p = a.groups[g].physical[w.expr as int];
    assert(a.physical_ok(g, p));
    assert forall|i: int| 0 <= i < p.children.len() implies {
        &&& b.is_closed((#[trigger] p.children[i]) as int, w.inputs[i])
        &&& b.has_winner(p.children[i] as int, w.inputs[i])
        &&& b.winner(p.children[i] as int, w.inputs[i]) == a.winner(p.children[i] as int, w.inputs[i])
    } by {
        let c = p.children[i] as int;
        assert(a.is_closed(c, w.inputs[i]));
        assert(a.has_winner(c, w.inputs[i]));
        lemma_table_change(a, g, w, w.inputs[i]);
        if c == g {
            assert(w.inputs[i] != w.required);
        }
    }
    assert(b.input_delivered(p, w.inputs) =~= a.input_delivered(p, w.inputs));
    assert(b.input_costs(p, w.inputs) =~= a.input_costs(p, w.inputs));
    assert(b.winner_ok(g, w));
    assert forall|i: int| 0 <= i < ws2.len() implies a.winner_ok(g, #[trigger] ws2[i]) || b.winner_ok(g, ws2[i]) by {
        if a.has_winner(g, w.required) {
            let pos = winner_keys(ws).index_of_first(w.required).unwrap();
            winner_keys(ws).index_of_first_ensures(w.required);
            assert(ws2 == ws.update(pos, w));
            if i != pos {
                assert(ws2[i] == ws[i]);
                assert(a.winner_ok(g, ws[i]));
            }
        } else {
            assert(ws2 == ws.push(w));
            if i < ws.len() {
                assert(ws2[i] == ws[i]);
                assert(a.winner_ok(g, ws[i]));
            }
        }
    }
    lemma_wf_after_change(a, b, g);
}

/// How a table changes when an entry is installed in it: that entry is
/// the one for its requirement, and for every other requirement the table
/// has the entry that it had, or none as before.
pub proof fn lemma_table_change(a: MemoView, g: int, w: WinnerView, r: Seq<SortKey>)
    requires
        winner_keys(a.groups[g].winners).no_duplicates(),
    ensures
        ({
            let ws = a.groups[g].winners;
            let ws2 = a.group_with_winner(g, w).winners;
            &&& winner_keys(ws2).contains(w.required)
            &&& entry_of(ws2, w.required) == w
            &&& winner_keys(ws2).no_duplicates()
            &&& r != w.required ==> winner_keys(ws2).contains(r) == winner_keys(ws).contains(r)
            &&& r != w.required && winner_keys(ws).contains(r) ==> entry_of(ws2, r) == entry_of(ws, r)
        }),
{
    let ws = a.groups[g].winners;
    let ks = winner_keys(ws);
    ks.index_of_first_ensures(w.required);
    if a.has_winner(g, w.required) {
        let i = ks.index_of_first(w.required).unwrap();
        lemma_table_update(ws, i, w, r);
        lemma_table_update(ws, i, w, w.required);
    } else {
        lemma_table_push(ws, w, r);
        lemma_table_push(ws, w, w.required);
    }
}

/// The expressions that enforce `required` over the group `child_group`:
/// for each component that asks something, the operator that the
/// component names over that group.
pub fn make_enforcer(required: &PhysicalProperties, child_group: usize) -> (r: Vec<GroupExpr>)
    ensures
        required@.len() == 0 ==> nodes_of(r@) == Seq::<ExprNode>::empty(),
        required@.len() > 0 ==> nodes_of(r@) == seq![MemoView::enforcer_of(child_group as int, required@)],
{
    let mut out: Vec<GroupExpr> = Vec::new();
    if required.is_empty() {
        assert(nodes_of(out@) =~= Seq::<ExprNode>::empty());
        return out;
    }
    match required.sort_property() {
        Some(sort) => {
            let op = Operator::Physical(PhysicalOp::Sort(sort.enforcer_operator()));
            let mut children: Vec<usize> = Vec::new();
            children.push(child_group);
            let e = GroupExpr { op, children, enforcer: true };
            assert(e@.children =~= seq![child_group]);
            out.push(e);
            assert(nodes_of(out@) =~= seq![MemoView::enforcer_of(child_group as int, required@)]);
        },
        None => {},
    }
    out
}

impl Memo {
    /// The place of the enforcer of `required` among the physical
    /// expressions of `group`, which comes to hold the enforcer if it did
    /// not; none where nothing is required or the memo has no such group.
    pub fn add_enforcer(&mut self, group: usize, required: &PhysicalProperties) -> (r: Option<usize>)
        requires
            old(self).wf(),
        ensures
            final(self).wf(),
            memo_extends(old(self)@, final(self)@),
            ({
                let g = group as int;
                let e = MemoView::enforcer_of(g, required@);
                match r {
                    Some(i) => {
                        &&& old(self)@.has_group(g)
                        &&& required@.len() > 0
                        &&& if old(self)@.groups[g].physical.contains(e) {
                            &&& old(self)@.groups[g].physical.index_of_first(e) == Some(i as int)
                            &&& final(self)@ == old(self)@
                        } else {
                            &&& i == old(self)@.groups[g].physical.len()
                            &&& final(self)@ == old(self)@.with_group(
                                g,
                                GroupView {
                                    physical: old(self)@.groups[g].physical.push(e),
                                    ..old(self)@.groups[g]
                                },
                            )
                        }
                    },
                    None => !(old(self)@.has_group(g) && required@.len() > 0) && final(self)@ == old(self)@,
                }
            }),
    {
        proof {
            lemma_memo_extends_reflexive(self@);
        }
        if group >= self.groups.len() || required.is_empty() {
            return None;
        }
        let ghost g = group as int;
        let ghost e = MemoView::enforcer_of(g, required@);
        let mut made = make_enforcer(required, group);
        assert(nodes_of(made@).len() == 1);
        assert(made@.len() == 1);
        assert(nodes_of(made@)[0] == made@[0]@);
        let expr = match made.pop() {
            Some(expr) => expr,
            None => {
                proof {
                    assert(false);
                }
                return None;
            },
        };
        assert(expr@ == e);
        let mut i: usize = 0;
        while i < self.groups[group].physical.len()
            invariant
                i <= self.groups[group as int].physical.len(),
                group < self.groups.len(),
                g == group as int,
                e == MemoView::enforcer_of(g, required@),
                expr@ == e,
                *self == *old(self),
                self.wf(),
                memo_extends(self@, self@),
                required@.len() > 0,
                forall|j: int| 0 <= j < i ==> self@.groups[g].physical[j] != e,
            decreases self.groups[group as int].physical.len() - i,
        {
            let p = &self.groups[group].physical[i];
            assert(p@ == self@.groups[g].physical[i as int]);
            if p.enforcer && p.children.len() == 1 && p.children[0] == group && p.op.equal(&expr.op) {
                proof {
                    assert(p@.children =~= seq![group]);
                    assert(p@ == e);
                    lemma_first_index(self@.groups[g].physical, e, i as int);
                }
                return Some(i);
            }
            proof {
                if p@ == e {
                    assert(p@.children[0] == group);
                }
            }
            i += 1;
        }
        let ghost before = self@;
        let place = self.groups[group].physical.len();
        self.groups[group].physical.push(expr);
        proof {
            let after = self@;
            assert(after.groups[g].physical =~= before.groups[g].physical.push(e));
            assert(after.groups =~= before.groups.update(
                g,
                GroupView { physical: before.groups[g].physical.push(e), ..before.groups[g] },
            ));
            assert(before.group_ok(g));
            assert forall|k: int| 0 <= k < after.groups[g].winners.len() implies before.winner_ok(
                g,
                #[trigger] after.groups[g].winners[k],
            ) by {
                assert(after.groups[g].winners[k] == before.groups[g].winners[k]);
            }
            assert(after.physical_ok(g, e));
            lemma_wf_after_change(before, after, g);
            lemma_distinct_after_enforcer(before, after, g, required@);
        }
        Some(place)
    }
}

impl MemoView {
    /// The memo after the statistics of group `g` were asked for: where
    /// the group keeps none, its first logical expression derives them
    /// from the statistics of its inputs, which are asked for in turn,
    /// and the memo keeps what was derived. The first input without
    /// statistics ends the asking.
    pub open spec fn derived(self, md: MdAccessor, g: int) -> MemoView
        decreases self.groups[g].rank, 1nat, 0nat,
    {
        if !self.has_group(g) || self.groups[g].stats is Some || self.groups[g].logical.len() == 0 {
            self
        } else {
            let e = self.groups[g].logical[0];
            let (m, inputs) = self.derived_inputs(md, g, e.children.len());
            if !(e.op is Logical) || e.children.len() != arity_spec(e.op) || inputs.len()
                != e.children.len() {
                m
            } else {
                match logical_rows(e.op->Logical_0, md, inputs) {
                    Some(s) => m.with_group(g, GroupView { stats: Some(s), ..m.groups[g] }),
                    None => m,
                }
            }
        }
    }

    /// The memo after the statistics of the first `n` inputs of the first
    /// logical expression of group `g` were asked for, and the statistics
    /// that were had, which are fewer than `n` where an input had none.
    pub open spec fn derived_inputs(self, md: MdAccessor, g: int, n: nat) -> (MemoView, Seq<Stats>)
        decreases self.groups[g].rank, 0nat, n,
    {
        let e = self.groups[g].logical[0];
        if n == 0 || n > e.children.len() {
            (self, Seq::empty())
        } else {
            let (m, inputs) = self.derived_inputs(md, g, (n - 1) as nat);
            let c = e.children[n - 1] as int;
            if inputs.len() != n - 1 {
                (m, inputs)
            } else if m.has_group(c) && m.groups[c].rank < self.groups[g].rank {
                let m2 = m.derived(md, c);
                match m2.groups[c].stats {
                    Some(s) => (m2, inputs.push(s)),
                    None => (m2, inputs),
                }
            } else {
                (m, inputs)
            }
        }
    }

    /// The statistics of group `g`, derived where the memo keeps none.
    pub open spec fn stats_of(self, md: MdAccessor, g: int) -> Option<Stats> {
        if self.has_group(g) {
            self.derived(md, g).groups[g].stats
        } else {
            None
        }
    }
}

/// Whether memo `b` is memo `a` with more statistics kept: nothing but
/// statistics differs, and those that `a` kept `b` keeps.
pub open spec fn keeps_more_stats(a: MemoView, b: MemoView) -> bool {
    &&& b.groups.len() == a.groups.len()
    &&& b.root == a.root
    &&& forall|h: int|
        0 <= h < a.groups.len() ==> {
            &&& #[trigger] b.groups[h] == GroupView { stats: b.groups[h].stats, ..a.groups[h] }
            &&& a.groups[h].stats is Some ==> b.groups[h].stats == a.groups[h].stats
        }
}

/// Keeping more statistics, and then more, is keeping more statistics.
pub proof fn lemma_keeps_more_transitive(a: MemoView, b: MemoView, c: MemoView)
    requires
        keeps_more_stats(a, b),
        keeps_more_stats(b, c),
    ensures
        keeps_more_stats(a, c),
{
    assert forall|h: int| 0 <= h < a.groups.len() implies {
        &&& #[trigger] c.groups[h] == GroupView { stats: c.groups[h].stats, ..a.groups[h] }
        &&& a.groups[h].stats is Some ==> c.groups[h].stats == a.groups[h].stats
    } by {
        assert(b.groups[h] == GroupView { stats: b.groups[h].stats, ..a.groups[h] });
        assert(c.groups[h] == GroupView { stats: c.groups[h].stats, ..b.groups[h] });
    }
}

/// A memo that keeps more statistics than one that keeps its rules keeps them too.
pub proof fn lemma_wf_after_stats(a: MemoView, b: MemoView)
    requires
        a.regular(),
        keeps_more_stats(a, b),
    ensures
        b.regular(),
        memo_extends(a, b),
{
    assert forall|h: int| 0 <= h < a.groups.len() implies group_extends(#[trigger] a.groups[h], b.groups[h]) by {
        assert(b.groups[h] == GroupView { stats: b.groups[h].stats, ..a.groups[h] });
    }
    assert forall|h: int| 0 <= h < b.groups.len() implies #[trigger] b.group_ok(h) by {
        assert(a.group_ok(h));
        assert(b.groups[h] == GroupView { stats: b.groups[h].stats, ..a.groups[h] });
        let grp = a.groups[h];
        assert forall|i: int| 0 <= i < grp.logical.len() implies b.logical_ok(h, #[trigger] grp.logical[i]) by {
            lemma_logical_ok_stable(a, b, h, grp.logical[i]);
        }
        assert forall|i: int| 0 <= i < grp.physical.len() implies b.physical_ok(h, #[trigger] grp.physical[i]) by {
            lemma_physical_ok_stable(a, b, h, grp.physical[i]);
        }
        assert forall|i: int| 0 <= i < grp.winners.len() implies b.winner_ok(h, #[trigger] grp.winners[i]) by {
            assert(a.winner_ok(h, grp.winners[i]));
            lemma_winner_ok_stable(a, b, h, grp.winners[i]);
        }
    }
}

impl Memo {
    /// The statistics of `group`: those that the memo keeps for it, or
    /// else those that its first logical expression derives from the
    /// statistics of its inputs, which the memo then keeps.
    pub fn derive_statistics(&mut self, md_accessor: &MdAccessor, group: usize) -> (r: Option<Stats>)
        requires
            old(self).wf(),
        ensures
            final(self).wf(),
            memo_extends(old(self)@, final(self)@),
            keeps_more_stats(old(self)@, final(self)@),
            final(self)@ == old(self)@.derived(*md_accessor, group as int),
            r == old(self)@.stats_of(*md_accessor, group as int),
            forall|h: int|
                0 <= h < old(self)@.groups.len() && h != group && old(self)@.groups[h].rank >= old(
                    self,
                )@.groups[group as int].rank ==> (#[trigger] final(self)@.groups[h]).stats == old(
                    self,
                )@.groups[h].stats,
        decreases old(self)@.groups[group as int].rank,
    {
        let ghost before = self@;
        let ghost md = *md_accessor;
        let ghost g = group as int;
        proof {
            lemma_memo_extends_reflexive(before);
        }
        if group >= self.groups.len() {
            return None;
        }
        match self.groups[group].stats {
            Some(s) => {
                return Some(s);
            },
            None => {},
        }
        assert(before.group_ok(g));
        let ghost e = before.groups[g].logical[0];
        assert(before.logical_ok(g, e));
        let n = self.groups[group].logical[0].children.len();
        let mut inputs: Vec<Stats> = Vec::new();
        let mut i: usize = 0;
        while i < n
            invariant
                i <= n,
                n == e.children.len(),
                before == old(self)@,
                before.wf(),
                before.has_group(g),
                g == group as int,
                md == *md_accessor,
                e == before.groups[g].logical[0],
                before.logical_ok(g, e),
                before.groups[g].stats is None,
                self.wf(),
                keeps_more_stats(before, self@),
                self@.groups[g].stats is None,
                forall|h: int|
                    0 <= h < before.groups.len() && before.groups[h].rank >= before.groups[g].rank ==> (
                    #[trigger] self@.groups[h]).stats == before.groups[h].stats,
                inputs@.len() == i,
                group < self.groups.len(),
                self.groups[g].logical.len() > 0,
                self.groups[g].logical[0]@ == e,
                self.groups[g].logical[0].children.len() == n,
                (self@, inputs@) == before.derived_inputs(md, g, i as nat),
            decreases n - i,
        {
            let ghost mid = self@;
            assert(mid.groups[g] == GroupView { stats: mid.groups[g].stats, ..before.groups[g] });
            let c = self.groups[group].logical[0].children[i];
            assert(c == e.children[i as int]);
            assert(before.child_ok(g, c));
            assert(mid.groups[c as int] == GroupView { stats: mid.groups[c as int].stats, ..before.groups[c as int] });
            let s = self.derive_statistics(md_accessor, c);
            proof {
                lemma_keeps_more_transitive(before, mid, self@);
                assert(self@.groups[g] == GroupView { stats: self@.groups[g].stats, ..before.groups[g] });
                assert(self@.groups[c as int] == GroupView { stats: self@.groups[c as int].stats, ..mid.groups[c as int] });
                assert forall|h: int|
                    0 <= h < before.groups.len() && before.groups[h].rank >= before.groups[g].rank implies (
                #[trigger] self@.groups[h]).stats == before.groups[h].stats by {
                    assert(mid.groups[h] == GroupView { stats: mid.groups[h].stats, ..before.groups[h] });
                    assert(mid.groups[h].stats == before.groups[h].stats);
                }
            }
            match s {
                Some(st) => {
                    inputs.push(st);
                },
                None => {
                    proof {
                        lemma_wf_after_stats(before, self@);
                        lemma_derived_inputs_fails(before, md, g, (i + 1) as nat, n as nat);
                    }
                    return None;
                },
            }
            i += 1;
        }
        let derived = self.groups[group].logical[0].op.logical_op().derive_statistics(md_accessor, &inputs);
        let ghost mid = self@;
        match derived {
            Some(st) => {
                self.groups[group].stats = Some(st);
                proof {
                    let after = self@;
                    assert(after.groups =~= mid.groups.update(g, GroupView { stats: Some(st), ..mid.groups[g] }));
                    assert(keeps_more_stats(before, after)) by {
                        assert forall|h: int| 0 <= h < before.groups.len() implies {
                            &&& #[trigger] after.groups[h] == GroupView {
                                stats: after.groups[h].stats,
                                ..before.groups[h]
                            }
                            &&& before.groups[h].stats is Some ==> after.groups[h].stats
                                == before.groups[h].stats
                        } by {
                            assert(mid.groups[h] == GroupView { stats: mid.groups[h].stats, ..before.groups[h] });
                        }
                    }
                    lemma_wf_after_stats(before, after);
                }
                Some(st)
            },
            None => {
                proof {
                    lemma_wf_after_stats(before, self@);
                }
                None
            },
        }
    }
}

/// Where asking the first `n` inputs for statistics had fewer than `n`,
/// asking more of them changes nothing.
pub proof fn lemma_derived_inputs_fails(m: MemoView, md: MdAccessor, g: int, n: nat, k: nat)
    requires
        n <= k <= m.groups[g].logical[0].children.len(),
        m.derived_inputs(md, g, n).1.len() < n,
    ensures
        m.derived_inputs(md, g, k) == m.derived_inputs(md, g, n),
    decreases k,
{
    if n < k {
        lemma_derived_inputs_fails(m, md, g, n, (k - 1) as nat);
    }
}

/// What came of a plan that a rule handed to the memo.
#[derive(Clone, Copy, Debug, PartialEq, Eq, Structural)]
pub enum Added {
    /// The memo held the expression already.
    Nothing,
    /// A logical expression, at this place among those of its group.
    Logical(usize),
    /// A physical expression, at this place among those of its group.
    Physical(usize),
}

impl MemoView {
    /// The memo after `e` was given a group, with `required` put on a new
    /// one, and that group: the first group that holds `e`, or a new one.
    pub open spec fn with_founder(self, e: ExprNode, required: Seq<Seq<SortKey>>) -> (MemoView, Result<usize, OptimizerError>) {
        if !self.admits_founder(e) {
            (self, Err(OptimizerError::MalformedInput))
        } else {
            match self.holder(e) {
                Some(h) => (self, Ok(h as usize)),
                None => (
                    MemoView { groups: self.groups.push(self.founded(e, required)), root: self.root },
                    Ok(self.groups.len() as usize),
                ),
            }
        }
    }

    /// The memo after the plan `plan` was taken in, inputs first, and the
    /// group of its root. A leaf of the plan stands for a group of the
    /// memo, and so does a node that carries its group. The first node
    /// that cannot found a group ends the taking in.
    pub open spec fn interned(self, plan: PlanView) -> (MemoView, Result<usize, OptimizerError>)
        decreases plan, 0nat,
    {
        match plan {
            PlanView::Group(g) => if self.has_group(g as int) {
                (self, Ok(g))
            } else {
                (self, Err(OptimizerError::MalformedInput))
            },
            PlanView::Node(op, inputs, required, Some(g)) => if self.has_group(g as int) {
                (self, Ok(g))
            } else {
                (self, Err(OptimizerError::MalformedInput))
            },
            PlanView::Node(op, inputs, required, None) => {
                let (m, r) = self.interned_all(inputs, inputs.len());
                match r {
                    Err(e) => (m, Err(e)),
                    Ok(children) => m.with_founder(ExprNode { op, children, enforcer: false }, required),
                }
            },
        }
    }

    /// The memo after the first `n` of the plans `inputs` were taken in,
    /// in order, and the groups of their roots.
    pub open spec fn interned_all(self, inputs: Seq<PlanView>, n: nat) -> (MemoView, Result<Seq<usize>, OptimizerError>)
        decreases inputs, n,
    {
        if n == 0 || n > inputs.len() {
            (self, Ok(Seq::empty()))
        } else {
            let (m, r) = self.interned_all(inputs, (n - 1) as nat);
            match r {
                Err(e) => (m, Err(e)),
                Ok(children) => {
                    let (m2, r2) = m.interned(inputs[n - 1]);
                    match r2 {
                        Err(e) => (m2, Err(e)),
                        Ok(g) => (m2, Ok(children.push(g))),
                    }
                },
            }
        }
    }

    /// The memo after a rule's plan `plan` was taken into group `g`, and
    /// what came of it: the inputs of its root are taken in, and its root
    /// is added to the expressions of the group unless the memo holds it,
    /// as it does a root that carries its group.
    pub open spec fn inserted(self, g: int, plan: PlanView) -> (MemoView, Result<Added, OptimizerError>) {
        match plan {
            PlanView::Group(_) => (self, Err(OptimizerError::InvariantViolation)),
            PlanView::Node(_, _, _, Some(h)) => if self.has_group(h as int) {
                (self, Ok(Added::Nothing))
            } else {
                (self, Err(OptimizerError::InvariantViolation))
            },
            PlanView::Node(op, inputs, _, None) => {
                let (m, r) = self.interned_all(inputs, inputs.len());
                match r {
                    Err(_) => (m, Err(OptimizerError::InvariantViolation)),
                    Ok(children) => {
                        let e = ExprNode { op, children, enforcer: false };
                        if !m.admits_expr(g, e) {
                            (m, Err(OptimizerError::InvariantViolation))
                        } else if m.holder(e) is Some {
                            (m, Ok(Added::Nothing))
                        } else if op is Logical {
                            (
                                m.with_group(g, m.group_with_expr(g, e)),
                                Ok(Added::Logical(m.groups[g].logical.len() as usize)),
                            )
                        } else {
                            (
                                m.with_group(g, m.group_with_expr(g, e)),
                                Ok(Added::Physical(m.groups[g].physical.len() as usize)),
                            )
                        }
                    },
                }
            },
        }
    }
}

/// A group that holds all that a second holds, which holds all that a
/// third holds, holds all that the third holds.
pub proof fn lemma_group_extends_transitive(a: GroupView, b: GroupView, c: GroupView)
    requires
        group_extends(a, b),
        group_extends(b, c),
    ensures
        group_extends(a, c),
{
    assert forall|r: Seq<SortKey>| #[trigger] winner_keys(a.winners).contains(r) implies {
        &&& winner_keys(c.winners).contains(r)
        &&& entry_of(c.winners, r).cost.value <= entry_of(a.winners, r).cost.value
    } by {
        assert(winner_keys(b.winners).contains(r));
    }
    assert forall|r: Seq<SortKey>| #[trigger] a.closed.contains(r) implies {
        &&& winner_keys(c.winners).contains(r) == winner_keys(a.winners).contains(r)
        &&& winner_keys(a.winners).contains(r) ==> entry_of(c.winners, r) == entry_of(a.winners, r)
    } by {
        assert(b.closed.contains(r));
    }
}

/// A memo that holds all that a second holds, which holds all that a
/// third holds, holds all that the third holds.
pub proof fn lemma_memo_extends_transitive(a: MemoView, b: MemoView, c: MemoView)
    requires
        memo_extends(a, b),
        memo_extends(b, c),
    ensures
        memo_extends(a, c),
{
    assert forall|g: int| 0 <= g < a.groups.len() implies group_extends(#[trigger] a.groups[g], c.groups[g]) by {
        assert(group_extends(a.groups[g], b.groups[g]));
        assert(group_extends(b.groups[g], c.groups[g]));
        lemma_group_extends_transitive(a.groups[g], b.groups[g], c.groups[g]);
    }
}

impl Memo {
    /// Takes the plan `plan` into the memo, inputs first, and gives the
    /// group of its root. A leaf of the plan stands for a group of the memo.
    pub fn intern(&mut self, plan: &Plan) -> (r: Result<usize, OptimizerError>)
        requires
            old(self).wf(),
        ensures
            final(self).wf(),
            memo_extends(old(self)@, final(self)@),
            (final(self)@, r) == old(self)@.interned(plan@),
        decreases plan,
    {
        let ghost before = self@;
        proof {
            lemma_memo_extends_reflexive(before);
        }
        match plan {
            Plan::Group(g) => {
                if *g < self.groups.len() {
                    Ok(*g)
                } else {
                    Err(OptimizerError::MalformedInput)
                }
            },
            Plan::Node(_, _, _, Some(g)) => {
                if *g < self.groups.len() {
                    Ok(*g)
                } else {
                    Err(OptimizerError::MalformedInput)
                }
            },
            Plan::Node(op, inputs, required, None) => {
                let ghost views = plan@->Node_1;
                let mut children: Vec<usize> = Vec::new();
                let mut i: usize = 0;
                while i < inputs.len()
                    invariant
                        i <= inputs.len(),
                        before == old(self)@,
                        plan is Node,
                        plan->Node_3 is None,
                        plan->Node_1 == *inputs,
                        views == plan@->Node_1,
                        views.len() == inputs.len(),
                        self.wf(),
                        memo_extends(before, self@),
                        (self@, Ok::<Seq<usize>, OptimizerError>(children@)) == before.interned_all(
                            views,
                            i as nat,
                        ),
                    decreases inputs.len() - i,
                {
                    proof {
                        assert(decreases_to!(*plan => plan->Node_1));
                        assert(decreases_to!(*inputs => inputs@));
                        assert(decreases_to!(inputs@ => inputs@[i as int]));
                        assert(views[i as int] == inputs@[i as int]@);
                    }
                    let ghost mid = self@;
                    let r = self.intern(&inputs[i]);
                    proof {
                        lemma_memo_extends_transitive(before, mid, self@);
                    }
                    match r {
                        Ok(g) => {
                            children.push(g);
                        },
                        Err(e) => {
                            proof {
                                lemma_interned_all_fails(before, views, (i + 1) as nat, views.len());
                            }
                            return Err(e);
                        },
                    }
                    i += 1;
                }
                let ghost mid = self@;
                let expr = GroupExpr::new(op.clone(), children);
                let r = self.add_group(expr, copy_props(required));
                proof {
                    lemma_memo_extends_transitive(before, mid, self@);
                }
                r
            },
        }
    }
}

/// Where taking in the first `n` plans fails, taking in more of them
/// fails in the same way.
pub proof fn lemma_interned_all_fails(m: MemoView, inputs: Seq<PlanView>, n: nat, k: nat)
    requires
        n <= k <= inputs.len(),
        m.interned_all(inputs, n).1 is Err,
    ensures
        m.interned_all(inputs, k) == m.interned_all(inputs, n),
    decreases k,
{
    if n < k {
        lemma_interned_all_fails(m, inputs, n, (k - 1) as nat);
    }
}

impl Memo {
    /// Takes the logical plan `plan` into the memo, inputs first, and
    /// makes the group of its root the group of the whole plan. A node
    /// whose number of inputs is not that of its operator is refused.
    pub fn init(&mut self, plan: LogicalPlan) -> (r: Result<(), OptimizerError>)
        requires
            old(self).wf(),
        ensures
            final(self).wf(),
            memo_extends(old(self)@, final(self)@),
            ({
                let (m, root) = old(self)@.interned(plan@);
                match root {
                    Ok(g) => r is Ok && final(self)@ == (MemoView { groups: m.groups, root: Some(g) }),
                    Err(e) => r == Err::<(), OptimizerError>(e) && final(self)@ == m,
                }
            }),
    {
        let ghost before = self@;
        match self.intern(plan.plan()) {
            Ok(g) => {
                let ghost mid = self@;
                proof {
                    lemma_interned_group(before, plan@);
                }
                self.root = Some(g);
                proof {
                    let after = self@;
                    assert(after.groups =~= mid.groups);
                    assert forall|h: int| 0 <= h < mid.groups.len() implies group_extends(
                        #[trigger] mid.groups[h],
                        after.groups[h],
                    ) by {
                        lemma_group_extends_reflexive(mid.groups[h]);
                    }
                    assert forall|h: int| 0 <= h < after.groups.len() implies #[trigger] after.group_ok(h) by {
                        assert(mid.group_ok(h));
                        lemma_group_ok_stable(mid, after, h);
                    }
                    lemma_memo_extends_transitive(before, mid, after);
                }
                Ok(())
            },
            Err(e) => Err(e),
        }
    }

    /// Takes the plan `plan`, which a rule made, into `group`: the inputs
    /// of its root are taken in, and its root is added to the expressions
    /// of the group unless the memo holds it. A plan that breaks the
    /// rules of the memo is refused.
    pub fn insert_plan(&mut self, group: usize, plan: &Plan) -> (r: Result<Added, OptimizerError>)
        requires
            old(self).wf(),
        ensures
            final(self).wf(),
            memo_extends(old(self)@, final(self)@),
            (final(self)@, r) == old(self)@.inserted(group as int, plan@),
    {
        let ghost before = self@;
        proof {
            lemma_memo_extends_reflexive(before);
        }
        match plan {
            Plan::Group(_) => Err(OptimizerError::InvariantViolation),
            Plan::Node(_, _, _, Some(h)) => {
                if *h < self.groups.len() {
                    Ok(Added::Nothing)
                } else {
                    Err(OptimizerError::InvariantViolation)
                }
            },
            Plan::Node(op, inputs, _, None) => {
                let ghost views = plan@->Node_1;
                let mut children: Vec<usize> = Vec::new();
                let mut i: usize = 0;
                while i < inputs.len()
                    invariant
                        i <= inputs.len(),
                        before == old(self)@,
                        plan is Node,
                        plan->Node_3 is None,
                        plan->Node_1 == *inputs,
                        views == plan@->Node_1,
                        views.len() == inputs.len(),
                        self.wf(),
                        memo_extends(before, self@),
                        (self@, Ok::<Seq<usize>, OptimizerError>(children@)) == before.interned_all(
                            views,
                            i as nat,
                        ),
                    decreases inputs.len() - i,
                {
                    proof {
                        assert(views[i as int] == inputs@[i as int]@);
                    }
                    let ghost mid = self@;
                    let r = self.intern(&inputs[i]);
                    proof {
                        lemma_memo_extends_transitive(before, mid, self@);
                    }
                    match r {
                        Ok(g) => {
                            children.push(g);
                        },
                        Err(_) => {
                            proof {
                                lemma_interned_all_fails(before, views, (i + 1) as nat, views.len());
                            }
                            return Err(OptimizerError::InvariantViolation);
                        },
                    }
                    i += 1;
                }
                let ghost mid = self@;
                let logical = op.is_logical();
                let expr = GroupExpr::new(op.clone(), children);
                let r = self.add_expr(group, expr);
                proof {
                    lemma_memo_extends_transitive(before, mid, self@);
                }
                match r {
                    Ok(Some(place)) => if logical {
                        Ok(Added::Logical(place))
                    } else {
                        Ok(Added::Physical(place))
                    },
                    Ok(None) => Ok(Added::Nothing),
                    Err(e) => Err(e),
                }
            },
        }
    }
}

/// The group that taking in a plan gives is a group of the memo after.
pub proof fn lemma_interned_group(m: MemoView, plan: PlanView)
    ensures
        m.interned(plan).1 matches Ok(g) ==> m.interned(plan).0.has_group(g as int),
{
    match plan {
        PlanView::Group(g) => {},
        PlanView::Node(op, inputs, required, Some(g)) => {},
        PlanView::Node(op, inputs, required, None) => {
            let (m1, r) = m.interned_all(inputs, inputs.len());
            match r {
                Err(e) => {},
                Ok(children) => {
                    let e = ExprNode { op, children, enforcer: false };
                    if m1.admits_founder(e) {
                        m1.holders(e).index_of_first_ensures(true);
                    }
                },
            }
        },
    }
}

/// The plans that `inputs` holds, place by place.
pub open spec fn all_plans(inputs: Seq<Option<PhysicalPlanView>>) -> Seq<PhysicalPlanView> {
    Seq::new(inputs.len(), |i: int| inputs[i]->0)
}

/// What a physical plan delivers: what its root delivers over what its
/// inputs deliver.
pub open spec fn plan_delivered(plan: PhysicalPlanView) -> Seq<SortKey>
    decreases plan,
{
    delivered_spec(
        plan.op,
        Seq::new(
            plan.inputs.len(),
            |i: int|
                if 0 <= i < plan.inputs.len() {
                    plan_delivered(plan.inputs[i])
                } else {
                    Seq::empty()
                },
        ),
    )
}

/// Whether every node of a physical plan has as many inputs as its operator.
pub open spec fn plan_arity_ok(plan: PhysicalPlanView) -> bool
    decreases plan,
{
    &&& plan.inputs.len() == physical_arity(plan.op)
    &&& forall|i: int| 0 <= i < plan.inputs.len() ==> plan_arity_ok(#[trigger] plan.inputs[i])
}

impl MemoView {
    /// Whether the search of group `c` under `r` lies below that of group
    /// `g` under `required`: the group ranks lower, or it is the same
    /// group under a requirement of fewer keys.
    pub open spec fn descends(self, g: int, required: Seq<SortKey>, c: int, r: Seq<SortKey>) -> bool {
        (self.has_group(c) && self.groups[c].rank < self.groups[g].rank) || (c == g && r.len()
            < required.len())
    }

    /// The best plan of group `g` under `required`: the operator of the
    /// winning expression over the best plans of its inputs under what
    /// the entry asks of them; none where a table lacks an entry.
    pub open spec fn extracted(self, g: int, required: Seq<SortKey>) -> Option<PhysicalPlanView>
        decreases self.groups[g].rank, required.len(), 1nat,
    {
        if !self.has_group(g) || !self.has_winner(g, required) {
            None
        } else {
            let w = self.winner(g, required);
            if w.expr >= self.groups[g].physical.len() {
                None
            } else {
                let p = self.groups[g].physical[w.expr as int];
                let inputs = self.extracted_inputs(g, required);
                if !(p.op is Physical) || w.inputs.len() != p.children.len() || exists|i: int|
                    0 <= i < inputs.len() && #[trigger] inputs[i] is None {
                    None
                } else {
                    Some(PhysicalPlanView { op: p.op->Physical_0, inputs: all_plans(inputs) })
                }
            }
        }
    }

    /// The best plans of the inputs of the winning expression of group
    /// `g` under `required`.
    pub open spec fn extracted_inputs(self, g: int, required: Seq<SortKey>) -> Seq<Option<PhysicalPlanView>>
        decreases self.groups[g].rank, required.len(), 0nat,
    {
        let w = self.winner(g, required);
        let p = self.groups[g].physical[w.expr as int];
        Seq::new(
            p.children.len(),
            |i: int|
                if self.descends(g, required, p.children[i] as int, w.inputs[i]) {
                    self.extracted(p.children[i] as int, w.inputs[i])
                } else {
                    None
                },
        )
    }

    /// The cost of the best plan of group `g` under `required`: that of
    /// the winning operator over the costs of the best plans of its inputs.
    pub open spec fn extracted_cost(self, g: int, required: Seq<SortKey>) -> Cost
        decreases self.groups[g].rank, required.len(), 1nat,
    {
        let w = self.winner(g, required);
        let p = self.groups[g].physical[w.expr as int];
        cost_spec(p.op->Physical_0, self.extracted_costs(g, required), self.groups[g].stats->0.row_count)
    }

    /// The costs of the best plans of the inputs of the winning
    /// expression of group `g` under `required`.
    pub open spec fn extracted_costs(self, g: int, required: Seq<SortKey>) -> Seq<Cost>
        decreases self.groups[g].rank, required.len(), 0nat,
    {
        let w = self.winner(g, required);
        let p = self.groups[g].physical[w.expr as int];
        Seq::new(
            p.children.len(),
            |i: int|
                if self.descends(g, required, p.children[i] as int, w.inputs[i]) {
                    self.extracted_cost(p.children[i] as int, w.inputs[i])
                } else {
                    Cost { value: 0 }
                },
        )
    }
}

/// The entry for a requirement in a table is an entry of the table, and
/// stands under that requirement.
pub proof fn lemma_winner_is_entry(m: MemoView, g: int, required: Seq<SortKey>)
    requires
        m.has_winner(g, required),
    ensures
        m.groups[g].winners.contains(m.winner(g, required)),
        m.winner(g, required).required == required,
        m.regular() && m.has_group(g) ==> m.winner_ok(g, m.winner(g, required)),
{
    let ws = m.groups[g].winners;
    winner_keys(ws).index_of_first_ensures(required);
    let i = winner_keys(ws).index_of_first(required).unwrap();
    assert(ws[i] == m.winner(g, required));
    if m.regular() && m.has_group(g) {
        assert(m.group_ok(g));
    }
}

/// In a memo that keeps its rules, the inputs of a winning expression lie
/// below it in the search.
pub proof fn lemma_winner_descends(m: MemoView, g: int, required: Seq<SortKey>, i: int)
    requires
        m.regular(),
        m.has_group(g),
        m.has_winner(g, required),
        0 <= i < m.groups[g].physical[m.winner(g, required).expr as int].children.len(),
    ensures
        ({
            let w = m.winner(g, required);
            let p = m.groups[g].physical[w.expr as int];
            &&& m.descends(g, required, p.children[i] as int, w.inputs[i])
            &&& m.has_group(p.children[i] as int)
            &&& m.has_winner(p.children[i] as int, w.inputs[i])
            &&& m.is_closed(p.children[i] as int, w.inputs[i])
        }),
{
    lemma_winner_is_entry(m, g, required);
    let w = m.winner(g, required);
    let p = m.groups[g].physical[w.expr as int];
    assert(m.group_ok(g));
    assert(m.physical_ok(g, p));
    if p.enforcer {
        assert(p.children.len() == 1);
    } else {
        assert(m.child_ok(g, p.children[i]));
    }
}

/// In a memo that keeps its rules, every entry of a best-plan table
/// stands for a plan: the best plan under its requirement exists, has at
/// every node as many inputs as the node's operator, delivers what the
/// entry records, which meets the requirement, and costs what the entry
/// records.
pub proof fn lemma_winner_sound(m: MemoView, g: int, required: Seq<SortKey>)
    requires
        m.regular(),
        m.has_group(g),
        m.has_winner(g, required),
    ensures
        m.extracted(g, required) is Some,
        plan_arity_ok(m.extracted(g, required)->0),
        plan_delivered(m.extracted(g, required)->0) == m.winner(g, required).delivered,
        satisfies_spec(plan_delivered(m.extracted(g, required)->0), required),
        m.extracted_cost(g, required) == m.winner(g, required).cost,
    decreases m.groups[g].rank, required.len(),
{
    lemma_winner_is_entry(m, g, required);
    let w = m.winner(g, required);
    let p = m.groups[g].physical[w.expr as int];
    assert(m.group_ok(g));
    assert(m.physical_ok(g, p));
    let inputs = m.extracted_inputs(g, required);
    let costs = m.extracted_costs(g, required);
    assert forall|i: int| 0 <= i < p.children.len() implies {
        &&& (#[trigger] inputs[i]) is Some
        &&& plan_arity_ok(inputs[i]->0)
        &&& plan_delivered(inputs[i]->0) == m.winner(p.children[i] as int, w.inputs[i]).delivered
        &&& costs[i] == m.winner(p.children[i] as int, w.inputs[i]).cost
    } by {
        lemma_winner_descends(m, g, required, i);
        lemma_winner_sound(m, p.children[i] as int, w.inputs[i]);
    }
    let plan = m.extracted(g, required)->0;
    assert(plan.inputs =~= all_plans(inputs));
    let below = Seq::new(
        plan.inputs.len(),
        |i: int|
            if 0 <= i < plan.inputs.len() {
                plan_delivered(plan.inputs[i])
            } else {
                Seq::empty()
            },
    );
    assert(below =~= m.input_delivered(p, w.inputs));
    assert(costs =~= m.input_costs(p, w.inputs));
}

impl Memo {
    /// The best plan of `group` under `required`.
    pub fn extract(&self, group: usize, required: &PhysicalProperties) -> (r: Option<PhysicalPlan>)
        requires
            self.wf(),
        ensures
            match r {
                Some(plan) => self@.extracted(group as int, required@) == Some(plan@),
                None => self@.extracted(group as int, required@) is None,
            },
            r is Some <==> self@.has_group(group as int) && self@.has_winner(group as int, required@),
        decreases self@.groups[group as int].rank, required@.len(),
    {
        let ghost g = group as int;
        let w = match self.lookup(group, required) {
            Some(w) => w,
            None => {
                return None;
            },
        };
        proof {
            lemma_winner_is_entry(self@, g, required@);
            lemma_winner_sound(self@, g, required@);
            assert(self@.group_ok(g));
        }
        let p = &self.groups[group].physical[w.expr];
        assert(p@ == self@.groups[g].physical[w@.expr as int]);
        assert(self@.physical_ok(g, p@));
        let ghost want = self@.extracted_inputs(g, required@);
        let mut inputs: Vec<PhysicalPlan> = Vec::new();
        let mut i: usize = 0;
        while i < p.children.len()
            invariant
                i <= p.children.len(),
                self.wf(),
                self@.has_group(g),
                g == group as int,
                self@.has_winner(g, required@),
                w@ == self@.winner(g, required@),
                p@ == self@.groups[g].physical[w@.expr as int],
                w.input_required.len() == p.children.len(),
                want == self@.extracted_inputs(g, required@),
                inputs@.len() == i,
                forall|j: int| 0 <= j < i ==> want[j] == Some((#[trigger] inputs@[j])@),
            decreases p.children.len() - i,
        {
            proof {
                lemma_winner_descends(self@, g, required@, i as int);
                assert(w@.inputs[i as int] == w.input_required@[i as int]@);
            }
            match self.extract(p.children[i], &w.input_required[i]) {
                Some(plan) => {
                    inputs.push(plan);
                },
                None => {
                    proof {
                        lemma_winner_descends(self@, g, required@, i as int);
                    }
                    return None;
                },
            }
            i += 1;
        }
        proof {
            assert(physical_views(inputs@) =~= all_plans(want));
        }
        Some(PhysicalPlan::new(p.op.physical_op().clone(), inputs))
    }

    /// The best plan of the whole plan under `required`. There is none
    /// where the memo holds no plan, or the table of the root has no entry
    /// for `required`.
    pub fn extract_best_plan(&self, required: &PhysicalProperties) -> (r: Result<PhysicalPlan, OptimizerError>)
        requires
            self.wf(),
        ensures
            match r {
                Ok(plan) => {
                    &&& self@.root is Some
                    &&& self@.extracted(self@.root->0 as int, required@) == Some(plan@)
                    &&& plan_arity_ok(plan@)
                    &&& satisfies_spec(plan_delivered(plan@), required@)
                },
                Err(e) => {
                    &&& e == OptimizerError::NoPlan
                    &&& self@.root is None || !self@.has_winner(self@.root->0 as int, required@)
                },
            },
    {
        let root = match self.root {
            Some(root) => root,
            None => {
                return Err(OptimizerError::NoPlan);
            },
        };
        match self.extract(root, required) {
            Some(plan) => {
                proof {
                    lemma_winner_sound(self@, root as int, required@);
                }
                Ok(plan)
            },
            None => Err(OptimizerError::NoPlan),
        }
    }
}

/// Installing an entry in a best-plan table puts in an entry for a
/// requirement that had none, or a cheaper one in the place of the entry
/// for its requirement; the entries for the other requirements stay.
pub proof fn lemma_update_monotone(m: MemoView, g: int, w: WinnerView, r: Seq<SortKey>)
    requires
        m.regular(),
        m.admits_winner(g, w),
        m.improves(g, w),
    ensures
        ({
            let after = m.with_group(g, m.group_with_winner(g, w));
            &&& after.has_winner(g, w.required)
            &&& after.winner(g, w.required) == w
            &&& m.has_winner(g, w.required) ==> w.cost.value < m.winner(g, w.required).cost.value
            &&& r != w.required ==> after.has_winner(g, r) == m.has_winner(g, r)
            &&& r != w.required && m.has_winner(g, r) ==> after.winner(g, r) == m.winner(g, r)
        }),
{
    assert(m.group_ok(g));
    lemma_table_change(m, g, w, r);
}

/// In a memo that keeps its rules, no rule was applied twice in a group.
pub proof fn lemma_rule_applied_once(m: MemoView, g: int, i: int, j: int)
    requires
        m.regular(),
        m.has_group(g),
        0 <= i < m.groups[g].fired.len(),
        0 <= j < m.groups[g].fired.len(),
        m.groups[g].fired[i] == m.groups[g].fired[j],
    ensures
        i == j,
{
    assert(m.group_ok(g));
}

/// Where no group is the first to hold an expression, no group holds it.
pub proof fn lemma_absent_everywhere(m: MemoView, e: ExprNode)
    requires
        m.holder(e) is None,
    ensures
        forall|g: int| 0 <= g < m.groups.len() ==> !group_holds(#[trigger] m.groups[g], e),
{
    m.holders(e).index_of_first_ensures(true);
    assert forall|g: int| 0 <= g < m.groups.len() implies !group_holds(#[trigger] m.groups[g], e) by {
        if group_holds(m.groups[g], e) {
            assert(m.holders(e)[g] == true);
        }
    }
}

/// A memo in which no expression stands at two places stays so when an
/// expression that no group holds comes into a group.
pub proof fn lemma_distinct_after_expr(a: MemoView, b: MemoView, g: int, e: ExprNode)
    requires
        a.distinct(),
        a.has_group(g),
        a.holder(e) is None,
        b == a.with_group(g, a.group_with_expr(g, e)),
    ensures
        b.distinct(),
{
    lemma_absent_everywhere(a, e);
    assert forall|g1: int, i: int, h: int, j: int|
        0 <= g1 < b.groups.len() && 0 <= i < b.groups[g1].logical.len() && 0 <= h < b.groups.len() && 0 <= j
            < b.groups[h].logical.len() && (g1 != h || i != j) implies #[trigger] b.groups[g1].logical[i]
        != #[trigger] b.groups[h].logical[j] by {
        let x = b.groups[g1].logical[i];
        let y = b.groups[h].logical[j];
        let old_x = i < a.groups[g1].logical.len();
        let old_y = j < a.groups[h].logical.len();
        if old_x {
            assert(a.groups[g1].logical[i] == x);
        }
        if old_y {
            assert(a.groups[h].logical[j] == y);
        }
        if old_x && !old_y {
            assert(y == e);
            assert(!group_holds(a.groups[g1], e));
        }
        if !old_x && old_y {
            assert(x == e);
            assert(!group_holds(a.groups[h], e));
        }
    }
    assert forall|g1: int, i: int, h: int, j: int|
        0 <= g1 < b.groups.len() && 0 <= i < b.groups[g1].physical.len() && 0 <= h < b.groups.len() && 0
            <= j < b.groups[h].physical.len() && (g1 != h || i != j) implies #[trigger] b.groups[g1].physical[i]
        != #[trigger] b.groups[h].physical[j] by {
        let x = b.groups[g1].physical[i];
        let y = b.groups[h].physical[j];
        let old_x = i < a.groups[g1].physical.len();
        let old_y = j < a.groups[h].physical.len();
        if old_x {
            assert(a.groups[g1].physical[i] == x);
        }
        if old_y {
            assert(a.groups[h].physical[j] == y);
        }
        if old_x && !old_y {
            assert(y == e);
            assert(!group_holds(a.groups[g1], e));
        }
        if !old_x && old_y {
            assert(x == e);
            assert(!group_holds(a.groups[h], e));
        }
    }
}

/// A memo in which no expression stands at two places stays so when an
/// expression that no group holds founds a group.
pub proof fn lemma_distinct_after_group(a: MemoView, b: MemoView, e: ExprNode, required: Seq<Seq<SortKey>>)
    requires
        a.distinct(),
        a.holder(e) is None,
        b == (MemoView { groups: a.groups.push(a.founded(e, required)), root: a.root }),
    ensures
        b.distinct(),
{
    lemma_absent_everywhere(a, e);
    let n = a.groups.len() as int;
    assert forall|g1: int, i: int, h: int, j: int|
        0 <= g1 < b.groups.len() && 0 <= i < b.groups[g1].logical.len() && 0 <= h < b.groups.len() && 0 <= j
            < b.groups[h].logical.len() && (g1 != h || i != j) implies #[trigger] b.groups[g1].logical[i]
        != #[trigger] b.groups[h].logical[j] by {
        if g1 < n && h == n {
            assert(b.groups[h].logical[j] == e);
            assert(!group_holds(a.groups[g1], e));
            assert(a.groups[g1].logical[i] == b.groups[g1].logical[i]);
        }
        if g1 == n && h < n {
            assert(b.groups[g1].logical[i] == e);
            assert(!group_holds(a.groups[h], e));
            assert(a.groups[h].logical[j] == b.groups[h].logical[j]);
        }
        if g1 < n && h < n {
            assert(a.groups[g1].logical[i] == b.groups[g1].logical[i]);
            assert(a.groups[h].logical[j] == b.groups[h].logical[j]);
        }
    }
    assert forall|g1: int, i: int, h: int, j: int|
        0 <= g1 < b.groups.len() && 0 <= i < b.groups[g1].physical.len() && 0 <= h < b.groups.len() && 0
            <= j < b.groups[h].physical.len() && (g1 != h || i != j) implies #[trigger] b.groups[g1].physical[i]
        != #[trigger] b.groups[h].physical[j] by {
        assert(g1 < n && h < n);
        assert(a.groups[g1].physical[i] == b.groups[g1].physical[i]);
        assert(a.groups[h].physical[j] == b.groups[h].physical[j]);
    }
}

/// A memo in which no expression stands at two places stays so when an
/// enforcer that its group does not hold comes into the group.
pub proof fn lemma_distinct_after_enforcer(a: MemoView, b: MemoView, g: int, required: Seq<SortKey>)
    requires
        a.regular(),
        a.distinct(),
        a.has_group(g),
        g <= usize::MAX,
        !a.groups[g].physical.contains(MemoView::enforcer_of(g, required)),
        b == a.with_group(
            g,
            GroupView {
                physical: a.groups[g].physical.push(MemoView::enforcer_of(g, required)),
                ..a.groups[g]
            },
        ),
    ensures
        b.distinct(),
{
    let e = MemoView::enforcer_of(g, required);
    assert forall|h: int, j: int|
        0 <= h < a.groups.len() && 0 <= j < a.groups[h].physical.len() implies #[trigger] a.groups[h].physical[j]
        != e by {
        let y = a.groups[h].physical[j];
        assert(a.group_ok(h));
        assert(a.physical_ok(h, y));
        if y == e {
            assert(y.children[0] == h);
            assert(e.children[0] == g);
            assert(a.groups[g].physical.contains(e));
        }
    }
    assert forall|g1: int, i: int, h: int, j: int|
        0 <= g1 < b.groups.len() && 0 <= i < b.groups[g1].physical.len() && 0 <= h < b.groups.len() && 0
            <= j < b.groups[h].physical.len() && (g1 != h || i != j) implies #[trigger] b.groups[g1].physical[i]
        != #[trigger] b.groups[h].physical[j] by {
        let old_x = i < a.groups[g1].physical.len();
        let old_y = j < a.groups[h].physical.len();
        if old_x {
            assert(a.groups[g1].physical[i] == b.groups[g1].physical[i]);
        }
        if old_y {
            assert(a.groups[h].physical[j] == b.groups[h].physical[j]);
        }
    }
    assert forall|g1: int, i: int, h: int, j: int|
        0 <= g1 < b.groups.len() && 0 <= i < b.groups[g1].logical.len() && 0 <= h < b.groups.len() && 0 <= j
            < b.groups[h].logical.len() && (g1 != h || i != j) implies #[trigger] b.groups[g1].logical[i]
        != #[trigger] b.groups[h].logical[j] by {
        assert(a.groups[g1].logical[i] == b.groups[g1].logical[i]);
        assert(a.groups[h].logical[j] == b.groups[h].logical[j]);
    }
}

/// In a memo that keeps its rules, a logical expression stands at one
/// place only, and so does a physical one.
pub proof fn lemma_expression_stands_once(m: MemoView, g: int, i: int, h: int, j: int)
    requires
        m.wf(),
        m.has_group(g),
        m.has_group(h),
    ensures
        0 <= i < m.groups[g].logical.len() && 0 <= j < m.groups[h].logical.len() && m.groups[g].logical[i]
            == m.groups[h].logical[j] ==> g == h && i == j,
        0 <= i < m.groups[g].physical.len() && 0 <= j < m.groups[h].physical.len()
            && m.groups[g].physical[i] == m.groups[h].physical[j] ==> g == h && i == j,
{
}

/// A memo in which no expression stands at two places stays so while its
/// groups hold the expressions that they held.
pub proof fn lemma_distinct_same_exprs(a: MemoView, b: MemoView)
    requires
        a.distinct(),
        b.groups.len() == a.groups.len(),
        forall|g: int|
            0 <= g < a.groups.len() ==> (#[trigger] b.groups[g]).logical == a.groups[g].logical
                && b.groups[g].physical == a.groups[g].physical,
    ensures
        b.distinct(),
{
    assert forall|g1: int, i: int, h: int, j: int|
        0 <= g1 < b.groups.len() && 0 <= i < b.groups[g1].logical.len() && 0 <= h < b.groups.len() && 0 <= j
            < b.groups[h].logical.len() && (g1 != h || i != j) implies #[trigger] b.groups[g1].logical[i]
        != #[trigger] b.groups[h].logical[j] by {
        assert(a.groups[g1].logical[i] == b.groups[g1].logical[i]);
        assert(a.groups[h].logical[j] == b.groups[h].logical[j]);
    }
    assert forall|g1: int, i: int, h: int, j: int|
        0 <= g1 < b.groups.len() && 0 <= i < b.groups[g1].physical.len() && 0 <= h < b.groups.len() && 0
            <= j < b.groups[h].physical.len() && (g1 != h || i != j) implies #[trigger] b.groups[g1].physical[i]
        != #[trigger] b.groups[h].physical[j] by {
        assert(a.groups[g1].physical[i] == b.groups[g1].physical[i]);
        assert(a.groups[h].physical[j] == b.groups[h].physical[j]);
    }
}

} // verus!
