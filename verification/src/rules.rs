//! The catalog of rules.

use vstd::prelude::*;
use crate::column_set::ColumnRefSet;
use crate::expression::{
    column_ids, column_set, conjuncts_spec, used_columns, views_of, ExprView, ScalarExpr,
};
use crate::metadata::{IndexInfo, IndexMd, MdAccessor, Metadata};
use crate::operator::catalog::{LogicalOp, Operator, PhysicalOp};
use crate::operator::logical_filter::LogicalFilter;
use crate::operator::logical_index_scan::LogicalIndexScan;
use crate::operator::logical_project::copy_exprs;
use crate::operator::logical_scan::{copy_columns, LogicalScan};
use crate::operator::physical_filter::PhysicalFilter;
use crate::operator::physical_index_scan::PhysicalIndexScan;
use crate::operator::physical_project::PhysicalProject;
use crate::operator::physical_scan::PhysicalScan;
use crate::operator::{
    IndexDescView, IndexScanView, LogicalOpView, OperatorId, OperatorView, PhysicalOpView, ScanView,
};
use crate::plan::{plan_views, Plan, PlanView};
use crate::rule::{Pattern, PatternView, RuleKind};

verus! {

/// A rule of the catalog.
#[derive(Clone, Copy, Debug, PartialEq, Eq, Structural)]
pub enum Rule {
    /// A filter over a scan becomes a scan through an index whose key
    /// covers conjuncts of the predicate, under a filter by the others.
    FilterToIndexScan,
    /// A logical index scan becomes a physical one.
    ImplementIndexScan,
    /// A logical scan becomes a physical one.
    ImplementScan,
    /// A logical filter becomes a physical one.
    ImplementFilter,
    /// A logical projection becomes a physical one.
    ImplementProject,
}

/// The number by which a memo remembers that a rule was applied.
pub open spec fn rule_id_spec(rule: Rule) -> usize {
    match rule {
        Rule::FilterToIndexScan => 0,
        Rule::ImplementIndexScan => 1,
        Rule::ImplementScan => 2,
        Rule::ImplementFilter => 3,
        Rule::ImplementProject => 4,
    }
}

/// What a rule makes.
pub open spec fn rule_kind_spec(rule: Rule) -> RuleKind {
    match rule {
        Rule::FilterToIndexScan => RuleKind::Exploration,
        _ => RuleKind::Implementation,
    }
}

/// The pattern of a rule.
pub open spec fn pattern_spec(rule: Rule) -> PatternView {
    match rule {
        Rule::FilterToIndexScan => PatternView::Node(
            OperatorId::LogicalFilter,
            seq![PatternView::Node(OperatorId::LogicalScan, Seq::empty())],
        ),
        Rule::ImplementIndexScan => PatternView::Node(OperatorId::LogicalIndexScan, Seq::empty()),
        Rule::ImplementScan => PatternView::Node(OperatorId::LogicalScan, Seq::empty()),
        Rule::ImplementFilter => PatternView::Node(OperatorId::LogicalFilter, seq![PatternView::Any]),
        Rule::ImplementProject => PatternView::Node(OperatorId::LogicalProject, seq![PatternView::Any]),
    }
}

/// Whether every plan of `plans` stands for a group.
pub open spec fn all_groups(plans: Seq<PlanView>) -> bool {
    forall|i: int| 0 <= i < plans.len() ==> #[trigger] plans[i] is Group
}

/// What the implementation rule `rule` makes of what it matched: the
/// physical operator with the parameters of the logical one, over the
/// same groups; nothing where the operator is not the rule's, an input is
/// no group, or a filter's predicate yields no truth value.
pub open spec fn implemented(rule: Rule, binding: PlanView) -> Seq<PlanView> {
    match binding {
        PlanView::Node(OperatorView::Logical(op), inputs, _, _) => {
            if !all_groups(inputs) {
                Seq::empty()
            } else {
                match (rule, op) {
                    (Rule::ImplementScan, LogicalOpView::Scan(s)) => seq![
                        PlanView::Node(
                            OperatorView::Physical(PhysicalOpView::Scan(s)),
                            inputs,
                            Seq::empty(),
                            None,
                        ),
                    ],
                    (Rule::ImplementFilter, LogicalOpView::Filter(p)) => if p is Column {
                        Seq::empty()
                    } else {
                        seq![
                            PlanView::Node(
                                OperatorView::Physical(PhysicalOpView::Filter(p)),
                                inputs,
                                Seq::empty(),
                            None,
                            ),
                        ]
                    },
                    (Rule::ImplementProject, LogicalOpView::Project(p)) => seq![
                        PlanView::Node(
                            OperatorView::Physical(PhysicalOpView::Project(p)),
                            inputs,
                            Seq::empty(),
                            None,
                        ),
                    ],
                    (Rule::ImplementIndexScan, LogicalOpView::IndexScan(s)) => seq![
                        PlanView::Node(
                            OperatorView::Physical(PhysicalOpView::IndexScan(s)),
                            inputs,
                            Seq::empty(),
                            None,
                        ),
                    ],
                    _ => Seq::empty(),
                }
            }
        },
        _ => Seq::empty(),
    }
}

/// Those of the first `n` of `conjuncts` that read only columns of `keys`,
/// if `covered`, and else those that read another column; in their order.
pub open spec fn kept(conjuncts: Seq<ExprView>, keys: Set<nat>, covered: bool, n: nat) -> Seq<ExprView>
    decreases n,
{
    if n == 0 || n > conjuncts.len() {
        Seq::empty()
    } else {
        let rest = kept(conjuncts, keys, covered, (n - 1) as nat);
        if used_columns(conjuncts[n - 1]).subset_of(keys) == covered {
            rest.push(conjuncts[n - 1])
        } else {
            rest
        }
    }
}

/// The description of an index, as an operator holds it.
pub open spec fn desc_of(index: IndexMd) -> IndexDescView {
    IndexDescView {
        mdid: index.mdid,
        name: index.index_name@,
        index_type: index.index_type,
        key_columns: index.key_columns@,
        included_columns: index.included_columns@,
    }
}

/// What a filter by `predicate` over the scan `scan` becomes with the
/// index `index`: nothing unless the index holds every column that the
/// scan yields and its key covers a conjunct. Else the scan through the
/// index with the covered conjuncts, under a filter by the others if
/// there are any.
pub open spec fn index_plan(predicate: ExprView, scan: ScanView, index: IndexMd) -> Seq<PlanView> {
    let keys = column_ids(index.key_columns@, index.key_columns@.len());
    let included = column_ids(index.included_columns@, index.included_columns@.len());
    let yielded = column_ids(scan.output_columns, scan.output_columns.len());
    let conjuncts = conjuncts_spec(predicate);
    let covered = kept(conjuncts, keys, true, conjuncts.len());
    let others = kept(conjuncts, keys, false, conjuncts.len());
    if !yielded.subset_of(included) || covered.len() == 0 {
        Seq::empty()
    } else {
        let through = PlanView::Node(
            OperatorView::Logical(
                LogicalOpView::IndexScan(
                    IndexScanView {
                        index: desc_of(index),
                        table: scan.table,
                        output_columns: scan.output_columns,
                        predicate: ExprView::And(covered),
                    },
                ),
            ),
            Seq::empty(),
            Seq::empty(),
            None,
        );
        if others.len() == 0 {
            seq![through]
        } else {
            seq![
                PlanView::Node(
                    OperatorView::Logical(LogicalOpView::Filter(ExprView::And(others))),
                    seq![through],
                    Seq::empty(),
                    None,
                ),
            ]
        }
    }
}

/// What a filter over a scan becomes with the first `n` of the indexes
/// `infos`, in their order.
pub open spec fn index_plans(md: MdAccessor, predicate: ExprView, scan: ScanView, infos: Seq<IndexInfo>, n: nat) -> Seq<PlanView>
    decreases n,
{
    if n == 0 || n > infos.len() {
        Seq::empty()
    } else {
        let rest = index_plans(md, predicate, scan, infos, (n - 1) as nat);
        match md.retrieve_spec(infos[n - 1].mdid) {
            Some(Metadata::Index(index)) => rest + index_plan(predicate, scan, index),
            _ => rest,
        }
    }
}

/// What the rule for index scans makes of what it matched: for a filter
/// over a scan of a relation that the metadata describes, what the filter
/// becomes with each index of the relation.
pub open spec fn index_scans(binding: PlanView, md: MdAccessor) -> Seq<PlanView> {
    match binding {
        PlanView::Node(OperatorView::Logical(LogicalOpView::Filter(predicate)), inputs, _, _) => {
            if inputs.len() != 1 {
                Seq::empty()
            } else {
                match inputs[0] {
                    PlanView::Node(OperatorView::Logical(LogicalOpView::Scan(scan)), below, _, _) => {
                        if below.len() != 0 {
                            Seq::empty()
                        } else {
                            match md.retrieve_spec(scan.table) {
                                Some(Metadata::Relation(relation)) => index_plans(
                                    md,
                                    predicate,
                                    scan,
                                    relation.indexes@,
                                    relation.indexes@.len(),
                                ),
                                _ => Seq::empty(),
                            }
                        }
                    },
                    _ => Seq::empty(),
                }
            }
        },
        _ => Seq::empty(),
    }
}

/// What a rule makes of what it matched.
pub open spec fn transform_spec(rule: Rule, binding: PlanView, md: MdAccessor) -> Seq<PlanView> {
    match rule {
        Rule::FilterToIndexScan => index_scans(binding, md),
        _ => implemented(rule, binding),
    }
}

/// A copy of `plans`, where each of them stands for a group.
fn copy_groups(plans: &Vec<Plan>) -> (r: Option<Vec<Plan>>)
    ensures
        match r {
            Some(copy) => all_groups(plan_views(plans@)) && plan_views(copy@) == plan_views(plans@),
            None => !all_groups(plan_views(plans@)),
        },
{
    let mut out: Vec<Plan> = Vec::new();
    let mut i: usize = 0;
    while i < plans.len()
        invariant
            i <= plans.len(),
            out@.len() == i,
            forall|j: int| 0 <= j < i ==> (#[trigger] plans@[j])@ is Group && out@[j]@ == plans@[j]@,
        decreases plans.len() - i,
    {
        match &plans[i] {
            Plan::Group(g) => {
                out.push(Plan::group(*g));
            },
            _ => {
                assert(!(plan_views(plans@)[i as int] is Group));
                return None;
            },
        }
        i += 1;
    }
    assert(plan_views(out@) =~= plan_views(plans@));
    assert forall|j: int| 0 <= j < plans@.len() implies #[trigger] plan_views(plans@)[j] is Group by {
        assert(plans@[j]@ is Group);
    }
    Some(out)
}

/// The plan of `op` over `inputs`, as the one plan that a rule makes.
fn one_plan(op: Operator, inputs: Vec<Plan>) -> (r: Vec<Plan>)
    ensures
        plan_views(r@) == seq![PlanView::Node(op@, plan_views(inputs@), Seq::empty(), None)],
{
    let mut out: Vec<Plan> = Vec::new();
    out.push(Plan::new(op, inputs, None));
    assert(plan_views(out@) =~= seq![PlanView::Node(op@, plan_views(inputs@), Seq::empty(), None)]);
    out
}

/// No plan.
fn no_plan() -> (r: Vec<Plan>)
    ensures
        plan_views(r@) == Seq::<PlanView>::empty(),
{
    let out: Vec<Plan> = Vec::new();
    assert(plan_views(out@) =~= Seq::<PlanView>::empty());
    out
}

/// What the implementation rule `rule` makes of what it matched.
fn implement(rule: Rule, binding: &Plan) -> (r: Vec<Plan>)
    ensures
        plan_views(r@) == implemented(rule, binding@),
{
    match binding {
        Plan::Node(Operator::Logical(op), inputs, _, _) => {
            assert(binding@->Node_1 =~= plan_views(inputs@));
            let groups = match copy_groups(inputs) {
                Some(groups) => groups,
                None => {
                    return no_plan();
                },
            };
            match (rule, op) {
                (Rule::ImplementScan, LogicalOp::Scan(s)) => one_plan(
                    Operator::Physical(
                        PhysicalOp::Scan(PhysicalScan::new(*s.table_desc(), copy_columns(s.output_columns()))),
                    ),
                    groups,
                ),
                (Rule::ImplementFilter, LogicalOp::Filter(f)) => {
                    if !f.predicate().is_boolean_expression() {
                        return no_plan();
                    }
                    one_plan(
                        Operator::Physical(PhysicalOp::Filter(PhysicalFilter::new(f.predicate().clone()))),
                        groups,
                    )
                },
                (Rule::ImplementProject, LogicalOp::Project(p)) => one_plan(
                    Operator::Physical(PhysicalOp::Project(PhysicalProject::new(copy_exprs(p.project())))),
                    groups,
                ),
                (Rule::ImplementIndexScan, LogicalOp::IndexScan(s)) => one_plan(
                    Operator::Physical(
                        PhysicalOp::IndexScan(
                            PhysicalIndexScan::new(
                                s.index_desc().clone(),
                                *s.table_desc(),
                                copy_columns(s.output_columns()),
                                s.predicate().clone(),
                            ),
                        ),
                    ),
                    groups,
                ),
                _ => no_plan(),
            }
        },
        _ => no_plan(),
    }
}

/// The conjuncts of `predicate` that read only columns of `keys`, if
/// `covered`, and else those that read another column.
fn keep(predicate: &ScalarExpr, keys: &ColumnRefSet, covered: bool) -> (r: Vec<ScalarExpr>)
    ensures
        views_of(r@) == kept(conjuncts_spec(predicate@), keys@, covered, conjuncts_spec(predicate@).len()),
{
    let ghost conjuncts = conjuncts_spec(predicate@);
    let mut out: Vec<ScalarExpr> = Vec::new();
    let n = predicate.conjunct_count();
    let mut i: usize = 0;
    assert(views_of(out@) =~= kept(conjuncts, keys@, covered, 0));
    while i < n
        invariant
            i <= n,
            n == conjuncts.len(),
            conjuncts == conjuncts_spec(predicate@),
            views_of(out@) == kept(conjuncts, keys@, covered, i as nat),
        decreases n - i,
    {
        let c = predicate.conjunct(i);
        let mut read = ColumnRefSet::new();
        c.derive_used_columns(&mut read);
        assert(read@ =~= used_columns(c@));
        if keys.is_superset(&read) == covered {
            let ghost before = views_of(out@);
            out.push(c.clone());
            assert(views_of(out@) =~= before.push(c@));
        }
        i += 1;
    }
    out
}

/// What a filter by `predicate` over `scan` becomes with `index`.
fn plan_with_index(predicate: &ScalarExpr, scan: &LogicalScan, index: &IndexMd) -> (r: Vec<Plan>)
    ensures
        plan_views(r@) == index_plan(predicate@, scan@, *index),
{
    let keys = column_set(index.key_columns());
    let included = column_set(index.included_columns());
    let yielded = column_set(scan.output_columns());
    let covered = keep(predicate, &keys, true);
    let others = keep(predicate, &keys, false);
    if !included.is_superset(&yielded) || covered.len() == 0 {
        return no_plan();
    }
    let through = Plan::new(
        Operator::Logical(
            LogicalOp::IndexScan(
                LogicalIndexScan::new(
                    *scan.table_desc(),
                    index,
                    copy_columns(scan.output_columns()),
                    ScalarExpr::and(covered),
                ),
            ),
        ),
        Vec::new(),
        None,
    );
    assert(through@->Node_1 =~= Seq::<PlanView>::empty());
    if others.len() == 0 {
        let mut out: Vec<Plan> = Vec::new();
        out.push(through);
        assert(plan_views(out@) =~= index_plan(predicate@, scan@, *index));
        out
    } else {
        let mut inputs: Vec<Plan> = Vec::new();
        inputs.push(through);
        assert(plan_views(inputs@) =~= seq![through@]);
        one_plan(Operator::Logical(LogicalOp::Filter(LogicalFilter::new(ScalarExpr::and(others)))), inputs)
    }
}

/// What the rule for index scans makes of what it matched.
fn index_scan_plans(binding: &Plan, md_accessor: &MdAccessor) -> (r: Vec<Plan>)
    ensures
        plan_views(r@) == index_scans(binding@, *md_accessor),
{
    let (filter, inputs) = match binding {
        Plan::Node(Operator::Logical(LogicalOp::Filter(filter)), inputs, _, _) => (filter, inputs),
        _ => {
            return no_plan();
        },
    };
    assert(binding@->Node_1 =~= plan_views(inputs@));
    if inputs.len() != 1 {
        return no_plan();
    }
    let scan = match &inputs[0] {
        Plan::Node(Operator::Logical(LogicalOp::Scan(scan)), below, _, _) => {
            assert(inputs@[0]@->Node_1 =~= plan_views(below@));
            if below.len() != 0 {
                return no_plan();
            }
            scan
        },
        _ => {
            return no_plan();
        },
    };
    let relation = match md_accessor.retrieve(scan.table_desc().mdid()) {
        Some(Metadata::Relation(relation)) => relation,
        _ => {
            return no_plan();
        },
    };
    let ghost infos = relation.indexes@;
    let mut out: Vec<Plan> = Vec::new();
    let mut i: usize = 0;
    assert(plan_views(out@) =~= index_plans(*md_accessor, filter@, scan@, infos, 0));
    while i < relation.indexes.len()
        invariant
            i <= relation.indexes.len(),
            infos == relation.indexes@,
            plan_views(out@) == index_plans(*md_accessor, filter@, scan@, infos, i as nat),
        decreases relation.indexes.len() - i,
    {
        match md_accessor.retrieve(relation.indexes[i].mdid) {
            Some(Metadata::Index(index)) => {
                let mut found = plan_with_index(filter.predicate(), scan, index);
                let ghost before = plan_views(out@);
                let ghost more = plan_views(found@);
                out.append(&mut found);
                assert(plan_views(out@) =~= before + more);
            },
            _ => {},
        }
        i += 1;
    }
    out
}

impl Rule {
    /// The number by which a memo remembers that the rule was applied.
    pub fn id(&self) -> (id: usize)
        ensures
            id == rule_id_spec(*self),
    {
        match self {
            Rule::FilterToIndexScan => 0,
            Rule::ImplementIndexScan => 1,
            Rule::ImplementScan => 2,
            Rule::ImplementFilter => 3,
            Rule::ImplementProject => 4,
        }
    }

    /// What the rule makes.
    pub fn kind(&self) -> (k: RuleKind)
        ensures
            k == rule_kind_spec(*self),
    {
        match self {
            Rule::FilterToIndexScan => RuleKind::Exploration,
            _ => RuleKind::Implementation,
        }
    }

    /// The pattern of what the rule applies to.
    pub fn pattern(&self) -> (p: Pattern)
        ensures
            p@ == pattern_spec(*self),
    {
        match self {
            Rule::FilterToIndexScan => Pattern::unary(
                OperatorId::LogicalFilter,
                Pattern::leaf(OperatorId::LogicalScan),
            ),
            Rule::ImplementIndexScan => Pattern::leaf(OperatorId::LogicalIndexScan),
            Rule::ImplementScan => Pattern::leaf(OperatorId::LogicalScan),
            Rule::ImplementFilter => Pattern::unary(OperatorId::LogicalFilter, Pattern::Any),
            Rule::ImplementProject => Pattern::unary(OperatorId::LogicalProject, Pattern::Any),
        }
    }

    /// What the rule makes of `binding`, which matched its pattern.
    pub fn transform(&self, binding: &Plan, md_accessor: &MdAccessor) -> (r: Vec<Plan>)
        ensures
            plan_views(r@) == transform_spec(*self, binding@, *md_accessor),
    {
        match self {
            Rule::FilterToIndexScan => index_scan_plans(binding, md_accessor),
            _ => implement(*self, binding),
        }
    }
}

/// The rules of a search, in the order in which they are tried.
#[derive(Debug)]
pub struct RuleSet {
    rules: Vec<Rule>,
}

impl View for RuleSet {
    type V = Seq<Rule>;

    closed spec fn view(&self) -> Seq<Rule> {
        self.rules@
    }
}

impl RuleSet {
    /// The set without rules.
    pub fn new() -> (s: Self)
        ensures
            s@ == Seq::<Rule>::empty(),
    {
        RuleSet { rules: Vec::new() }
    }

    /// Adds `rule` behind the rules of the set.
    pub fn push(&mut self, rule: Rule)
        ensures
            final(self)@ == old(self)@.push(rule),
    {
        self.rules.push(rule);
    }

    /// The number of rules.
    pub fn len(&self) -> (n: usize)
        ensures
            n == self@.len(),
    {
        self.rules.len()
    }

    /// The `i`-th rule.
    pub fn get(&self, i: usize) -> (r: Rule)
        requires
            i < self@.len(),
        ensures
            r == self@[i as int],
    {
        self.rules[i]
    }
}

/// The rules of the catalog: the exploration rule before the
/// implementation rules.
pub fn create_rule_set() -> (s: RuleSet)
    ensures
        s@ == seq![
            Rule::FilterToIndexScan,
            Rule::ImplementIndexScan,
            Rule::ImplementScan,
            Rule::ImplementFilter,
            Rule::ImplementProject,
        ],
{
    let mut s = RuleSet::new();
    s.push(Rule::FilterToIndexScan);
    s.push(Rule::ImplementIndexScan);
    s.push(Rule::ImplementScan);
    s.push(Rule::ImplementFilter);
    s.push(Rule::ImplementProject);
    assert(s@ =~= seq![
        Rule::FilterToIndexScan,
        Rule::ImplementIndexScan,
        Rule::ImplementScan,
        Rule::ImplementFilter,
        Rule::ImplementProject,
    ]);
    s
}

} // verus!
