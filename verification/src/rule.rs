//! Rules: patterns over expressions, and what matches them in a memo.

use vstd::prelude::*;
use crate::memo::{ExprNode, GroupExpr, Memo, MemoView};
use crate::operator::{operator_id_spec, OperatorId};
use crate::plan::{copy_plans, plan_views, Plan, PlanView};

verus! {

/// What a rule makes: logical expressions from logical ones, or physical
/// expressions from logical ones.
#[derive(Clone, Copy, Debug, PartialEq, Eq, Structural)]
pub enum RuleKind {
    Exploration,
    Implementation,
}

/// A pattern over expressions: a kind of operator over patterns for its
/// inputs, or the wildcard, which every group matches as a whole.
#[derive(Debug)]
pub enum Pattern {
    Any,
    Node(OperatorId, Vec<Pattern>),
}

/// What a pattern says.
pub ghost enum PatternView {
    Any,
    Node(OperatorId, Seq<PatternView>),
}

/// The view of a pattern.
pub open spec fn pattern_view(p: Pattern) -> PatternView
    decreases p,
{
    match p {
        Pattern::Any => PatternView::Any,
        Pattern::Node(id, inputs) => PatternView::Node(
            id,
            Seq::new(
                inputs@.len(),
                |i: int|
                    if 0 <= i < inputs@.len() {
                        pattern_view(inputs@[i])
                    } else {
                        PatternView::Any
                    },
            ),
        ),
    }
}

/// The views of a sequence of patterns, place by place.
pub open spec fn pattern_views(ps: Seq<Pattern>) -> Seq<PatternView> {
    Seq::new(ps.len(), |i: int| ps[i]@)
}

impl View for Pattern {
    type V = PatternView;

    open spec fn view(&self) -> PatternView {
        pattern_view(*self)
    }
}

impl Pattern {
    /// The pattern of an operator of kind `id` over `inputs`.
    pub fn node(id: OperatorId, inputs: Vec<Pattern>) -> (p: Self)
        ensures
            p@ == PatternView::Node(id, pattern_views(inputs@)),
    {
        let p = Pattern::Node(id, inputs);
        assert(p@->Node_1 =~= pattern_views(inputs@));
        p
    }

    /// The pattern of an operator of kind `id` without inputs.
    pub fn leaf(id: OperatorId) -> (p: Self)
        ensures
            p@ == PatternView::Node(id, Seq::empty()),
    {
        let p = Pattern::Node(id, Vec::new());
        assert(p@->Node_1 =~= Seq::<PatternView>::empty());
        p
    }

    /// The pattern of an operator of kind `id` over one input that matches `input`.
    pub fn unary(id: OperatorId, input: Pattern) -> (p: Self)
        ensures
            p@ == PatternView::Node(id, seq![input@]),
    {
        let mut inputs: Vec<Pattern> = Vec::new();
        inputs.push(input);
        let p = Pattern::Node(id, inputs);
        assert(p@->Node_1 =~= seq![input@]);
        p
    }
}

/// The plans that stand for the groups `children`, place by place.
pub open spec fn leaves_spec(children: Seq<usize>) -> Seq<PlanView> {
    Seq::new(children.len(), |i: int| PlanView::Group(children[i]))
}

/// The combination `combo` with each of the first `k` of `opts` behind it.
pub open spec fn with_each(combo: Seq<PlanView>, opts: Seq<PlanView>, k: nat) -> Seq<Seq<PlanView>>
    decreases k,
{
    if k == 0 || k > opts.len() {
        Seq::empty()
    } else {
        with_each(combo, opts, (k - 1) as nat).push(combo.push(opts[k - 1]))
    }
}

/// Each of the first `m` of `combos` with each of `opts` behind it: the
/// combinations of one come before those of the next.
pub open spec fn extended(combos: Seq<Seq<PlanView>>, opts: Seq<PlanView>, m: nat) -> Seq<Seq<PlanView>>
    decreases m,
{
    if m == 0 || m > combos.len() {
        Seq::empty()
    } else {
        extended(combos, opts, (m - 1) as nat) + with_each(combos[m - 1], opts, opts.len())
    }
}

/// The ways to pick one plan from each of the first `n` of `options`, the
/// picks from the first changing slowest.
pub open spec fn product(options: Seq<Seq<PlanView>>, n: nat) -> Seq<Seq<PlanView>>
    decreases n,
{
    if n == 0 || n > options.len() {
        seq![Seq::empty()]
    } else {
        let before = product(options, (n - 1) as nat);
        extended(before, options[n - 1], before.len())
    }
}

impl MemoView {
    /// What of the memo matches `pattern` at the expression `e` of group
    /// `g`: trees rooted at `e`, whose nodes carry their groups. Under the wildcard each input is its group as a
    /// whole; under a pattern for an input, each logical expression of the
    /// input's group that matches it; and the matches of several inputs
    /// are combined in every way.
    pub open spec fn bindings(self, pattern: PatternView, g: usize, e: ExprNode) -> Seq<PlanView>
        decreases pattern, 0nat,
    {
        match pattern {
            PatternView::Any => seq![PlanView::Node(e.op, leaves_spec(e.children), Seq::empty(), Some(g))],
            PatternView::Node(id, pats) => {
                if operator_id_spec(e.op) != id || pats.len() != e.children.len() || !self.has_groups(
                    e.children,
                ) {
                    Seq::empty()
                } else {
                    let combos = product(self.options(pats, e.children, pats.len()), pats.len());
                    Seq::new(combos.len(), |j: int| PlanView::Node(e.op, combos[j], Seq::empty(), Some(g)))
                }
            },
        }
    }

    /// For each of the first `k` inputs, what matches its pattern.
    pub open spec fn options(self, pats: Seq<PatternView>, children: Seq<usize>, k: nat) -> Seq<Seq<PlanView>>
        decreases pats, k,
    {
        if k == 0 || k > pats.len() {
            Seq::empty()
        } else {
            let rest = self.options(pats, children, (k - 1) as nat);
            let here = if pats[k - 1] is Any {
                seq![PlanView::Group(children[k - 1])]
            } else {
                self.group_bindings(
                    pats[k - 1],
                    children[k - 1] as int,
                    self.groups[children[k - 1] as int].logical.len(),
                )
            };
            rest.push(here)
        }
    }

    /// What matches `pattern` at the first `n` logical expressions of group `g`.
    pub open spec fn group_bindings(self, pattern: PatternView, g: int, n: nat) -> Seq<PlanView>
        decreases pattern, n + 1,
    {
        if n == 0 || n > self.groups[g].logical.len() {
            Seq::empty()
        } else {
            self.group_bindings(pattern, g, (n - 1) as nat) + self.bindings(
                pattern,
                g as usize,
                self.groups[g].logical[n - 1],
            )
        }
    }
}

/// The plans that stand for the groups `children`.
pub fn leaves(children: &Vec<usize>) -> (r: Vec<Plan>)
    ensures
        plan_views(r@) == leaves_spec(children@),
{
    let mut out: Vec<Plan> = Vec::new();
    let mut i: usize = 0;
    while i < children.len()
        invariant
            i <= children.len(),
            out@.len() == i,
            forall|j: int| 0 <= j < i ==> (#[trigger] out@[j])@ == PlanView::Group(children@[j]),
        decreases children.len() - i,
    {
        out.push(Plan::group(children[i]));
        i += 1;
    }
    assert(plan_views(out@) =~= leaves_spec(children@));
    out
}

/// The views of a sequence of combinations, place by place.
pub open spec fn combo_views(combos: Seq<Vec<Plan>>) -> Seq<Seq<PlanView>> {
    Seq::new(combos.len(), |i: int| plan_views(combos[i]@))
}

/// Each of `combos` with each of `opts` behind it.
fn extend(combos: &Vec<Vec<Plan>>, opts: &Vec<Plan>) -> (r: Vec<Vec<Plan>>)
    ensures
        combo_views(r@) == extended(combo_views(combos@), plan_views(opts@), combos@.len()),
{
    let ghost cv = combo_views(combos@);
    let ghost ov = plan_views(opts@);
    let mut out: Vec<Vec<Plan>> = Vec::new();
    let mut m: usize = 0;
    assert(combo_views(out@) =~= extended(cv, ov, 0));
    while m < combos.len()
        invariant
            m <= combos.len(),
            cv == combo_views(combos@),
            ov == plan_views(opts@),
            combo_views(out@) == extended(cv, ov, m as nat),
        decreases combos.len() - m,
    {
        let ghost base = combo_views(out@);
        let mut k: usize = 0;
        assert(combo_views(out@) =~= base + with_each(cv[m as int], ov, 0));
        while k < opts.len()
            invariant
                k <= opts.len(),
                m < combos.len(),
                cv == combo_views(combos@),
                ov == plan_views(opts@),
                combo_views(out@) == base + with_each(cv[m as int], ov, k as nat),
            decreases opts.len() - k,
        {
            let mut combo = copy_plans(&combos[m]);
            let ghost prefix = plan_views(combo@);
            combo.push(opts[k].clone());
            proof {
                assert(plan_views(combo@) =~= cv[m as int].push(ov[k as int])) by {
                    assert(prefix == cv[m as int]);
                    assert forall|j: int| 0 <= j < combo@.len() implies plan_views(combo@)[j] == cv[m as int].push(
                        ov[k as int],
                    )[j] by {
                        if j < prefix.len() {
                            assert(plan_views(combo@)[j] == prefix[j]);
                        }
                    }
                }
            }
            let ghost before = combo_views(out@);
            out.push(combo);
            proof {
                assert(combo_views(out@) =~= before.push(cv[m as int].push(ov[k as int])));
                assert(combo_views(out@) =~= base + with_each(cv[m as int], ov, (k + 1) as nat));
            }
            k += 1;
        }
        m += 1;
    }
    out
}

/// The views of a sequence of lists of plans, place by place.
pub open spec fn option_views(options: Seq<Vec<Plan>>) -> Seq<Seq<PlanView>> {
    Seq::new(options.len(), |i: int| plan_views(options[i]@))
}

/// Whether each of `children` is a group of `memo`.
fn groups_exist(memo: &Memo, children: &Vec<usize>) -> (b: bool)
    ensures
        b == memo@.has_groups(children@),
{
    let mut i: usize = 0;
    while i < children.len()
        invariant
            i <= children.len(),
            forall|j: int| 0 <= j < i ==> memo@.has_group(#[trigger] children@[j] as int),
        decreases children.len() - i,
    {
        if children[i] >= memo.group_count() {
            assert(!memo@.has_group(children@[i as int] as int));
            return false;
        }
        i += 1;
    }
    true
}

/// The ways to pick one plan from each of `options`.
fn combine(options: &Vec<Vec<Plan>>) -> (r: Vec<Vec<Plan>>)
    ensures
        combo_views(r@) == product(option_views(options@), options@.len()),
{
    let ghost ov = option_views(options@);
    let mut combos: Vec<Vec<Plan>> = Vec::new();
    combos.push(Vec::new());
    assert(combo_views(combos@) =~= product(ov, 0)) by {
        assert(plan_views(combos@[0]@) =~= Seq::<PlanView>::empty());
    }
    let mut n: usize = 0;
    while n < options.len()
        invariant
            n <= options.len(),
            ov == option_views(options@),
            combo_views(combos@) == product(ov, n as nat),
        decreases options.len() - n,
    {
        combos = extend(&combos, &options[n]);
        n += 1;
    }
    combos
}

/// What of `memo` matches `pattern` at the expression `e` of `group`.
pub fn bindings(memo: &Memo, pattern: &Pattern, group: usize, e: &GroupExpr) -> (r: Vec<Plan>)
    ensures
        plan_views(r@) == memo@.bindings(pattern@, group, e@),
    decreases pattern, 0nat,
{
    let mut out: Vec<Plan> = Vec::new();
    match pattern {
        Pattern::Any => {
            let node = Plan::new(e.operator().clone(), leaves(e.children()), Some(group));
            out.push(node);
            assert(plan_views(out@) =~= memo@.bindings(pattern@, group, e@));
            out
        },
        Pattern::Node(id, pats) => {
            let ghost pv = pattern@->Node_1;
            let children = e.children();
            if e.operator().operator_id() != *id || pats.len() != children.len() || !groups_exist(
                memo,
                children,
            ) {
                assert(plan_views(out@) =~= memo@.bindings(pattern@, group, e@));
                return out;
            }
            let mut options: Vec<Vec<Plan>> = Vec::new();
            let mut k: usize = 0;
            assert(option_views(options@) =~= memo@.options(pv, children@, 0));
            while k < pats.len()
                invariant
                    k <= pats.len(),
                    pattern is Node,
                    pattern->Node_1 == *pats,
                    pv == pattern@->Node_1,
                    pv.len() == pats.len(),
                    pats.len() == children.len(),
                    memo@.has_groups(children@),
                    options@.len() == k,
                    option_views(options@) == memo@.options(pv, children@, k as nat),
                decreases pats.len() - k,
            {
                proof {
                    assert(decreases_to!(*pattern => pattern->Node_1));
                    assert(decreases_to!(*pats => pats@));
                    assert(decreases_to!(pats@ => pats@[k as int]));
                    assert(pv[k as int] == pats@[k as int]@);
                    assert(memo@.has_group(children@[k as int] as int));
                }
                let c = children[k];
                let here = match &pats[k] {
                    Pattern::Any => {
                        let mut one: Vec<Plan> = Vec::new();
                        one.push(Plan::group(c));
                        assert(plan_views(one@) =~= seq![PlanView::Group(c)]);
                        one
                    },
                    _ => group_bindings(memo, &pats[k], c),
                };
                let ghost before = option_views(options@);
                options.push(here);
                assert(option_views(options@) =~= before.push(plan_views(here@)));
                k += 1;
            }
            let combos = combine(&options);
            let ghost cv = combo_views(combos@);
            assert(cv == product(memo@.options(pv, children@, pv.len()), pv.len()));
            let mut j: usize = 0;
            while j < combos.len()
                invariant
                    j <= combos.len(),
                    out@.len() == j,
                    pattern@ == PatternView::Node(*id, pv),
                    operator_id_spec(e@.op) == *id,
                    pv.len() == e@.children.len(),
                    children@ == e@.children,
                    memo@.has_groups(children@),
                    cv == combo_views(combos@),
                    cv == product(memo@.options(pv, children@, pv.len()), pv.len()),
                    forall|i: int|
                        0 <= i < j ==> (#[trigger] out@[i])@ == PlanView::Node(
                            e@.op,
                            combo_views(combos@)[i],
                            Seq::empty(),
                            Some(group),
                        ),
                decreases combos.len() - j,
            {
                out.push(Plan::new(e.operator().clone(), copy_plans(&combos[j]), Some(group)));
                j += 1;
            }
            assert(plan_views(out@) =~= memo@.bindings(pattern@, group, e@));
            out
        },
    }
}

/// What of `memo` matches `pattern` at the logical expressions of `group`.
pub fn group_bindings(memo: &Memo, pattern: &Pattern, group: usize) -> (r: Vec<Plan>)
    requires
        memo@.has_group(group as int),
    ensures
        plan_views(r@) == memo@.group_bindings(
            pattern@,
            group as int,
            memo@.groups[group as int].logical.len(),
        ),
    decreases pattern, 1nat,
{
    let ghost g = group as int;
    let mut out: Vec<Plan> = Vec::new();
    let n = memo.logical_count(group);
    let mut i: usize = 0;
    assert(plan_views(out@) =~= memo@.group_bindings(pattern@, g, 0));
    while i < n
        invariant
            i <= n,
            n == memo@.groups[g].logical.len(),
            g == group as int,
            memo@.has_group(g),
            plan_views(out@) == memo@.group_bindings(pattern@, g, i as nat),
        decreases n - i,
    {
        let mut found = bindings(memo, pattern, group, memo.logical_expr(group, i));
        let ghost before = plan_views(out@);
        let ghost more = plan_views(found@);
        out.append(&mut found);
        assert(plan_views(out@) =~= before + more);
        i += 1;
    }
    out
}

} // verus!
