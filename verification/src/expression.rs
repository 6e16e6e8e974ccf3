//! Scalar expressions over the columns of a relation.

use vstd::prelude::*;
use crate::column_set::ColumnRefSet;

verus! {

/// A reference to a column, by its identifier.
#[derive(Clone, Copy, Debug, PartialEq, Eq, Structural, Hash)]
pub struct ColumnVar {
    pub id: u32,
}

impl ColumnVar {
    pub fn new(id: u32) -> (c: Self)
        ensures
            c.id == id,
    {
        ColumnVar { id }
    }

    pub fn id(&self) -> (id: u32)
        ensures
            id == self.id,
    {
        self.id
    }
}

/// A scalar expression: a column, a null test, or a conjunction.
#[derive(Debug)]
pub enum ScalarExpr {
    Column(ColumnVar),
    IsNull(Box<ScalarExpr>),
    And(Vec<ScalarExpr>),
}

/// What a scalar expression says, apart from how it is stored.
pub ghost enum ExprView {
    Column(u32),
    IsNull(Box<ExprView>),
    And(Seq<ExprView>),
}

/// The views of a sequence of expressions, place by place.
pub open spec fn views_of(es: Seq<ScalarExpr>) -> Seq<ExprView> {
    Seq::new(es.len(), |i: int| es[i]@)
}

/// The columns that an expression reads and that a column set can hold.
pub open spec fn used_columns(e: ExprView) -> Set<nat>
    decreases e,
{
    match e {
        ExprView::Column(id) => if ColumnRefSet::admits(id) {
            Set::<nat>::empty().insert(id as nat)
        } else {
            Set::<nat>::empty()
        },
        ExprView::IsNull(inner) => used_columns(*inner),
        ExprView::And(es) => used_columns_of(es, es.len()),
    }
}

/// The columns that the first `n` expressions of `es` read.
pub open spec fn used_columns_of(es: Seq<ExprView>, n: nat) -> Set<nat>
    decreases es, n,
{
    if n == 0 || n > es.len() {
        Set::<nat>::empty()
    } else {
        used_columns_of(es, (n - 1) as nat).union(used_columns(es[n - 1]))
    }
}

/// The conjuncts of a predicate: the members of a conjunction, or the
/// predicate itself.
pub open spec fn conjuncts_spec(e: ExprView) -> Seq<ExprView> {
    match e {
        ExprView::And(es) => es,
        _ => seq![e],
    }
}

/// The view of an expression.
pub open spec fn expr_view(e: ScalarExpr) -> ExprView
    decreases e,
{
    match e {
        ScalarExpr::Column(c) => ExprView::Column(c.id),
        ScalarExpr::IsNull(inner) => ExprView::IsNull(Box::new(expr_view(*inner))),
        ScalarExpr::And(es) => ExprView::And(
            Seq::new(
                es@.len(),
                |i: int|
                    if 0 <= i < es@.len() {
                        expr_view(es@[i])
                    } else {
                        ExprView::Column(0)
                    },
            ),
        ),
    }
}

impl View for ScalarExpr {
    type V = ExprView;

    open spec fn view(&self) -> ExprView {
        expr_view(*self)
    }
}

impl ScalarExpr {
    /// The expression that reads column `id`.
    pub fn column(id: u32) -> (e: Self)
        ensures
            e@ == ExprView::Column(id),
    {
        ScalarExpr::Column(ColumnVar::new(id))
    }

    /// The test whether `inner` is null.
    pub fn is_null(inner: ScalarExpr) -> (e: Self)
        ensures
            e@ == ExprView::IsNull(Box::new(inner@)),
    {
        ScalarExpr::IsNull(Box::new(inner))
    }

    /// The conjunction of `members`.
    pub fn and(members: Vec<ScalarExpr>) -> (e: Self)
        ensures
            e@ == ExprView::And(views_of(members@)),
    {
        let e = ScalarExpr::And(members);
        assert(e@->And_0 =~= views_of(members@));
        e
    }

    /// Whether the expression yields a truth value.
    pub fn is_boolean_expression(&self) -> (b: bool)
        ensures
            b == !(self@ is Column),
    {
        match self {
            ScalarExpr::Column(_) => false,
            _ => true,
        }
    }

    /// The number of conjuncts of the expression.
    pub fn conjunct_count(&self) -> (n: usize)
        ensures
            n == conjuncts_spec(self@).len(),
    {
        match self {
            ScalarExpr::And(es) => es.len(),
            _ => 1,
        }
    }

    /// The `i`-th conjunct of the expression.
    pub fn conjunct(&self, i: usize) -> (c: &ScalarExpr)
        requires
            i < conjuncts_spec(self@).len(),
        ensures
            c@ == conjuncts_spec(self@)[i as int],
    {
        match self {
            ScalarExpr::And(es) => &es[i],
            _ => self,
        }
    }

    /// Whether the two expressions say the same.
    pub fn equal(&self, other: &ScalarExpr) -> (b: bool)
        ensures
            b == (self@ == other@),
        decreases self,
    {
        match (self, other) {
            (ScalarExpr::Column(a), ScalarExpr::Column(b)) => a.id() == b.id(),
            (ScalarExpr::IsNull(a), ScalarExpr::IsNull(b)) => a.equal(b),
            (ScalarExpr::And(a), ScalarExpr::And(b)) => {
                if a.len() != b.len() {
                    assert(self@->And_0.len() != other@->And_0.len());
                    return false;
                }
                let mut i: usize = 0;
                while i < a.len()
                    invariant
                        i <= a.len(),
                        a.len() == b.len(),
                        self is And,
                        self->And_0 == *a,
                        other is And,
                        other->And_0 == *b,
                        forall|j: int| 0 <= j < i ==> (#[trigger] a@[j])@ == b@[j]@,
                    decreases a.len() - i,
                {
                    proof {
                        assert(decreases_to!(*self => self->And_0));
                        assert(decreases_to!(*a => a@));
                        assert(decreases_to!(a@ => a@[i as int]));
                    }
                    if !a[i].equal(&b[i]) {
                        assert(self@->And_0[i as int] != other@->And_0[i as int]);
                        return false;
                    }
                    i += 1;
                }
                assert(self@->And_0 =~= other@->And_0);
                true
            },
            _ => false,
        }
    }

    /// Adds the columns that the expression reads to `set`.
    pub fn derive_used_columns(&self, set: &mut ColumnRefSet)
        ensures
            final(set)@ == old(set)@.union(used_columns(self@)),
        decreases self,
    {
        match self {
            ScalarExpr::Column(c) => {
                set.insert(c.id());
                assert(set@ =~= old(set)@.union(used_columns(self@)));
            },
            ScalarExpr::IsNull(e) => {
                e.derive_used_columns(set);
            },
            ScalarExpr::And(es) => {
                let mut i: usize = 0;
                assert(set@ =~= old(set)@.union(used_columns_of(self@->And_0, 0)));
                while i < es.len()
                    invariant
                        i <= es.len(),
                        self is And,
                        self->And_0 == *es,
                        set@ == old(set)@.union(used_columns_of(self@->And_0, i as nat)),
                    decreases es.len() - i,
                {
                    proof {
                        assert(decreases_to!(*self => self->And_0));
                        assert(decreases_to!(*es => es@));
                        assert(decreases_to!(es@ => es@[i as int]));
                    }
                    es[i].derive_used_columns(set);
                    assert(set@ =~= old(set)@.union(used_columns_of(self@->And_0, (i + 1) as nat)));
                    i += 1;
                }
            },
        }
    }
}

impl Clone for ScalarExpr {
    fn clone(&self) -> (r: Self)
        ensures
            r@ == self@,
        decreases self,
    {
        match self {
            ScalarExpr::Column(c) => ScalarExpr::Column(*c),
            ScalarExpr::IsNull(e) => {
                let inner = (**e).clone();
                ScalarExpr::IsNull(Box::new(inner))
            },
            ScalarExpr::And(es) => {
                let mut out: Vec<ScalarExpr> = Vec::new();
                let mut i: usize = 0;
                while i < es.len()
                    invariant
                        i <= es.len(),
                        self is And,
                        self->And_0 == *es,
                        out@.len() == i,
                        forall|j: int| 0 <= j < i ==> (#[trigger] out@[j])@ == es@[j]@,
                    decreases es.len() - i,
                {
                    proof {
                        assert(decreases_to!(*self => self->And_0));
                        assert(decreases_to!(*es => es@));
                        assert(decreases_to!(es@ => es@[i as int]));
                    }
                    let c = es[i].clone();
                    out.push(c);
                    i += 1;
                }
                let r = ScalarExpr::And(out);
                assert(r@->And_0 =~= self@->And_0);
                r
            },
        }
    }
}

/// The columns that an expression reads are finitely many.
pub proof fn lemma_used_columns_finite(e: ExprView)
    ensures
        used_columns(e).finite(),
    decreases e,
{
    match e {
        ExprView::Column(id) => {},
        ExprView::IsNull(inner) => {
            lemma_used_columns_finite(*inner);
        },
        ExprView::And(es) => {
            lemma_used_columns_of_finite(es, es.len());
        },
    }
}

/// The columns that the first `n` of `es` read are finitely many.
pub proof fn lemma_used_columns_of_finite(es: Seq<ExprView>, n: nat)
    ensures
        used_columns_of(es, n).finite(),
    decreases es, n,
{
    if n == 0 || n > es.len() {
    } else {
        lemma_used_columns_of_finite(es, (n - 1) as nat);
        lemma_used_columns_finite(es[n - 1]);
    }
}

/// The identifiers of the first `n` of `columns` that a column set can hold.
pub open spec fn column_ids(columns: Seq<ColumnVar>, n: nat) -> Set<nat>
    decreases n,
{
    if n == 0 || n > columns.len() {
        Set::<nat>::empty()
    } else {
        let rest = column_ids(columns, (n - 1) as nat);
        if ColumnRefSet::admits(columns[n - 1].id) {
            rest.insert(columns[n - 1].id as nat)
        } else {
            rest
        }
    }
}

/// The set of the identifiers of `columns`.
pub fn column_set(columns: &Vec<ColumnVar>) -> (s: ColumnRefSet)
    ensures
        s@ == column_ids(columns@, columns@.len()),
{
    let mut set = ColumnRefSet::new();
    let mut i: usize = 0;
    while i < columns.len()
        invariant
            i <= columns.len(),
            set@ == column_ids(columns@, i as nat),
        decreases columns.len() - i,
    {
        set.insert(columns[i].id());
        i += 1;
    }
    set
}

/// Adds the identifiers of `columns` to `set`.
pub fn add_columns(columns: &Vec<ColumnVar>, set: &mut ColumnRefSet)
    ensures
        final(set)@ == old(set)@.union(column_ids(columns@, columns@.len())),
{
    let mut i: usize = 0;
    assert(set@ =~= old(set)@.union(column_ids(columns@, 0)));
    while i < columns.len()
        invariant
            i <= columns.len(),
            set@ == old(set)@.union(column_ids(columns@, i as nat)),
        decreases columns.len() - i,
    {
        set.insert(columns[i].id());
        assert(set@ =~= old(set)@.union(column_ids(columns@, (i + 1) as nat)));
        i += 1;
    }
}

/// Adds the columns that the expressions `exprs` read to `set`.
pub fn add_used_columns(exprs: &Vec<ScalarExpr>, set: &mut ColumnRefSet)
    ensures
        final(set)@ == old(set)@.union(used_columns_of(views_of(exprs@), exprs@.len())),
{
    let mut i: usize = 0;
    assert(set@ =~= old(set)@.union(used_columns_of(views_of(exprs@), 0)));
    while i < exprs.len()
        invariant
            i <= exprs.len(),
            set@ == old(set)@.union(used_columns_of(views_of(exprs@), i as nat)),
        decreases exprs.len() - i,
    {
        exprs[i].derive_used_columns(set);
        assert(set@ =~= old(set)@.union(used_columns_of(views_of(exprs@), (i + 1) as nat)));
        i += 1;
    }
}

} // verus!
