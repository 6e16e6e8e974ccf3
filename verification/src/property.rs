//! Physical properties: what a plan must deliver, and what it does deliver.

use vstd::prelude::*;
use crate::expression::ColumnVar;

verus! {

/// One key of a sort order: a column, a direction, and where nulls go.
#[derive(Clone, Copy, Debug, PartialEq, Eq, Structural, Hash)]
pub struct SortKey {
    pub key: ColumnVar,
    pub ascending: bool,
    pub nulls_first: bool,
}

impl SortKey {
    /// The key on column `id`, ascending, nulls first.
    pub fn new(id: u32) -> (k: Self)
        ensures
            k == (SortKey { key: ColumnVar { id }, ascending: true, nulls_first: true }),
    {
        SortKey { key: ColumnVar::new(id), ascending: true, nulls_first: true }
    }
}

/// A sort order: its keys, the most significant first.
#[derive(Debug)]
pub struct OrderSpec {
    pub order_desc: Vec<SortKey>,
}

impl View for OrderSpec {
    type V = Seq<SortKey>;

    open spec fn view(&self) -> Seq<SortKey> {
        self.order_desc@
    }
}

impl Clone for OrderSpec {
    fn clone(&self) -> (r: Self)
        ensures
            r@ == self@,
    {
        let mut keys: Vec<SortKey> = Vec::new();
        let mut i: usize = 0;
        while i < self.order_desc.len()
            invariant
                i <= self.order_desc.len(),
                keys@ == self.order_desc@.take(i as int),
            decreases self.order_desc.len() - i,
        {
            keys.push(self.order_desc[i]);
            i += 1;
        }
        OrderSpec { order_desc: keys }
    }
}

impl OrderSpec {
    /// Whether the two orders have the same keys in the same places.
    pub fn equal(&self, other: &OrderSpec) -> (b: bool)
        ensures
            b == (self@ == other@),
    {
        if self.order_desc.len() != other.order_desc.len() {
            return false;
        }
        let mut i: usize = 0;
        while i < self.order_desc.len()
            invariant
                i <= self.order_desc.len(),
                self.order_desc.len() == other.order_desc.len(),
                forall|j: int| 0 <= j < i ==> self@[j] == other@[j],
            decreases self.order_desc.len() - i,
        {
            if self.order_desc[i] != other.order_desc[i] {
                return false;
            }
            i += 1;
        }
        assert(self@ =~= other@);
        true
    }

    /// Whether data in order `self` is also in order `required`: the
    /// required keys are the leading keys of `self`.
    pub fn satisfies(&self, required: &OrderSpec) -> (b: bool)
        ensures
            b == required@.is_prefix_of(self@),
    {
        if required.order_desc.len() > self.order_desc.len() {
            return false;
        }
        let mut i: usize = 0;
        while i < required.order_desc.len()
            invariant
                i <= required.order_desc.len(),
                required.order_desc.len() <= self.order_desc.len(),
                forall|j: int| 0 <= j < i ==> self@[j] == required@[j],
            decreases required.order_desc.len() - i,
        {
            if self.order_desc[i] != required.order_desc[i] {
                return false;
            }
            i += 1;
        }
        assert(required@ =~= self@.subrange(0, required@.len() as int));
        true
    }
}

} // verus!

verus! {

/// Whether delivered properties meet required ones: the required sort keys
/// lead the delivered ones. An empty requirement is met by everything.
pub open spec fn satisfies_spec(delivered: Seq<SortKey>, required: Seq<SortKey>) -> bool {
    required.is_prefix_of(delivered)
}

/// What a plan delivers once an enforcer has run over its input: the
/// enforced order where there is one, else what the input delivered.
pub open spec fn combine_spec(child: Seq<SortKey>, enforced: Seq<SortKey>) -> Seq<SortKey> {
    if enforced.len() > 0 {
        enforced
    } else {
        child
    }
}

/// The sort component of a property set.
#[derive(Debug)]
pub struct SortProperty {
    order: OrderSpec,
}

impl View for SortProperty {
    type V = Seq<SortKey>;

    closed spec fn view(&self) -> Seq<SortKey> {
        self.order@
    }
}

impl Clone for SortProperty {
    fn clone(&self) -> (r: Self)
        ensures
            r@ == self@,
    {
        SortProperty { order: self.order.clone() }
    }
}

impl SortProperty {
    pub fn with_order(order: OrderSpec) -> (p: Self)
        ensures
            p@ == order@,
    {
        SortProperty { order }
    }

    pub fn order(&self) -> (o: &OrderSpec)
        ensures
            o@ == self@,
    {
        &self.order
    }

    /// Whether data delivered in this order meets the `required` one.
    pub fn satisfies(&self, required: &SortProperty) -> (b: bool)
        ensures
            b == satisfies_spec(self@, required@),
    {
        self.order.satisfies(&required.order)
    }
}

/// A set of physical properties, required of a plan or delivered by one.
/// Its one component is a sort order; without it nothing is asked.
#[derive(Debug)]
pub struct PhysicalProperties {
    sort: Option<SortProperty>,
}

impl View for PhysicalProperties {
    type V = Seq<SortKey>;

    closed spec fn view(&self) -> Seq<SortKey> {
        match self.sort {
            Some(s) => s@,
            None => Seq::empty(),
        }
    }
}

impl Clone for PhysicalProperties {
    fn clone(&self) -> (r: Self)
        ensures
            r@ == self@,
    {
        match &self.sort {
            Some(s) => PhysicalProperties { sort: Some(s.clone()) },
            None => PhysicalProperties { sort: None },
        }
    }
}

impl PhysicalProperties {
    /// The property set that asks nothing.
    pub fn new() -> (p: Self)
        ensures
            p@ == Seq::<SortKey>::empty(),
    {
        PhysicalProperties { sort: None }
    }

    pub fn with_property(property: SortProperty) -> (p: Self)
        ensures
            p@ == property@,
    {
        PhysicalProperties { sort: Some(property) }
    }

    /// The sort component of the set, where it has one.
    pub fn sort_property(&self) -> (s: Option<&SortProperty>)
        ensures
            match s {
                Some(p) => p@ == self@,
                None => self@.len() == 0,
            },
    {
        match &self.sort {
            Some(s) => Some(s),
            None => None,
        }
    }

    /// The sort order of the set, as an order specification.
    pub fn to_order(&self) -> (o: OrderSpec)
        ensures
            o@ == self@,
    {
        match &self.sort {
            Some(s) => s.order().clone(),
            None => OrderSpec { order_desc: Vec::new() },
        }
    }

    /// Whether the set asks nothing.
    pub fn is_empty(&self) -> (b: bool)
        ensures
            b == (self@.len() == 0),
    {
        match &self.sort {
            Some(s) => s.order().order_desc.len() == 0,
            None => true,
        }
    }

    pub fn equal(&self, other: &PhysicalProperties) -> (b: bool)
        ensures
            b == (self@ == other@),
    {
        let a = self.to_order();
        let o = other.to_order();
        a.equal(&o)
    }

    /// Whether these delivered properties meet the `required` ones.
    pub fn satisfies(&self, required: &PhysicalProperties) -> (b: bool)
        ensures
            b == satisfies_spec(self@, required@),
    {
        let d = self.to_order();
        let r = required.to_order();
        d.satisfies(&r)
    }

    /// The properties after enforcing `enforced` over an input that
    /// delivers `self`.
    pub fn combine(&self, enforced: &PhysicalProperties) -> (p: Self)
        ensures
            p@ == combine_spec(self@, enforced@),
    {
        if enforced.is_empty() {
            self.clone()
        } else {
            enforced.clone()
        }
    }

    /// The requirement that is left once the sort component is enforced.
    pub fn without_sort(&self) -> (p: Self)
        ensures
            p@ == Seq::<SortKey>::empty(),
    {
        PhysicalProperties { sort: None }
    }
}

/// Every property set meets the empty requirement.
pub proof fn lemma_empty_requirement_met(delivered: Seq<SortKey>)
    ensures
        satisfies_spec(delivered, Seq::<SortKey>::empty()),
{
    assert(Seq::<SortKey>::empty() =~= delivered.subrange(0, 0));
}

/// A property set meets itself.
pub proof fn lemma_satisfies_reflexive(p: Seq<SortKey>)
    ensures
        satisfies_spec(p, p),
{
    assert(p =~= p.subrange(0, p.len() as int));
}

/// Meeting a requirement carries over: what meets `b` meets all that `b` meets.
pub proof fn lemma_satisfies_transitive(a: Seq<SortKey>, b: Seq<SortKey>, c: Seq<SortKey>)
    requires
        satisfies_spec(a, b),
        satisfies_spec(b, c),
    ensures
        satisfies_spec(a, c),
{
    assert(c =~= a.subrange(0, c.len() as int));
}

} // verus!

verus! {

/// The views of a sequence of property sets, place by place.
pub open spec fn props_views(props: Seq<PhysicalProperties>) -> Seq<Seq<SortKey>> {
    Seq::new(props.len(), |i: int| props[i]@)
}

/// The views of a sequence of alternatives, place by place.
pub open spec fn alts_views(alts: Seq<Vec<PhysicalProperties>>) -> Seq<Seq<Seq<SortKey>>> {
    Seq::new(alts.len(), |i: int| props_views(alts[i]@))
}

/// A copy of `props`.
pub fn copy_props(props: &Vec<PhysicalProperties>) -> (r: Vec<PhysicalProperties>)
    ensures
        props_views(r@) == props_views(props@),
{
    let mut out: Vec<PhysicalProperties> = Vec::new();
    let mut i: usize = 0;
    while i < props.len()
        invariant
            i <= props.len(),
            out@.len() == i,
            forall|j: int| 0 <= j < i ==> (#[trigger] out@[j])@ == props@[j]@,
        decreases props.len() - i,
    {
        out.push(props[i].clone());
        i += 1;
    }
    assert(props_views(out@) =~= props_views(props@));
    out
}

} // verus!
