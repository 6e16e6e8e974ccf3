//! What one optimization works on.

use vstd::prelude::*;
use crate::memo::Memo;
use crate::metadata::MdAccessor;
use crate::rules::RuleSet;

verus! {

/// The memo, the rules and the metadata of one optimization.
#[derive(Debug)]
pub struct OptimizerContext {
    pub memo: Memo,
    pub rule_set: RuleSet,
    pub md_accessor: MdAccessor,
}

impl OptimizerContext {
    /// The context of a search with `rule_set` over `md_accessor`, with an
    /// empty memo.
    pub fn new(md_accessor: MdAccessor, rule_set: RuleSet) -> (c: Self)
        ensures
            c.memo@.groups.len() == 0,
            c.memo@.root is None,
            c.memo.wf(),
            c.rule_set == rule_set,
            c.md_accessor == md_accessor,
    {
        OptimizerContext { memo: Memo::new(), md_accessor, rule_set }
    }

    pub fn memo_mut(&mut self) -> (m: &mut Memo)
        ensures
            *m == old(self).memo,
            *final(self) == (OptimizerContext { memo: *final(m), ..*old(self) }),
    {
        &mut self.memo
    }

    pub fn memo(&self) -> (m: &Memo)
        ensures
            *m == self.memo,
    {
        &self.memo
    }

    pub fn rule_set_mut(&mut self) -> (r: &mut RuleSet)
        ensures
            *r == old(self).rule_set,
            *final(self) == (OptimizerContext { rule_set: *final(r), ..*old(self) }),
    {
        &mut self.rule_set
    }

    pub fn rule_set(&self) -> (r: &RuleSet)
        ensures
            *r == self.rule_set,
    {
        &self.rule_set
    }

    pub fn md_accessor(&self) -> (a: &MdAccessor)
        ensures
            *a == self.md_accessor,
    {
        &self.md_accessor
    }
}

} // verus!
