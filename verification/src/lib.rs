//! A cost-based query optimizer in the Cascades style.
//!
//! A logical plan is taken into a memo of groups of equivalent
//! expressions. A stack of tasks then searches the memo top-down: rules
//! add logical and physical expressions to the groups, physical
//! expressions are costed once the search of their inputs is over, and
//! the cheapest plan of each group under each requirement is recorded in
//! the group's best-plan table. The plan of the root group under the
//! required properties is the result.
//!
//! Costs are whole numbers of cost units. The contracts are stated over
//! views of the data: what a value says, apart from how it is stored.

pub mod bare;
pub mod column_set;
pub mod context;
pub mod cost;
pub mod expression;
pub mod fault;
pub mod memo;
pub mod metadata;
pub mod operator;
pub mod optimizer;
pub mod plan;
pub mod property;
pub mod rule;
pub mod rules;
pub mod task;

pub use crate::column_set::ColumnRefSet;
pub use crate::context::OptimizerContext;
pub use crate::fault::OptimizerError;
pub use crate::optimizer::{Optimizer, Options};
pub use crate::plan::{LogicalPlan, PhysicalPlan, Plan};
