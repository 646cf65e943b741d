use vstd::prelude::*;

pub mod text;
pub mod grep;
pub mod design;
pub mod concurrency;
pub mod health;
pub mod settings;
pub mod report;
pub mod corpus;
pub mod search;
pub mod model;
pub mod save;
pub mod scan;
pub mod context;
pub mod fixed_hooks;
pub mod dsl;
pub mod documents;
pub mod scope;
pub mod help;
pub mod structurizr;
pub mod lookups;
pub mod server;
pub mod repair;
pub mod apply;

verus! {

} // verus!
