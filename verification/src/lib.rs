//! A compile-time-style dependency-injection resolver with a verified core.
//!
//! Given a set of injectable types, each declaring which other types it needs,
//! the crate builds a directed dependency graph, rejects cycles, computes a
//! dependency-respecting instantiation order, and fills every computed slot of
//! an injection context exactly once. Typed accessors then hand out borrowed
//! references to the finished values.

mod context;
mod engine;
mod graph;

pub use context::CoolDependency;
pub use context::Dependency;
pub use context::InjectionContext;
pub use context::MyCoolValue;
pub use context::MyOtherCoolValue;
pub use context::OtherDependency;
pub use context::PrematureReadError;
pub use context::Provider;
pub use context::Slot;
pub use context::UnknownTypeError;
pub use context::constructed;
pub use context::get_context;
pub use context::lemma_construction_deterministic;
pub use context::COOL_DEPENDENCY_ID;
pub use context::MY_COOL_VALUE_ID;
pub use context::MY_OTHER_COOL_VALUE_ID;
pub use context::OTHER_DEPENDENCY_ID;
pub use engine::Declaration;
pub use engine::TypeIdentifier;
pub use engine::lemma_declaration_order_irrelevant;
pub use engine::lemma_dep_list_order_irrelevant;
pub use engine::lemma_lazy_pull_safe;
pub use engine::plan;
pub use graph::CycleError;
pub use graph::DepGraph;
