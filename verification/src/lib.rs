//! Rewriting of core schemas: lifting definitions out of a schema tree,
//! replacing them by references, inlining references that are used once,
//! gathering reference sites, and applying deferred discriminators.

pub mod collect;
pub mod cycle_laws;
pub mod discriminator;
pub mod fixed_point;
pub mod gather_laws;
pub mod idempotence;
pub mod inline_laws;
pub mod inline_refs;
pub mod inline_shape;
pub mod lifting_laws;
pub mod lineage;
pub mod mark_laws;
pub mod preservation;
pub mod ref_counts;
pub mod schema_traverse;
pub mod simplify_laws;
pub mod simplify_schema;
pub mod value;
pub mod walk_core_schema;
pub mod walk_laws;
