//! Odoo's business-logic ontology: the SPO triple corpus, its inheritance and
//! recompute graphs, the OWL pivot alignment, the view-stratum field masks and
//! the typed SurrealQL DDL surface, each with its contract.
pub mod text;
pub mod triple;
pub mod alignment;
pub mod strset;
pub mod rel;
pub mod inheritance;
pub mod relations;
pub mod smap;
pub mod recompute_dag;
pub mod digraph;
pub mod mro;
pub mod view_mask;
pub mod ogar_actions;
pub mod codegen;
pub mod posting;
pub mod surreal_ast;
pub mod emit;
pub mod ogar_bridge;
pub mod serve;

pub use alignment::{
    dolce_odoo, family_billing_core, family_hr_foundation, family_product_catalog, family_smb_accounting,
    family_smb_foundry_customer, family_smb_foundry_invoice, odoo_bundle_id, odoo_inherits_from_fibofnd_v1,
    odoo_seed, resolve_odoo, strip_odoo_prefix, DolceMarker, OdooFamily, OdooSeedRow, OntologyBundleId,
    OwlPivot, ODOO_EDGE_WHITELIST, ODOO_NAMESPACE_IRI, ODOO_TTL_SOURCES,
};
pub use inheritance::InheritanceMap;
pub use mro::{Mro, MroError};
pub use ogar_actions::{corpus_action_rows, corpus_to_actions};
pub use recompute_dag::{MethodId, MethodKind, RecomputeDag};
pub use relations::{Relation, RelationMap};
pub use triple::{member_of, model_of, Triple};
pub use view_mask::{
    extract_view_fields, field_universe, mint_mask, mint_wide_mask, MaskWords, ViewFields, WideMaskError,
};
