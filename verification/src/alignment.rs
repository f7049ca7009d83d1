//! OWL pivot alignment: the symbol table of the Odoo language frontend.
//!
//! Odoo class name → OGIT `(family, slot)` identity + `owl:equivalentClass`
//! pivot URI (`fibo:LegalEntity`, `fibo:Transaction`, `schema:Product`,
//! `qudt:Unit`, ...) + DOLCE upper marker.
//!
//! The seed rows are Odoo's convention for which FIBO / schema.org / QUDT
//! concept each ORM model instantiates; the family bytes restate the
//! assignments of the foundry family registry. An unmapped class resolves to
//! nothing: that is the signal to author an alignment axiom, never to invent a
//! family.
use vstd::prelude::*;
use crate::text::{ends_with, has_prefix, has_suffix, starts_with, str_eq, strip_prefix};

verus! {

// ── namespace identity ──────────────────────────────────────────────────────

/// The Odoo TTL namespace IRI.
pub const ODOO_NAMESPACE_IRI: &'static str = "https://ada.world/onto/odoo#";

/// An ontology identity bundle: graph id + schema version major.
#[derive(Clone, Copy, Debug, PartialEq, Eq, Structural)]
pub struct OntologyBundleId {
    /// The bundle's graph id (`0x0002` = Odoo).
    pub graph: u32,
    /// Schema version major.
    pub version: u32,
}

/// The Odoo ontology identity bundle.
pub fn odoo_bundle_id() -> (b: OntologyBundleId)
    ensures
        b == (OntologyBundleId { graph: 0x0002, version: 1 }),
{
    OntologyBundleId { graph: 0x0002, version: 1 }
}

/// The FIBO Foundations bundle Odoo inherits from: the namespace-level
/// declaration whose per-class instances are the seed rows.
pub fn odoo_inherits_from_fibofnd_v1() -> (b: OntologyBundleId)
    ensures
        b == (OntologyBundleId { graph: 0x0007, version: 1 }),
{
    OntologyBundleId { graph: 0x0007, version: 1 }
}

/// The RDF predicates the symbol table follows during transitive resolution.
/// The first two (facet subsumption and the alignment pivots) are
/// load-bearing.
pub const ODOO_EDGE_WHITELIST: [&'static str; 4] = [
    "http://www.w3.org/2000/01/rdf-schema#subClassOf",
    "http://www.w3.org/2002/07/owl#equivalentClass",
    "http://www.w3.org/2000/01/rdf-schema#subPropertyOf",
    "http://www.w3.org/2002/07/owl#equivalentProperty",
];

/// The TTL files the alignment derives from (informational).
pub const ODOO_TTL_SOURCES: [&'static str; 3] = [
    "data/ontologies/odoo/odoo-core.ttl",
    "data/ontologies/odoo/alignment/odoo-to-fibo.ttl",
    "data/ontologies/odoo/alignment/odoo-to-skr.ttl",
];

// ── family bytes ────────────────────────────────────────────────────────────

/// A foundry family byte: the basin an OGIT identity lives in.
#[derive(Clone, Copy, Debug, PartialEq, Eq, Hash, Structural)]
pub struct OdooFamily(pub u8);

impl OdooFamily {
    /// The raw byte.
    pub fn raw(self) -> (b: u8)
        ensures
            b == self.0,
    {
        self.0
    }
}

/// `ogit:BillingCore`: billable items. familyId 97 (`0x61`).
pub fn family_billing_core() -> (f: OdooFamily)
    ensures
        f == OdooFamily(0x61),
{
    OdooFamily(0x61)
}

/// `ogit:SMBAccounting`: double-entry substrate. familyId 98 (`0x62`).
pub fn family_smb_accounting() -> (f: OdooFamily)
    ensures
        f == OdooFamily(0x62),
{
    OdooFamily(0x62)
}

/// `ogit:ProductCatalog`: pricelist + unit-of-measure structure. familyId 100
/// (`0x64`, not `0x63` = `ogit:MRORepair`).
pub fn family_product_catalog() -> (f: OdooFamily)
    ensures
        f == OdooFamily(0x64),
{
    OdooFamily(0x64)
}

/// `ogit:SmbFoundryCustomer`: partner / legal-entity master data. familyId
/// 128 (`0x80`).
pub fn family_smb_foundry_customer() -> (f: OdooFamily)
    ensures
        f == OdooFamily(0x80),
{
    OdooFamily(0x80)
}

/// `ogit:SmbFoundryInvoice`: invoice / transaction document. familyId 129
/// (`0x81`).
pub fn family_smb_foundry_invoice() -> (f: OdooFamily)
    ensures
        f == OdooFamily(0x81),
{
    OdooFamily(0x81)
}

/// `ogit:HRFoundation`: employee / org / job / base contract. familyId 144
/// (`0x90`).
pub fn family_hr_foundation() -> (f: OdooFamily)
    ensures
        f == OdooFamily(0x90),
{
    OdooFamily(0x90)
}

// ── DOLCE marker ────────────────────────────────────────────────────────────

/// DOLCE upper-ontology marker: the topmost category an Odoo class lands on.
#[derive(Clone, Copy, Debug, PartialEq, Eq, Structural)]
pub enum DolceMarker {
    /// Persistent objects: `res.partner`, `account.account`, `product.template`.
    Endurant,
    /// Transactional events / processes: `account.move`, `sale.order`.
    Perdurant,
    /// Dimensions of comparison: `uom.uom`, `uom.category`.
    Quality,
    /// Rules, classifications, models: `account.tax`, `account.fiscal.position`.
    Abstract,
    /// No suffix rule matched.
    Unknown,
}

/// The resolved `owl:equivalentClass` landing for an Odoo class.
#[derive(Clone, Copy, Debug, PartialEq, Eq)]
pub struct OwlPivot {
    /// `owl:equivalentClass` target, e.g. `"fibo:LegalEntity"`.
    pub pivot_uri: &'static str,
    /// Inherited foundry basin.
    pub family: OdooFamily,
    /// Inherited within-family slot.
    pub slot: u16,
    /// DOLCE upper marker.
    pub dolce: DolceMarker,
}

/// `strip_odoo_prefix` over views: leading `odoo:` prefixes and full Odoo
/// namespace IRIs are stripped until neither remains.
pub open spec fn spec_strip_odoo_prefix(iri: Seq<char>) -> Seq<char>
    decreases iri.len(),
{
    if ODOO_NAMESPACE_IRI@.len() > 0 && has_prefix(iri, ODOO_NAMESPACE_IRI@) {
        spec_strip_odoo_prefix(iri.subrange(ODOO_NAMESPACE_IRI@.len() as int, iri.len() as int))
    } else if has_prefix(iri, "odoo:"@) && "odoo:"@.len() > 0 {
        spec_strip_odoo_prefix(iri.subrange("odoo:"@.len() as int, iri.len() as int))
    } else {
        iri
    }
}

proof fn lemma_strip_odoo_prefix_done(iri: Seq<char>)
    ensures
        !(ODOO_NAMESPACE_IRI@.len() > 0 && has_prefix(spec_strip_odoo_prefix(iri), ODOO_NAMESPACE_IRI@)),
        !(has_prefix(spec_strip_odoo_prefix(iri), "odoo:"@) && "odoo:"@.len() > 0),
    decreases iri.len(),
{
    if ODOO_NAMESPACE_IRI@.len() > 0 && has_prefix(iri, ODOO_NAMESPACE_IRI@) {
        lemma_strip_odoo_prefix_done(iri.subrange(ODOO_NAMESPACE_IRI@.len() as int, iri.len() as int));
    } else if has_prefix(iri, "odoo:"@) && "odoo:"@.len() > 0 {
        lemma_strip_odoo_prefix_done(iri.subrange("odoo:"@.len() as int, iri.len() as int));
    }
}

/// Stripping is idempotent: a stripped name carries no `odoo:` prefix and no
/// Odoo namespace IRI, so stripping it again changes nothing.
pub proof fn law_strip_odoo_prefix_idempotent(iri: Seq<char>)
    ensures
        spec_strip_odoo_prefix(spec_strip_odoo_prefix(iri)) == spec_strip_odoo_prefix(iri),
{
    lemma_strip_odoo_prefix_done(iri);
}

/// The Perdurant suffix rules.
pub open spec fn perdurant_rule(m: Seq<char>) -> bool {
    ||| has_suffix(m, ".move.line"@)
    ||| has_suffix(m, ".move"@)
    ||| has_suffix(m, ".payment"@)
    ||| has_suffix(m, ".order.line"@)
    ||| has_suffix(m, ".order"@)
    ||| has_suffix(m, ".message"@)
    ||| has_suffix(m, ".activity"@)
    ||| has_suffix(m, ".attendance"@)
    ||| has_suffix(m, ".transition"@)
    ||| has_suffix(m, ".event"@)
    ||| has_suffix(m, ".log"@)
    ||| has_suffix(m, ".history"@)
    ||| has_suffix(m, ".transaction"@)
    ||| has_suffix(m, ".picking"@)
    ||| has_suffix(m, ".scrap"@)
    ||| has_suffix(m, "bank.statement"@)
    ||| m == "stock.move"@
}

/// The Abstract suffix rules.
pub open spec fn abstract_rule(m: Seq<char>) -> bool {
    ||| has_suffix(m, ".tax"@)
    ||| has_suffix(m, "fiscal.position"@)
    ||| has_suffix(m, "reconcile.model"@)
    ||| has_suffix(m, "payment.term"@)
    ||| has_suffix(m, ".pricelist.item"@)
    ||| has_suffix(m, ".pricelist"@)
    ||| has_suffix(m, ".template"@)
    ||| has_suffix(m, ".settings"@)
    ||| has_suffix(m, ".config"@)
    ||| has_suffix(m, ".policy"@)
    ||| has_suffix(m, ".rule"@)
    ||| has_suffix(m, ".formula"@)
}

/// The Quality rules.
pub open spec fn quality_rule(m: Seq<char>) -> bool {
    ||| has_prefix(m, "uom."@)
    ||| has_suffix(m, ".tag"@)
    ||| has_suffix(m, ".type"@)
    ||| has_suffix(m, ".groups"@)
    ||| has_suffix(m, ".group"@)
    ||| has_suffix(m, ".category"@)
}

/// The Endurant fallback rules.
pub open spec fn endurant_rule(m: Seq<char>) -> bool {
    ||| has_prefix(m, "res."@)
    ||| has_suffix(m, ".account"@)
    ||| has_prefix(m, "product."@)
}

/// The DOLCE marker of a class: first matching rule group wins, in the order
/// master-record special cases, Perdurant, Abstract, Quality, Endurant.
pub open spec fn spec_dolce(class: Seq<char>) -> DolceMarker {
    let m = spec_strip_odoo_prefix(class);
    if m == "product.template"@ || m == "account.account.template"@ {
        DolceMarker::Endurant
    } else if perdurant_rule(m) {
        DolceMarker::Perdurant
    } else if abstract_rule(m) {
        DolceMarker::Abstract
    } else if quality_rule(m) {
        DolceMarker::Quality
    } else if endurant_rule(m) {
        DolceMarker::Endurant
    } else {
        DolceMarker::Unknown
    }
}

/// Strip leading `odoo:` prefixes and full Odoo namespace IRIs until neither
/// remains, returning the bare Odoo model name. Idempotent: bare names pass
/// through.
pub fn strip_odoo_prefix(iri: &str) -> (res: &str)
    ensures
        res@ == spec_strip_odoo_prefix(iri@),
{
    let mut cur: &str = iri;
    loop
        invariant
            spec_strip_odoo_prefix(cur@) == spec_strip_odoo_prefix(iri@),
        decreases cur@.len(),
    {
        proof {
            reveal_strlit("odoo:");
            reveal_strlit("https://ada.world/onto/odoo#");
        }
        if let Some(rest) = strip_prefix(cur, ODOO_NAMESPACE_IRI) {
            cur = rest;
        } else if let Some(rest) = strip_prefix(cur, "odoo:") {
            cur = rest;
        } else {
            return cur;
        }
    }
}

fn perdurant_exec(m: &str) -> (b: bool)
    ensures
        b == perdurant_rule(m@),
{
    ends_with(m, ".move.line") || ends_with(m, ".move") || ends_with(m, ".payment") || ends_with(
        m,
        ".order.line",
    ) || ends_with(m, ".order") || ends_with(m, ".message") || ends_with(m, ".activity")
        || ends_with(m, ".attendance") || ends_with(m, ".transition") || ends_with(m, ".event")
        || ends_with(m, ".log") || ends_with(m, ".history") || ends_with(m, ".transaction")
        || ends_with(m, ".picking") || ends_with(m, ".scrap") || ends_with(m, "bank.statement")
        || str_eq(m, "stock.move")
}

fn abstract_exec(m: &str) -> (b: bool)
    ensures
        b == abstract_rule(m@),
{
    ends_with(m, ".tax") || ends_with(m, "fiscal.position") || ends_with(m, "reconcile.model")
        || ends_with(m, "payment.term") || ends_with(m, ".pricelist.item") || ends_with(
        m,
        ".pricelist",
    ) || ends_with(m, ".template") || ends_with(m, ".settings") || ends_with(m, ".config")
        || ends_with(m, ".policy") || ends_with(m, ".rule") || ends_with(m, ".formula")
}

fn quality_exec(m: &str) -> (b: bool)
    ensures
        b == quality_rule(m@),
{
    starts_with(m, "uom.") || ends_with(m, ".tag") || ends_with(m, ".type") || ends_with(
        m,
        ".groups",
    ) || ends_with(m, ".group") || ends_with(m, ".category")
}

fn endurant_exec(m: &str) -> (b: bool)
    ensures
        b == endurant_rule(m@),
{
    starts_with(m, "res.") || ends_with(m, ".account") || starts_with(m, "product.")
}

/// Classify an Odoo class onto its DOLCE upper marker from structural suffix
/// rules, independent of the seed table. Accepts a bare model name
/// (`"res.partner"`) or a prefixed IRI (`"odoo:res.partner"`).
///
/// Resolution order (first match wins): the master-record special cases
/// `product.template` / `account.account.template` (Endurant); Perdurant
/// (`*.move.line`, `*.move`, `*.payment`, `*.order.line`, `*.order`,
/// `*.message`, `*.activity`, `*.attendance`, `*.transition`, `*.event`,
/// `*.log`, `*.history`, `*.transaction`, `*.picking`, `*.scrap`,
/// `*bank.statement`, `stock.move`); Abstract (`*.tax`, `*fiscal.position`,
/// `*reconcile.model`, `*payment.term`, `*.pricelist.item`, `*.pricelist`,
/// `*.template`, `*.settings`, `*.config`, `*.policy`, `*.rule`, `*.formula`);
/// Quality (`uom.*`, `*.tag`, `*.type`, `*.groups`, `*.group`, `*.category`);
/// Endurant (`res.*`, `*.account`, `product.*`); otherwise Unknown.
pub fn dolce_odoo(class: &str) -> (d: DolceMarker)
    ensures
        d == spec_dolce(class@),
{
    let model = strip_odoo_prefix(class);
    if str_eq(model, "product.template") || str_eq(model, "account.account.template") {
        return DolceMarker::Endurant;
    }
    if perdurant_exec(model) {
        return DolceMarker::Perdurant;
    }
    if abstract_exec(model) {
        return DolceMarker::Abstract;
    }
    if quality_exec(model) {
        return DolceMarker::Quality;
    }
    if endurant_exec(model) {
        return DolceMarker::Endurant;
    }
    DolceMarker::Unknown
}

// ── the seed rows ───────────────────────────────────────────────────────────

/// One static alignment row: Odoo class → OWL pivot + inherited
/// (family, slot) + DOLCE + canonical label + provenance.
#[derive(Clone, Copy, Debug)]
pub struct OdooSeedRow {
    /// Odoo model name (the resolvable key).
    pub odoo_class: &'static str,
    /// `owl:equivalentClass` pivot URI.
    pub pivot_uri: &'static str,
    /// Inherited family byte.
    pub family: OdooFamily,
    /// Inherited slot within the family.
    pub slot: u16,
    /// DOLCE upper marker.
    pub dolce: DolceMarker,
    /// Canonical OGIT label this slot carries inside the foundry family table.
    pub label_uri: &'static str,
    /// `dcterms:source` lineage stamped on hydration.
    pub provenance: &'static str,
}

/// The declared alignment rows. Each row asserts: "Odoo's `odoo_class` IS-A
/// `pivot_uri`, and therefore inherits OGIT family `family` slot `slot`."
pub open spec fn spec_seed() -> Seq<OdooSeedRow> {
    seq![
        OdooSeedRow {
            odoo_class: "res.partner",
            pivot_uri: "fibo:LegalEntity",
            family: OdooFamily(0x80),
            slot: 1,
            dolce: DolceMarker::Endurant,
            label_uri: "ogit.SMB:Customer",
            provenance: "odoo res.partner (company facet) =owl:equivalentClass=> fibo:LegalEntity",
        },
        OdooSeedRow {
            odoo_class: "account.move",
            pivot_uri: "fibo:Transaction",
            family: OdooFamily(0x81),
            slot: 1,
            dolce: DolceMarker::Perdurant,
            label_uri: "ogit.SMB:Invoice",
            provenance: "odoo account.move =owl:equivalentClass=> fibo:Transaction",
        },
        OdooSeedRow {
            odoo_class: "account.move.line",
            pivot_uri: "fibo:JournalEntryLine",
            family: OdooFamily(0x62),
            slot: 1,
            dolce: DolceMarker::Perdurant,
            label_uri: "ogit.SMBAccounting:JournalEntryLine",
            provenance: "odoo account.move.line =owl:equivalentClass=> fibo:JournalEntryLine",
        },
        OdooSeedRow {
            odoo_class: "account.account",
            pivot_uri: "fibo:Account",
            family: OdooFamily(0x62),
            slot: 2,
            dolce: DolceMarker::Endurant,
            label_uri: "ogit.SMBAccounting:Account",
            provenance: "odoo account.account =owl:equivalentClass=> fibo:Account",
        },
        OdooSeedRow {
            odoo_class: "account.account.template",
            pivot_uri: "fibo:Account",
            family: OdooFamily(0x62),
            slot: 3,
            dolce: DolceMarker::Endurant,
            label_uri: "ogit.SMBAccounting:SkrAccount",
            provenance: "SKR03/04 chart concept (odoo account.account.template) => fibo:Account",
        },
        OdooSeedRow {
            odoo_class: "product.template",
            pivot_uri: "schema:Product",
            family: OdooFamily(0x61),
            slot: 1,
            dolce: DolceMarker::Endurant,
            label_uri: "ogit.Billing:Product",
            provenance: "odoo product.template =owl:equivalentClass=> schema:Product",
        },
        OdooSeedRow {
            odoo_class: "product.product",
            pivot_uri: "schema:Product",
            family: OdooFamily(0x61),
            slot: 2,
            dolce: DolceMarker::Endurant,
            label_uri: "ogit.Billing:ProductVariant",
            provenance: "odoo product.product (variant) =owl:equivalentClass=> schema:Product",
        },
        OdooSeedRow {
            odoo_class: "product.pricelist",
            pivot_uri: "schema:PriceSpecification",
            family: OdooFamily(0x64),
            slot: 1,
            dolce: DolceMarker::Abstract,
            label_uri: "ogit.ProductCatalog:Pricelist",
            provenance: "odoo product.pricelist =owl:equivalentClass=> schema:PriceSpecification",
        },
        OdooSeedRow {
            odoo_class: "product.pricelist.item",
            pivot_uri: "schema:UnitPriceSpecification",
            family: OdooFamily(0x64),
            slot: 2,
            dolce: DolceMarker::Abstract,
            label_uri: "ogit.ProductCatalog:PricelistRule",
            provenance: "odoo product.pricelist.item =owl:equivalentClass=> schema:UnitPriceSpecification",
        },
        OdooSeedRow {
            odoo_class: "uom.uom",
            pivot_uri: "qudt:Unit",
            family: OdooFamily(0x64),
            slot: 3,
            dolce: DolceMarker::Quality,
            label_uri: "ogit.ProductCatalog:UnitOfMeasure",
            provenance: "odoo uom.uom =owl:equivalentClass=> qudt:Unit",
        },
        OdooSeedRow {
            odoo_class: "hr.employee",
            pivot_uri: "vcard:Individual",
            family: OdooFamily(0x90),
            slot: 1,
            dolce: DolceMarker::Endurant,
            label_uri: "ogit.HR:Employee",
            provenance: "odoo hr.employee =owl:equivalentClass=> vcard:Individual",
        },
        OdooSeedRow {
            odoo_class: "hr.department",
            pivot_uri: "org:OrganizationalUnit",
            family: OdooFamily(0x90),
            slot: 2,
            dolce: DolceMarker::Endurant,
            label_uri: "ogit.HR:Department",
            provenance: "odoo hr.department =owl:equivalentClass=> org:OrganizationalUnit",
        },
        OdooSeedRow {
            odoo_class: "hr.job",
            pivot_uri: "org:Role",
            family: OdooFamily(0x90),
            slot: 3,
            dolce: DolceMarker::Abstract,
            label_uri: "ogit.HR:Job",
            provenance: "odoo hr.job =owl:equivalentClass=> org:Role",
        },
        OdooSeedRow {
            odoo_class: "hr.contract",
            pivot_uri: "fibo:Contract",
            family: OdooFamily(0x90),
            slot: 4,
            dolce: DolceMarker::Abstract,
            label_uri: "ogit.HR:EmploymentContract",
            provenance: "odoo hr.contract (base, payroll is Enterprise/absent) =owl:equivalentClass=> fibo:Contract",
        },
    ]
}

/// The declared alignment rows, in declaration order.
pub fn odoo_seed() -> (rows: Vec<OdooSeedRow>)
    ensures
        rows@ == spec_seed(),
{
    let rows = vec![
        OdooSeedRow {
            odoo_class: "res.partner",
            pivot_uri: "fibo:LegalEntity",
            family: OdooFamily(0x80),
            slot: 1,
            dolce: DolceMarker::Endurant,
            label_uri: "ogit.SMB:Customer",
            provenance: "odoo res.partner (company facet) =owl:equivalentClass=> fibo:LegalEntity",
        },
        OdooSeedRow {
            odoo_class: "account.move",
            pivot_uri: "fibo:Transaction",
            family: OdooFamily(0x81),
            slot: 1,
            dolce: DolceMarker::Perdurant,
            label_uri: "ogit.SMB:Invoice",
            provenance: "odoo account.move =owl:equivalentClass=> fibo:Transaction",
        },
        OdooSeedRow {
            odoo_class: "account.move.line",
            pivot_uri: "fibo:JournalEntryLine",
            family: OdooFamily(0x62),
            slot: 1,
            dolce: DolceMarker::Perdurant,
            label_uri: "ogit.SMBAccounting:JournalEntryLine",
            provenance: "odoo account.move.line =owl:equivalentClass=> fibo:JournalEntryLine",
        },
        OdooSeedRow {
            odoo_class: "account.account",
            pivot_uri: "fibo:Account",
            family: OdooFamily(0x62),
            slot: 2,
            dolce: DolceMarker::Endurant,
            label_uri: "ogit.SMBAccounting:Account",
            provenance: "odoo account.account =owl:equivalentClass=> fibo:Account",
        },
        OdooSeedRow {
            odoo_class: "account.account.template",
            pivot_uri: "fibo:Account",
            family: OdooFamily(0x62),
            slot: 3,
            dolce: DolceMarker::Endurant,
            label_uri: "ogit.SMBAccounting:SkrAccount",
            provenance: "SKR03/04 chart concept (odoo account.account.template) => fibo:Account",
        },
        OdooSeedRow {
            odoo_class: "product.template",
            pivot_uri: "schema:Product",
            family: OdooFamily(0x61),
            slot: 1,
            dolce: DolceMarker::Endurant,
            label_uri: "ogit.Billing:Product",
            provenance: "odoo product.template =owl:equivalentClass=> schema:Product",
        },
        OdooSeedRow {
            odoo_class: "product.product",
            pivot_uri: "schema:Product",
            family: OdooFamily(0x61),
            slot: 2,
            dolce: DolceMarker::Endurant,
            label_uri: "ogit.Billing:ProductVariant",
            provenance: "odoo product.product (variant) =owl:equivalentClass=> schema:Product",
        },
        OdooSeedRow {
            odoo_class: "product.pricelist",
            pivot_uri: "schema:PriceSpecification",
            family: OdooFamily(0x64),
            slot: 1,
            dolce: DolceMarker::Abstract,
            label_uri: "ogit.ProductCatalog:Pricelist",
            provenance: "odoo product.pricelist =owl:equivalentClass=> schema:PriceSpecification",
        },
        OdooSeedRow {
            odoo_class: "product.pricelist.item",
            pivot_uri: "schema:UnitPriceSpecification",
            family: OdooFamily(0x64),
            slot: 2,
            dolce: DolceMarker::Abstract,
            label_uri: "ogit.ProductCatalog:PricelistRule",
            provenance: "odoo product.pricelist.item =owl:equivalentClass=> schema:UnitPriceSpecification",
        },
        OdooSeedRow {
            odoo_class: "uom.uom",
            pivot_uri: "qudt:Unit",
            family: OdooFamily(0x64),
            slot: 3,
            dolce: DolceMarker::Quality,
            label_uri: "ogit.ProductCatalog:UnitOfMeasure",
            provenance: "odoo uom.uom =owl:equivalentClass=> qudt:Unit",
        },
        OdooSeedRow {
            odoo_class: "hr.employee",
            pivot_uri: "vcard:Individual",
            family: OdooFamily(0x90),
            slot: 1,
            dolce: DolceMarker::Endurant,
            label_uri: "ogit.HR:Employee",
            provenance: "odoo hr.employee =owl:equivalentClass=> vcard:Individual",
        },
        OdooSeedRow {
            odoo_class: "hr.department",
            pivot_uri: "org:OrganizationalUnit",
            family: OdooFamily(0x90),
            slot: 2,
            dolce: DolceMarker::Endurant,
            label_uri: "ogit.HR:Department",
            provenance: "odoo hr.department =owl:equivalentClass=> org:OrganizationalUnit",
        },
        OdooSeedRow {
            odoo_class: "hr.job",
            pivot_uri: "org:Role",
            family: OdooFamily(0x90),
            slot: 3,
            dolce: DolceMarker::Abstract,
            label_uri: "ogit.HR:Job",
            provenance: "odoo hr.job =owl:equivalentClass=> org:Role",
        },
        OdooSeedRow {
            odoo_class: "hr.contract",
            pivot_uri: "fibo:Contract",
            family: OdooFamily(0x90),
            slot: 4,
            dolce: DolceMarker::Abstract,
            label_uri: "ogit.HR:EmploymentContract",
            provenance: "odoo hr.contract (base, payroll is Enterprise/absent) =owl:equivalentClass=> fibo:Contract",
        },
    ];
    assert(rows@ =~= spec_seed());
    rows
}

/// `i` is the first seed row whose class is `class`.
pub open spec fn is_first_row(class: Seq<char>, i: int) -> bool {
    &&& 0 <= i < spec_seed().len()
    &&& spec_seed()[i].odoo_class@ == class
    &&& forall|j: int| 0 <= j < i ==> spec_seed()[j].odoo_class@ != class
}

/// The first seed row whose class is `class`, if any.
pub open spec fn seed_row_of(class: Seq<char>) -> Option<OdooSeedRow> {
    if exists|i: int| is_first_row(class, i) {
        Some(spec_seed()[choose|i: int| is_first_row(class, i)])
    } else {
        None
    }
}

/// The pivot a seed row carries.
pub open spec fn pivot_of(row: OdooSeedRow, dolce: DolceMarker) -> OwlPivot {
    OwlPivot { pivot_uri: row.pivot_uri, family: row.family, slot: row.slot, dolce }
}

/// `resolve_odoo` over views: the exact seed row, else for a `product.*`
/// class the generic `product.template` slot with the class's own DOLCE
/// marker, else nothing.
pub open spec fn spec_resolve(class: Seq<char>) -> Option<OwlPivot> {
    match seed_row_of(class) {
        Some(row) => Some(pivot_of(row, row.dolce)),
        None => if has_prefix(class, "product."@) {
            match seed_row_of("product.template"@) {
                Some(row) => Some(pivot_of(row, spec_dolce(class))),
                None => None,
            }
        } else {
            None
        },
    }
}

proof fn lemma_first_row_unique(class: Seq<char>, i: int, k: int)
    requires
        is_first_row(class, i),
        is_first_row(class, k),
    ensures
        i == k,
{
}

/// The first seed row whose class equals `class`.
fn find_seed_row(rows: &Vec<OdooSeedRow>, class: &str) -> (res: Option<OdooSeedRow>)
    requires
        rows@ == spec_seed(),
    ensures
        res == seed_row_of(class@),
{
    let mut i: usize = 0;
    while i < rows.len()
        invariant
            rows@ == spec_seed(),
            i <= rows.len(),
            forall|j: int| 0 <= j < i ==> spec_seed()[j].odoo_class@ != class@,
        decreases rows.len() - i,
    {
        if str_eq(rows[i].odoo_class, class) {
            proof {
                assert(is_first_row(class@, i as int));
                let k = choose|k: int| is_first_row(class@, k);
                lemma_first_row_unique(class@, i as int, k);
            }
            return Some(rows[i]);
        }
        i += 1;
    }
    None
}

/// Resolve an Odoo class to its OWL pivot. Exact seed match first; then a
/// `product.*` prefix fallback onto the generic `product.template` row
/// (schema:Product / BillingCore) with the class's own DOLCE marker. `None`
/// for any class with no existing family.
pub fn resolve_odoo(class: &str) -> (res: Option<OwlPivot>)
    ensures
        res == spec_resolve(class@),
{
    let rows = odoo_seed();
    if let Some(row) = find_seed_row(&rows, class) {
        return Some(
            OwlPivot { pivot_uri: row.pivot_uri, family: row.family, slot: row.slot, dolce: row.dolce },
        );
    }
    if starts_with(class, "product.") {
        let row = find_seed_row(&rows, "product.template")?;
        return Some(
            OwlPivot {
                pivot_uri: row.pivot_uri,
                family: row.family,
                slot: row.slot,
                dolce: dolce_odoo(class),
            },
        );
    }
    None
}

/// The six registered family bytes.
pub open spec fn registered_family(f: OdooFamily) -> bool {
    f.0 == 0x61 || f.0 == 0x62 || f.0 == 0x64 || f.0 == 0x80 || f.0 == 0x81 || f.0 == 0x90
}

/// The seed is a lookup table: no two rows share an Odoo class, so every
/// seeded class resolves to its own row (pivot, family, slot and DOLCE
/// marker), and every row lives in one of the registered families.
pub proof fn law_seed_rows_resolve_to_themselves()
    ensures
        forall|i: int, j: int|
            0 <= i < j < spec_seed().len() ==> (#[trigger] spec_seed()[i]).odoo_class@ != (#[trigger] spec_seed()[j]).odoo_class@,
        forall|i: int|
            0 <= i < spec_seed().len() ==> spec_resolve((#[trigger] spec_seed()[i]).odoo_class@) == Some(
                pivot_of(spec_seed()[i], spec_seed()[i].dolce),
            ),
        forall|i: int| 0 <= i < spec_seed().len() ==> registered_family((#[trigger] spec_seed()[i]).family),
{
    reveal_strlit("res.partner");
    reveal_strlit("account.move");
    reveal_strlit("account.move.line");
    reveal_strlit("account.account");
    reveal_strlit("account.account.template");
    reveal_strlit("product.template");
    reveal_strlit("product.product");
    reveal_strlit("product.pricelist");
    reveal_strlit("product.pricelist.item");
    reveal_strlit("uom.uom");
    reveal_strlit("hr.employee");
    reveal_strlit("hr.department");
    reveal_strlit("hr.job");
    reveal_strlit("hr.contract");
    assert forall|i: int, j: int|
        0 <= i < j < spec_seed().len() implies (#[trigger] spec_seed()[i]).odoo_class@ != (#[trigger] spec_seed()[j]).odoo_class@ by {
        let a = spec_seed()[i].odoo_class@;
        let b = spec_seed()[j].odoo_class@;
        if a == b {
            assert(a.len() == b.len());
            assert(a[0] == b[0]);
            assert(a[a.len() - 1] == b[b.len() - 1]);
            assert(a[1] == b[1]);
            assert(a[8] == b[8]);
        }
    }
    assert forall|i: int| 0 <= i < spec_seed().len() implies spec_resolve((#[trigger] spec_seed()[i]).odoo_class@) == Some(
        pivot_of(spec_seed()[i], spec_seed()[i].dolce),
    ) by {
        let c = spec_seed()[i].odoo_class@;
        assert(is_first_row(c, i));
        let k = choose|k: int| is_first_row(c, k);
        lemma_first_row_unique(c, i, k);
    }
}

// ── classification laws ─────────────────────────────────────────────────────

/// The master-record special cases are Endurant whatever the suffix rules say.
pub proof fn law_dolce_master_records(class: Seq<char>)
    requires
        spec_strip_odoo_prefix(class) == "product.template"@ || spec_strip_odoo_prefix(class)
            == "account.account.template"@,
    ensures
        spec_dolce(class) == DolceMarker::Endurant,
{
}

/// Every documented transactional suffix makes a model a Perdurant, as does
/// `stock.move`, unless the model is a master-record special case.
pub proof fn law_dolce_perdurant_suffixes(class: Seq<char>, m: Seq<char>)
    requires
        m == spec_strip_odoo_prefix(class),
        m != "product.template"@,
        m != "account.account.template"@,
    ensures
        has_suffix(m, ".move.line"@) ==> spec_dolce(class) == DolceMarker::Perdurant,
        has_suffix(m, ".move"@) ==> spec_dolce(class) == DolceMarker::Perdurant,
        has_suffix(m, ".payment"@) ==> spec_dolce(class) == DolceMarker::Perdurant,
        has_suffix(m, ".order.line"@) ==> spec_dolce(class) == DolceMarker::Perdurant,
        has_suffix(m, ".order"@) ==> spec_dolce(class) == DolceMarker::Perdurant,
        has_suffix(m, ".message"@) ==> spec_dolce(class) == DolceMarker::Perdurant,
        has_suffix(m, ".activity"@) ==> spec_dolce(class) == DolceMarker::Perdurant,
        has_suffix(m, ".attendance"@) ==> spec_dolce(class) == DolceMarker::Perdurant,
        has_suffix(m, ".transition"@) ==> spec_dolce(class) == DolceMarker::Perdurant,
        has_suffix(m, ".event"@) ==> spec_dolce(class) == DolceMarker::Perdurant,
        has_suffix(m, ".log"@) ==> spec_dolce(class) == DolceMarker::Perdurant,
        has_suffix(m, ".history"@) ==> spec_dolce(class) == DolceMarker::Perdurant,
        has_suffix(m, ".transaction"@) ==> spec_dolce(class) == DolceMarker::Perdurant,
        has_suffix(m, ".picking"@) ==> spec_dolce(class) == DolceMarker::Perdurant,
        has_suffix(m, ".scrap"@) ==> spec_dolce(class) == DolceMarker::Perdurant,
        has_suffix(m, "bank.statement"@) ==> spec_dolce(class) == DolceMarker::Perdurant,
        m == "stock.move"@ ==> spec_dolce(class) == DolceMarker::Perdurant,
{
}

/// Every documented rule suffix makes a model Abstract, when no transactional
/// suffix applies and it is not a master-record special case.
pub proof fn law_dolce_abstract_suffixes(class: Seq<char>, m: Seq<char>)
    requires
        m == spec_strip_odoo_prefix(class),
        m != "product.template"@,
        m != "account.account.template"@,
        !perdurant_rule(m),
    ensures
        has_suffix(m, ".tax"@) ==> spec_dolce(class) == DolceMarker::Abstract,
        has_suffix(m, "fiscal.position"@) ==> spec_dolce(class) == DolceMarker::Abstract,
        has_suffix(m, "reconcile.model"@) ==> spec_dolce(class) == DolceMarker::Abstract,
        has_suffix(m, "payment.term"@) ==> spec_dolce(class) == DolceMarker::Abstract,
        has_suffix(m, ".pricelist.item"@) ==> spec_dolce(class) == DolceMarker::Abstract,
        has_suffix(m, ".pricelist"@) ==> spec_dolce(class) == DolceMarker::Abstract,
        has_suffix(m, ".template"@) ==> spec_dolce(class) == DolceMarker::Abstract,
        has_suffix(m, ".settings"@) ==> spec_dolce(class) == DolceMarker::Abstract,
        has_suffix(m, ".config"@) ==> spec_dolce(class) == DolceMarker::Abstract,
        has_suffix(m, ".policy"@) ==> spec_dolce(class) == DolceMarker::Abstract,
        has_suffix(m, ".rule"@) ==> spec_dolce(class) == DolceMarker::Abstract,
        has_suffix(m, ".formula"@) ==> spec_dolce(class) == DolceMarker::Abstract,
{
}

/// Every documented classification rule makes a model a Quality, when no
/// earlier rule group applies.
pub proof fn law_dolce_quality_rules(class: Seq<char>, m: Seq<char>)
    requires
        m == spec_strip_odoo_prefix(class),
        m != "product.template"@,
        m != "account.account.template"@,
        !perdurant_rule(m),
        !abstract_rule(m),
    ensures
        has_prefix(m, "uom."@) ==> spec_dolce(class) == DolceMarker::Quality,
        has_suffix(m, ".tag"@) ==> spec_dolce(class) == DolceMarker::Quality,
        has_suffix(m, ".type"@) ==> spec_dolce(class) == DolceMarker::Quality,
        has_suffix(m, ".groups"@) ==> spec_dolce(class) == DolceMarker::Quality,
        has_suffix(m, ".group"@) ==> spec_dolce(class) == DolceMarker::Quality,
        has_suffix(m, ".category"@) ==> spec_dolce(class) == DolceMarker::Quality,
{
}

/// The master-data fallbacks make a model Endurant, when no earlier rule
/// group applies; a model no rule matches is Unknown, never a default.
pub proof fn law_dolce_endurant_fallback(class: Seq<char>, m: Seq<char>)
    requires
        m == spec_strip_odoo_prefix(class),
        m != "product.template"@,
        m != "account.account.template"@,
        !perdurant_rule(m),
        !abstract_rule(m),
        !quality_rule(m),
    ensures
        has_prefix(m, "res."@) ==> spec_dolce(class) == DolceMarker::Endurant,
        has_suffix(m, ".account"@) ==> spec_dolce(class) == DolceMarker::Endurant,
        has_prefix(m, "product."@) ==> spec_dolce(class) == DolceMarker::Endurant,
        !endurant_rule(m) ==> spec_dolce(class) == DolceMarker::Unknown,
{
}

} // verus!
