use od_ontology::{
    dolce_odoo, family_billing_core, family_hr_foundation, family_product_catalog, family_smb_accounting,
    family_smb_foundry_customer, family_smb_foundry_invoice, odoo_bundle_id, odoo_inherits_from_fibofnd_v1,
    odoo_seed, resolve_odoo, strip_odoo_prefix, DolceMarker, ODOO_NAMESPACE_IRI,
};

#[test]
fn family_bytes_match_documented_registry() {
    assert_eq!(family_billing_core().raw(), 0x61, "BillingCore = 97");
    assert_eq!(family_smb_accounting().raw(), 0x62, "SMBAccounting = 98");
    assert_eq!(family_product_catalog().raw(), 0x64, "ProductCatalog = 100 (NOT 0x63 = MRORepair)");
    assert_eq!(family_smb_foundry_customer().raw(), 0x80, "SmbFoundryCustomer = 128");
    assert_eq!(family_smb_foundry_invoice().raw(), 0x81, "SmbFoundryInvoice = 129");
    assert_eq!(family_hr_foundation().raw(), 0x90, "HRFoundation = 144");
}

#[test]
fn no_seed_row_uses_an_unregistered_family() {
    const REGISTERED: &[u8] = &[0x61, 0x62, 0x64, 0x80, 0x81, 0x90];
    for row in odoo_seed() {
        assert!(
            REGISTERED.contains(&row.family.raw()),
            "seed row `{}` uses an unregistered family byte 0x{:02X}",
            row.odoo_class,
            row.family.raw()
        );
    }
}

#[test]
fn every_seed_pivot_uri_is_in_a_recognised_namespace() {
    const NAMESPACES: &[&str] = &["fibo:", "schema:", "qudt:", "vcard:", "org:"];
    for row in odoo_seed() {
        assert!(
            NAMESPACES.iter().any(|ns| row.pivot_uri.starts_with(ns)),
            "seed row `{}` has pivot_uri `{}` outside the recognised namespaces",
            row.odoo_class,
            row.pivot_uri
        );
    }
}

#[test]
fn pivot_namespace_and_family_are_consistent() {
    for row in odoo_seed() {
        let f = row.family;
        let p = row.pivot_uri;
        let ok = if f == family_smb_foundry_customer() {
            p.starts_with("fibo:")
        } else if f == family_smb_foundry_invoice() {
            p.starts_with("fibo:")
        } else if f == family_smb_accounting() {
            p.starts_with("fibo:")
        } else if f == family_billing_core() {
            p.starts_with("schema:")
        } else if f == family_product_catalog() {
            p.starts_with("schema:") || p.starts_with("qudt:")
        } else if f == family_hr_foundation() {
            p.starts_with("vcard:") || p.starts_with("org:") || p.starts_with("fibo:")
        } else {
            true
        };
        assert!(ok, "seed `{}` mismatch: pivot `{}` on family 0x{:02X}", row.odoo_class, p, f.raw());
    }
}

#[test]
fn dolce_classifier_perdurant_suffix_rules() {
    assert_eq!(dolce_odoo("account.move"), DolceMarker::Perdurant);
    assert_eq!(dolce_odoo("account.move.line"), DolceMarker::Perdurant);
    assert_eq!(dolce_odoo("account.payment"), DolceMarker::Perdurant);
    assert_eq!(dolce_odoo("sale.order"), DolceMarker::Perdurant);
    assert_eq!(dolce_odoo("sale.order.line"), DolceMarker::Perdurant);
    assert_eq!(dolce_odoo("stock.move"), DolceMarker::Perdurant);
    assert_eq!(dolce_odoo("stock.picking"), DolceMarker::Perdurant);
}

#[test]
fn dolce_classifier_abstract_suffix_rules() {
    assert_eq!(dolce_odoo("account.tax"), DolceMarker::Abstract);
    assert_eq!(dolce_odoo("account.fiscal.position"), DolceMarker::Abstract);
    assert_eq!(dolce_odoo("account.reconcile.model"), DolceMarker::Abstract);
    assert_eq!(dolce_odoo("account.payment.term"), DolceMarker::Abstract);
}

#[test]
fn dolce_classifier_quality_and_endurant_rules() {
    assert_eq!(dolce_odoo("uom.uom"), DolceMarker::Quality);
    assert_eq!(dolce_odoo("uom.category"), DolceMarker::Quality);
    assert_eq!(dolce_odoo("res.partner"), DolceMarker::Endurant);
    assert_eq!(dolce_odoo("res.users"), DolceMarker::Endurant);
    assert_eq!(dolce_odoo("account.account"), DolceMarker::Endurant);
    assert_eq!(dolce_odoo("product.template"), DolceMarker::Endurant);
    assert_eq!(dolce_odoo("product.product"), DolceMarker::Endurant);
}

#[test]
fn dolce_classifier_unknown_for_unmatched() {
    assert_eq!(dolce_odoo("ir.cron"), DolceMarker::Unknown);
    assert_eq!(dolce_odoo("ir.actions.act_window"), DolceMarker::Unknown);
}

#[test]
fn every_seed_rows_dolce_matches_its_classifier_assignment() {
    let mut gaps: Vec<(&'static str, DolceMarker, DolceMarker)> = Vec::new();
    for row in odoo_seed() {
        let classifier = dolce_odoo(row.odoo_class);
        if classifier != row.dolce && classifier != DolceMarker::Unknown {
            gaps.push((row.odoo_class, row.dolce, classifier));
        }
    }
    assert!(gaps.is_empty(), "classifier disagrees with the seed (NOT Unknown): {gaps:?}");
}

#[test]
fn resolve_odoo_exact_match_returns_seed_row() {
    let p = resolve_odoo("res.partner").expect("seeded");
    assert_eq!(p.pivot_uri, "fibo:LegalEntity");
    assert_eq!(p.family, family_smb_foundry_customer());
    assert_eq!(p.slot, 1);
    assert_eq!(p.dolce, DolceMarker::Endurant);

    let p = resolve_odoo("account.move").expect("seeded");
    assert_eq!(p.pivot_uri, "fibo:Transaction");
    assert_eq!(p.family, family_smb_foundry_invoice());

    let p = resolve_odoo("uom.uom").expect("seeded");
    assert_eq!(p.pivot_uri, "qudt:Unit");
    assert_eq!(p.family, family_product_catalog());
    assert_eq!(p.dolce, DolceMarker::Quality);
}

#[test]
fn resolve_odoo_unseen_product_subtype_inherits_generic_slot() {
    let p = resolve_odoo("product.category").expect("product.* prefix fallback");
    assert_eq!(p.pivot_uri, "schema:Product");
    assert_eq!(p.family, family_billing_core());
    assert_eq!(p.slot, 1);
}

#[test]
fn resolve_odoo_unmapped_returns_none() {
    assert!(resolve_odoo("stock.move").is_none());
    assert!(resolve_odoo("sale.order").is_none());
    assert!(resolve_odoo("account.reconcile.model").is_none());
}

#[test]
fn resolve_odoo_of_stripped_iri_matches_bare_class() {
    let plain = resolve_odoo("res.partner").unwrap();
    assert_eq!(resolve_odoo(strip_odoo_prefix("odoo:res.partner")), Some(plain));
    let full = format!("{}res.partner", ODOO_NAMESPACE_IRI);
    assert_eq!(resolve_odoo(strip_odoo_prefix(&full)), Some(plain));
    assert!(resolve_odoo("odoo:res.partner").is_none());
}

#[test]
fn strip_odoo_prefix_forms() {
    assert_eq!(strip_odoo_prefix("odoo:account.move"), "account.move");
    assert_eq!(strip_odoo_prefix("https://ada.world/onto/odoo#res.partner"), "res.partner");
    assert_eq!(strip_odoo_prefix("res.partner"), "res.partner");
    assert_eq!(strip_odoo_prefix("fibo:LegalEntity"), "fibo:LegalEntity");
    assert_eq!(strip_odoo_prefix("odoo:odoo:x"), "x");
    assert_eq!(strip_odoo_prefix("odoo:https://ada.world/onto/odoo#odoo:x"), "x");
    for s in ["odoo:odoo:res.partner", "res.partner", "https://ada.world/onto/odoo#odoo:uom.uom"] {
        assert_eq!(strip_odoo_prefix(strip_odoo_prefix(s)), strip_odoo_prefix(s));
    }
}

#[test]
fn seed_keys_resolve_to_their_own_rows() {
    for row in odoo_seed() {
        let p = resolve_odoo(row.odoo_class).expect("every seed key resolves");
        assert_eq!(p.pivot_uri, row.pivot_uri);
        assert_eq!(p.family, row.family);
        assert_eq!(p.slot, row.slot);
        assert_eq!(p.dolce, row.dolce);
    }
}

#[test]
fn bundle_ids_are_distinct() {
    assert_ne!(odoo_bundle_id(), odoo_inherits_from_fibofnd_v1());
}
