use od_ontology::mro::{Mro, MroError};
use od_ontology::InheritanceMap;
use od_ontology::triple::Triple;

fn t(s: &str, p: &str, o: &str) -> Triple {
    Triple::new(s, p, o)
}

#[test]
fn f1a_single_chain_escalates_to_parent_and_fires_locally() {
    let triples = vec![
        t("odoo:account_move", "inherits_from", "odoo:mail_thread"),
        t("odoo:mail_thread", "has_function", "odoo:mail_thread.message_post"),
        t("odoo:account_move", "has_function", "odoo:account_move.action_post"),
    ];
    let mro = Mro::from_triples(&triples);

    let lin = mro.linearize("account_move").expect("chain linearizes");
    assert_eq!(lin, ["account_move", "mail_thread"]);
    assert_eq!(mro.resolve_c3("account_move", "message_post"), Some("mail_thread"));
    assert_eq!(mro.resolve_c3("account_move", "action_post"), Some("account_move"));
    assert_eq!(mro.resolve_naive_dfs("account_move", "message_post"), Some("mail_thread"));
    assert_eq!(mro.resolve_naive_dfs("account_move", "action_post"), Some("account_move"));
}

#[test]
fn f1b_diamond_c3_diverges_from_naive_dfs() {
    let triples = vec![
        t("odoo:d", "inherits_from", "odoo:b"),
        t("odoo:d", "inherits_from", "odoo:c"),
        t("odoo:b", "inherits_from", "odoo:a"),
        t("odoo:c", "inherits_from", "odoo:a"),
        t("odoo:a", "has_function", "odoo:a.m"),
        t("odoo:c", "has_function", "odoo:c.m"),
    ];
    let mro = Mro::from_triples(&triples);
    assert_eq!(mro.linearize("d").expect("diamond linearizes"), ["d", "b", "c", "a"]);
    let c3 = mro.resolve_c3("d", "m");
    assert_eq!(c3, Some("c"), "C3 must pick C");
    let dfs = mro.resolve_naive_dfs("d", "m");
    assert_eq!(dfs, Some("a"), "naive DFS reaches the apex through B first");
    assert_ne!(c3, dfs, "diamond must expose C3 vs naive-DFS divergence");
}

#[test]
fn inconsistent_base_order_is_refused() {
    // x declares mail_thread before rating_mixin, whose own MRO already holds
    // mail_thread: C3 has no consistent answer.
    let triples = vec![
        t("odoo:x", "inherits_from", "odoo:mail_thread"),
        t("odoo:x", "inherits_from", "odoo:rating_mixin"),
        t("odoo:rating_mixin", "inherits_from", "odoo:mail_thread"),
        t("odoo:mail_thread", "has_function", "odoo:mail_thread.message_post"),
    ];
    let mro = Mro::from_triples(&triples);
    let err = mro.linearize("x").unwrap_err();
    assert_eq!(err, MroError::Inconsistent { class: "x".to_string() });
    assert_eq!(err.message(), "no consistent C3 linearization for `x`");
    assert_eq!(mro.resolve_c3("x", "message_post"), None);
    assert_eq!(mro.resolve_naive_dfs("x", "message_post"), Some("mail_thread"));
}

#[test]
fn inherits_cycle_is_refused() {
    let triples = vec![t("odoo:a", "inherits_from", "odoo:b"), t("odoo:b", "inherits_from", "odoo:a")];
    let mro = Mro::from_triples(&triples);
    let err = mro.linearize("a").unwrap_err();
    assert_eq!(err, MroError::Cycle { class: "a".to_string() });
    assert_eq!(err.message(), "inherits_from cycle through `a`");
}

#[test]
fn graph_accessors_follow_declaration_order() {
    let triples = vec![
        t("odoo:d", "inherits_from", "odoo:c"),
        t("odoo:d", "inherits_from", "odoo:b"),
        t("odoo:d", "inherits_from", "odoo:c"),
        t("odoo:d.x", "inherits_from", "odoo:z"),
        t("odoo:d", "has_function", "odoo:d.beta"),
        t("odoo:d", "has_function", "odoo:d.alpha"),
    ];
    let mro = Mro::from_triples(&triples);
    assert_eq!(mro.declared_bases("d"), ["c".to_string(), "b".to_string()]);
    assert!(mro.declared_bases("b").is_empty());
    assert_eq!(mro.own_method_names("d"), vec!["alpha", "beta"]);
    assert!(mro.own_method_names("c").is_empty());
    assert_eq!(mro.classes(), vec!["b", "c", "d"]);
    assert_eq!(mro.linearize("d").unwrap(), ["d", "c", "b"]);
}

#[test]
fn unknown_class_linearizes_to_itself() {
    let mro = Mro::from_triples(&[]);
    assert_eq!(mro.linearize("ghost").unwrap(), ["ghost"]);
    assert_eq!(mro.resolve_c3("ghost", "m"), None);
    assert_eq!(mro.resolve_naive_dfs("ghost", "m"), None);
}

#[test]
fn declared_bases_agree_with_the_inheritance_map() {
    let triples = vec![
        t("odoo:account_move", "inherits_from", "odoo:portal_mixin"),
        t("odoo:account_move", "inherits_from", "odoo:mail_thread"),
        t("odoo:account_move", "inherits_from", "odoo:portal_mixin"),
    ];
    let mro = Mro::from_triples(&triples);
    let map = InheritanceMap::from_corpus(&triples);
    let mut declared: Vec<&str> = mro.declared_bases("account_move").iter().map(|s| s.as_str()).collect();
    assert_eq!(declared, vec!["portal_mixin", "mail_thread"]);
    declared.sort();
    assert_eq!(declared, map.bases("account_move"));
}

#[test]
fn linearization_is_monotonic_over_base_linearizations() {
    // e inherits the diamond d (d(b, c), b(a), c(a)) and a separate mixin x.
    let triples = vec![
        t("odoo:e", "inherits_from", "odoo:d"),
        t("odoo:e", "inherits_from", "odoo:x"),
        t("odoo:d", "inherits_from", "odoo:b"),
        t("odoo:d", "inherits_from", "odoo:c"),
        t("odoo:b", "inherits_from", "odoo:a"),
        t("odoo:c", "inherits_from", "odoo:a"),
    ];
    let mro = Mro::from_triples(&triples);
    let ld = mro.linearize("d").unwrap();
    let le = mro.linearize("e").unwrap();
    assert_eq!(le, ["e", "d", "b", "c", "a", "x"]);
    let pos = |l: &Vec<String>, x: &str| l.iter().position(|y| y == x).unwrap();
    for i in 0..ld.len() {
        for j in i + 1..ld.len() {
            assert!(pos(&le, &ld[i]) < pos(&le, &ld[j]));
        }
    }
}

#[test]
fn classes_in_any_namespace_take_part() {
    let triples = vec![
        t("ogit:x", "inherits_from", "ogit:y"),
        t("ogit:y", "has_function", "ogit:y.run"),
        t("ogit:x.f", "inherits_from", "ogit:z"),
        t("plain", "inherits_from", "odoo:y"),
    ];
    let mro = Mro::from_triples(&triples);
    assert_eq!(mro.declared_bases("x"), ["y".to_string()]);
    assert_eq!(mro.declared_bases("plain"), ["y".to_string()]);
    assert_eq!(mro.classes(), vec!["plain", "x", "y"]);
    assert_eq!(mro.linearize("x").unwrap(), ["x", "y"]);
    assert_eq!(mro.resolve_c3("x", "run"), Some("y"));
    assert!(InheritanceMap::from_corpus(&triples).bases("x").is_empty());
}
