use od_ontology::triple::Triple;
use od_ontology::view_mask::{
    attr_value, extract_view_fields, field_universe, mint_mask, mint_wide_mask, MaskWords, WideMaskError,
    WIDE_MASK_CAP,
};

const MINI: &str = r#"
    <odoo>
      <record id="not_a_view" model="ir.actions.act_window">
        <field name="name">ignored</field>
      </record>
      <record id="v" model="ir.ui.view">
        <field name="name">demo.form</field>
        <field name="model">demo.model</field>
        <field name="arch" type="xml">
          <form>
            <!-- a comment with <field name="ghost"/> inside -->
            <field name="alpha"/>
            <field name="alpha"/>
            <field name="line_ids">
              <list>
                <field name="qty"/>
                <field name="qty"/>
              </list>
            </field>
            <field name="beta" invisible="state != 'draft'"/>
          </form>
        </field>
      </record>
    </odoo>
"#;

#[test]
fn mini_view_parses_with_strata() {
    let views = extract_view_fields(MINI);
    assert_eq!(views.len(), 1, "non-view record must be skipped");
    let v = &views[0];
    assert_eq!(v.view_name, "demo.form");
    assert_eq!(v.model, "demo.model");
    assert_eq!(v.fields, vec!["alpha", "line_ids", "beta"]);
    assert_eq!(v.relation_hops, vec![("line_ids".to_string(), "qty".to_string())]);
}

#[test]
fn mask_roundtrip_small() {
    let universe: Vec<String> = (0..70).map(|i| format!("f{i:02}")).collect();
    let present = vec!["f00".to_string(), "f63".to_string(), "f69".to_string()];
    let mask = mint_mask(&universe, &present);
    assert_eq!(mask.0.len(), 2);
    assert_eq!(mask.popcount(), 3);
    assert!(mask.is_set(0) && mask.is_set(63) && mask.is_set(69));
    assert!(!mask.is_set(1) && !mask.is_set(64) && !mask.is_set(9999));
}

#[test]
fn attr_value_respects_word_boundary() {
    let tag = r#"<field inverse_name="move_id" name="line_ids">"#;
    assert_eq!(attr_value(tag, "name"), Some("line_ids"));
}

#[test]
fn wide_mask_refuses_universe_over_soc_cap() {
    // Positions are u8: 256 is the hard cap. A 257-field universe must be a
    // loud refusal, never a silent truncation.
    let universe: Vec<String> = (0..257).map(|i| format!("f{i:03}")).collect();
    let err = mint_wide_mask(&universe, &[]).expect_err("257-field universe must be refused");
    assert_eq!(err, WideMaskError::UniverseExceedsSocCap { fields: 257 });
}

#[test]
fn wide_mask_at_the_cap_matches_mint_mask() {
    let universe: Vec<String> = (0..WIDE_MASK_CAP).map(|i| format!("f{i:03}")).collect();
    let present = vec!["f000".to_string(), "f200".to_string(), "f255".to_string(), "zzz".to_string()];
    let wide = mint_wide_mask(&universe, &present).unwrap();
    let words = mint_mask(&universe, &present);
    assert_eq!(wide, words);
    assert_eq!(wide.0.len(), 4);
    assert_eq!(wide.popcount(), 3);
    assert!(wide.is_set(200) && wide.is_set(255));
}

#[test]
fn empty_universe_mints_no_words() {
    let mask = mint_mask(&[], &["a".to_string()]);
    assert_eq!(mask, MaskWords(vec![]));
    assert_eq!(mask.popcount(), 0);
    assert!(!mask.is_set(0));
}

#[test]
fn attr_value_absent_and_empty() {
    assert_eq!(attr_value(r#"<field inverse_name="x">"#, "name"), None);
    assert_eq!(attr_value(r#"<field name="">"#, "name"), Some(""));
    assert_eq!(attr_value(r#"<record model="ir.ui.view" id="v">"#, "model"), Some("ir.ui.view"));
}

#[test]
fn field_universe_is_sorted_direct_properties() {
    let triples = vec![
        Triple::new("odoo:account_move.name", "rdf:type", "ogit:Property"),
        Triple::new("odoo:account_move.amount", "rdf:type", "ogit:Property"),
        Triple::new("odoo:account_move.name", "rdf:type", "ogit:Property"),
        Triple::new("odoo:account_move.line_ids.balance", "rdf:type", "ogit:Property"),
        Triple::new("odoo:res_partner.email", "rdf:type", "ogit:Property"),
        Triple::new("odoo:account_move", "rdf:type", "ogit:ObjectType"),
    ];
    assert_eq!(field_universe(&triples, "account_move"), vec!["amount".to_string(), "name".to_string()]);
    assert!(field_universe(&triples, "sale_order").is_empty());
}

#[test]
fn self_closing_and_nested_views() {
    let xml = r#"
      <record id="a" model="ir.ui.view"/>
      <record id="b" model="ir.ui.view">
        <field name="name">b.form</field>
        <field name="model">b.model</field>
        <field name="arch" type="xml">
          <form><field name="x"/><field name="x"/></form>
        </field>
      </record>"#;
    let views = extract_view_fields(xml);
    assert_eq!(views.len(), 1);
    assert_eq!(views[0].view_name, "b.form");
    assert_eq!(views[0].fields, vec!["x".to_string()]);
    assert!(views[0].relation_hops.is_empty());
}
