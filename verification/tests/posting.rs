use od_ontology::posting::{MoveDraft, PostedMove, PostingHost};

struct NoopHost;

impl PostingHost for NoopHost {
    type Error = &'static str;

    fn post(&self, _draft: &MoveDraft<'_>) -> Result<PostedMove, Self::Error> {
        Err("od-posting: skeleton crate — no runtime host wired yet")
    }
}

#[test]
fn skeleton_trait_compiles() {
    let host = NoopHost;
    let draft = MoveDraft::new("j1", "INV/2026/", b"{}");
    let outcome = host.post(&draft);
    assert!(outcome.is_err(), "skeleton must refuse — no client wired");
}

#[test]
fn move_draft_keeps_its_parts() {
    let d = MoveDraft::new("j1", "INV/2026/", b"{\"a\":1}");
    assert_eq!(d.journal_id, "j1");
    assert_eq!(d.sequence_prefix, "INV/2026/");
    assert_eq!(d.canonical_row, b"{\"a\":1}");
}
