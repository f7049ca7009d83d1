use od_ontology::serve::{codegen_flag, reply_for_exit, ReplyStream};

#[test]
fn only_documented_modes_select_a_flag() {
    assert_eq!(codegen_flag("classids"), Some("--classids"));
    assert_eq!(codegen_flag("actions"), Some("--actions"));
    assert_eq!(codegen_flag("schema"), None);
    assert_eq!(codegen_flag(""), None);
}

#[test]
fn exit_status_maps_onto_http() {
    assert_eq!(reply_for_exit(Some(0)), (200, ReplyStream::Stdout));
    assert_eq!(reply_for_exit(Some(2)), (422, ReplyStream::Stderr));
    assert_eq!(reply_for_exit(Some(1)), (500, ReplyStream::Stderr));
    assert_eq!(reply_for_exit(None), (500, ReplyStream::Stderr));
}
