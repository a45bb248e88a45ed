use propcell::ops::{BinaryOp, SatAdd};
use propcell::rpc::{parse_rpc_method, reply_for, Reply, RpcInterface};

#[test]
fn path_with_method_and_params() {
    assert_eq!(parse_rpc_method("/foo/bar"), Some(("foo", "bar")));
}

#[test]
fn path_with_nested_params() {
    assert_eq!(parse_rpc_method("/a/b/c"), Some(("a", "b/c")));
}

#[test]
fn path_without_params() {
    assert_eq!(parse_rpc_method("/foo"), Some(("foo", "")));
}

#[test]
fn bare_slash_has_empty_method() {
    assert_eq!(parse_rpc_method("/"), Some(("", "")));
}

#[test]
fn path_without_leading_slash_is_rejected() {
    assert_eq!(parse_rpc_method("foo/bar"), None);
    assert_eq!(parse_rpc_method(""), None);
}

#[test]
fn entity_query_gets_a_record() {
    match reply_for("entity:widget", 5) {
        Reply::Record(e) => {
            assert_eq!(e.name, "test");
            assert_eq!(e.id, 5);
        }
        Reply::Ack => panic!("expected a record"),
    }
}

#[test]
fn other_messages_get_the_acknowledgement() {
    assert!(matches!(reply_for("hello", 1), Reply::Ack));
    assert!(matches!(reply_for("entity", 1), Reply::Ack));
    assert!(matches!(reply_for("", 1), Reply::Ack));
}

#[test]
fn vector_rpc_acknowledges_with_empty_reply() {
    let mut v: Vec<i64> = vec![1, 2, 3];
    assert_eq!(v.rpc("/len", ""), "");
    assert_eq!(v.rpc_mut("/clear", ""), "");
}

#[test]
fn saturating_add_clamps_at_the_edges() {
    assert_eq!(SatAdd.apply(2, 3), 5);
    assert_eq!(SatAdd.apply(i64::MAX, 1), i64::MAX);
    assert_eq!(SatAdd.apply(i64::MIN, -1), i64::MIN);
    assert_eq!(SatAdd.apply(-2, 5), 3);
}
