use cluster_controller::snapshot::{check_snapshot, generate_snapshot, SnapshotAction};

#[test]
fn snapshot_is_header_blank_line_and_definition() {
    let text = generate_snapshot("struct A;\n");
    assert_eq!(
        text,
        "// A snapshot of the definition of a type that is stored on disk.\n\
         // It is compared with the definition at every build; do not edit it.\n\
         \n\nstruct A;\n"
    );
    assert!(generate_snapshot("").ends_with("do not edit it.\n\n\n"));
}

#[test]
fn missing_snapshot_is_written() {
    assert_eq!(check_snapshot(None, "x".to_string()), SnapshotAction::Write("x".to_string()));
}

#[test]
fn snapshot_is_compared() {
    assert_eq!(check_snapshot(Some("x"), "x".to_string()), SnapshotAction::Unchanged);
    assert_eq!(check_snapshot(Some("x "), "x".to_string()), SnapshotAction::Changed);
    assert_eq!(check_snapshot(Some(""), "x".to_string()), SnapshotAction::Changed);
}
