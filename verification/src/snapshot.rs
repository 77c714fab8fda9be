//! Snapshots of the definitions of types.
//!
//! A snapshot is the pretty-printed definition of a type under a header. It
//! is written once, and from then on every build compares the definition
//! with it, so that a type that is stored on disk does not change unseen.

use vstd::prelude::*;
use vstd::string::*;

verus! {

/// What became of a snapshot.
#[derive(Debug, PartialEq, Eq)]
pub enum SnapshotAction {
    /// There is no snapshot yet: write this text.
    Write(String),
    /// The snapshot is the same as the definition.
    Unchanged,
    /// The snapshot differs from the definition.
    Changed,
}

/// The header of every snapshot.
pub open spec fn header() -> Seq<char> {
    "// A snapshot of the definition of a type that is stored on disk.\n// It is compared with the definition at every build; do not edit it.\n"@
}

/// The text of the snapshot of a definition that is pretty-printed as
/// `pretty`: the header, an empty line, and the definition.
pub open spec fn snapshot_text(pretty: Seq<char>) -> Seq<char> {
    header() + "\n\n"@ + pretty
}

/// The text of the snapshot of a definition that is pretty-printed as
/// `pretty`.
pub fn generate_snapshot(pretty: &str) -> (text: String)
    ensures
        text@ == snapshot_text(pretty@),
{
    let mut text = String::from_str(
        "// A snapshot of the definition of a type that is stored on disk.\n// It is compared with the definition at every build; do not edit it.\n",
    );
    text.append("\n\n");
    text.append(pretty);
    text
}

/// Compares the snapshot that was found, if any, with the snapshot of the
/// definition as it is now.
pub fn check_snapshot(persisted: Option<&str>, current: String) -> (action: SnapshotAction)
    ensures
        action == match persisted {
            None => SnapshotAction::Write(current),
            Some(text) => if text@ == current@ {
                SnapshotAction::Unchanged
            } else {
                SnapshotAction::Changed
            },
        },
{
    match persisted {
        None => SnapshotAction::Write(current),
        Some(text) => {
            if String::from_str(text) == current {
                SnapshotAction::Unchanged
            } else {
                SnapshotAction::Changed
            }
        },
    }
}

} // verus!
