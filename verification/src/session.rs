//! What the window around the archive keeps track of: the tab of the side
//! bar that is shown, and the bulk operation that is under way.

use vstd::prelude::*;
use vstd::string::StringExecFns;

verus! {

/// The tabs of the side bar.
#[derive(Debug, Clone, Copy, PartialEq, Eq, Structural)]
pub enum SidebarTab {
    Notes,
    Trash,
}

impl Default for SidebarTab {
    fn default() -> (r: Self)
        ensures
            r == SidebarTab::Notes,
    {
        SidebarTab::Notes
    }
}

/// The bulk operations that read or write many notes at once.
#[derive(Debug, Clone, Copy, PartialEq, Eq, Structural)]
pub enum IoOperation {
    Import,
    Export,
}

/// The three texts, as mathematical values, for the operation `op`.
pub open spec fn labels_of(op: Option<IoOperation>) -> (Seq<char>, Seq<char>, Seq<char>) {
    match op {
        Some(IoOperation::Import) => (
            "Importing notes.."@,
            "Import in progress. Please wait.."@,
            "Import failed"@,
        ),
        Some(IoOperation::Export) => (
            "Exporting notes.."@,
            "Export in progress. Please wait.."@,
            "Export failed"@,
        ),
        None => (""@, ""@, ""@),
    }
}

/// The title, the message and the failure text that the progress window
/// shows while `op` is under way; three empty texts while nothing is.
pub fn io_labels(op: Option<IoOperation>) -> (r: (&'static str, &'static str, &'static str))
    ensures
        (r.0@, r.1@, r.2@) == labels_of(op),
{
    match op {
        Some(IoOperation::Import) => (
            "Importing notes..",
            "Import in progress. Please wait..",
            "Import failed",
        ),
        Some(IoOperation::Export) => (
            "Exporting notes..",
            "Export in progress. Please wait..",
            "Export failed",
        ),
        None => ("", "", ""),
    }
}

/// Whether the editor holds changes that the archive does not have yet.
pub fn should_save(original_content: &str, edited_content: &str) -> (r: bool)
    ensures
        r == (original_content@ != edited_content@),
{
    !crate::text::same_text(original_content, edited_content)
}

/// Whether the editor saves the note by itself when the user turns to
/// another note or leaves: a note is open, saving by itself is not
/// switched off, and the editor holds changes.
pub fn should_autosave(
    edited_note_id: Option<i64>,
    autosave: Option<bool>,
    original_content: &str,
    edited_content: &str,
) -> (r: bool)
    ensures
        r == (edited_note_id is Some && autosave != Some(false) && original_content@
            != edited_content@),
{
    let wanted = match autosave {
        Some(b) => b,
        None => true,
    };
    edited_note_id.is_some() && wanted && should_save(original_content, edited_content)
}

/// The name of a note as the tree shows it: with a star and a blank in
/// front while the note is selected and the editor holds changes.
pub open spec fn shown_name(name: Seq<char>, selected: bool, dirty: bool) -> Seq<char> {
    if selected && dirty {
        "* "@ + name
    } else {
        name
    }
}

/// The name of the note `name` as the tree shows it.
pub fn display_name(
    name: &str,
    selected: bool,
    original_content: &str,
    edited_content: &str,
) -> (r: String)
    ensures
        r@ == shown_name(name@, selected, original_content@ != edited_content@),
{
    if selected && should_save(original_content, edited_content) {
        let mut out = "* ".to_owned();
        out.append(name);
        out
    } else {
        name.to_owned()
    }
}

} // verus!
