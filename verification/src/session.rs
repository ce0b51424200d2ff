//! The small decisions around a bulk rename: which editor to start, how to
//! read the user's answer, what the log file is called.

use vstd::prelude::*;
use vstd::string::StringExecFns;

verus! {

/// What the user is told when every file has been renamed.
pub const RENAMED: &'static str = "Files renamed successfully.";

/// What the user is told when they decline the renames.
pub const ABORTED: &'static str = "Aborted.";

/// What the user is told when the edit changed nothing.
pub const NOTHING_TO_RENAME: &'static str = "No files to rename.";

/// The question that is put to the user below the renames.
pub const QUESTION: &'static str = "\nRename: [Y/n]? ";

/// The flag that makes VS Code wait until the file is closed.
pub const WAIT_FLAG: &'static str = "--wait";

/// Whether the reply to the question accepts the renames: an empty reply
/// does, and so does the letter `y` in either case.
pub fn prompt_accepts(reply: &str) -> (accepted: bool)
    ensures
        accepted <==> reply@.len() == 0 || reply@ == seq!['y'] || reply@ == seq!['Y'],
{
    let n = reply.unicode_len();
    if n == 0 {
        true
    } else if n == 1 {
        let c = reply.get_char(0);
        proof {
            assert(reply@ =~= seq![c]);
        }
        c == 'y' || c == 'Y'
    } else {
        false
    }
}

/// The editor to start: VS Code where the user asks for it or names no
/// editor, else the editor that the user names.
pub fn choose_editor(use_vscode: bool, editor: Option<String>, vs_code: &str) -> (name: String)
    ensures
        name@ == (if !use_vscode && editor is Some {
            editor->0@
        } else {
            vs_code@
        }),
{
    match (use_vscode, editor) {
        (false, Some(editor)) => editor,
        _ => String::from_str(vs_code),
    }
}

/// Whether the editor is VS Code, which has to be told to wait with
/// [`WAIT_FLAG`] until the user closes the file.
pub fn editor_needs_wait_flag(editor_name: &str, vs_code: &str) -> (needed: bool)
    ensures
        needed <==> editor_name@ == vs_code@,
{
    let n = editor_name.unicode_len();
    if n != vs_code.unicode_len() {
        return false;
    }
    let mut i: usize = 0;
    while i < n
        invariant
            0 <= i <= n,
            n == editor_name@.len(),
            n == vs_code@.len(),
            forall|k: int| 0 <= k < i ==> editor_name@[k] == vs_code@[k],
        decreases n - i,
    {
        if editor_name.get_char(i) != vs_code.get_char(i) {
            return false;
        }
        i += 1;
    }
    proof {
        assert(editor_name@ =~= vs_code@);
    }
    true
}

/// The name of the log file of a run that began at `timestamp`.
pub fn log_file_name(timestamp: &str) -> (name: String)
    ensures
        name@ == "bumv_"@ + timestamp@ + ".log"@,
{
    let mut name = String::from_str("bumv_");
    name.append(timestamp);
    name.append(".log");
    name
}

} // verus!
