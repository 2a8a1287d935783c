//! Merging a rewritten tree into a directory that already holds files.
//!
//! The caller walks the source tree, reads what the merge needs and carries
//! out what it decides. This module decides: which entries count, what
//! becomes of a file that is already there, and under which names an
//! incoming file that cannot be merged is put beside it.

use vstd::prelude::*;
use vstd::string::StringExecFns;
use vstd::utf8::{decode_utf8, encode_utf8};

use crate::names::{first_free, first_free_name, lemma_first_free};
use crate::rewrite::{bytes_to_text, in_vcs, is_text, is_vcs_path};

verus! {

// ---------------------------------------------------------------------------
// Entries
// ---------------------------------------------------------------------------

/// What the walk found at a path.
#[derive(Clone, Copy, Debug, PartialEq, Eq)]
pub enum EntryKind {
    /// A directory.
    Directory,
    /// A regular file.
    File,
    /// Anything else, such as a link.
    Other,
}

/// What the merge does with an entry of the source tree.
#[derive(Clone, Copy, Debug, PartialEq, Eq)]
pub enum EntryAction {
    /// Nothing.
    Skip,
    /// See to it that the directory exists at the destination.
    EnsureDirectory,
    /// Merge the file into the destination.
    MergeFile,
}

/// What the merge does with an entry of kind `kind`: version-control
/// metadata and the root of the source tree are skipped, and so is what is
/// neither a directory nor a regular file.
pub open spec fn action_for(kind: EntryKind, components: Seq<Seq<char>>, is_root: bool)
    -> EntryAction {
    if in_vcs(components) || is_root {
        EntryAction::Skip
    } else {
        match kind {
            EntryKind::Directory => EntryAction::EnsureDirectory,
            EntryKind::File => EntryAction::MergeFile,
            EntryKind::Other => EntryAction::Skip,
        }
    }
}

/// What the merge does with the entry of the source tree whose path has the
/// given components. `is_root` says that the entry is the source directory
/// itself.
pub fn entry_action(kind: EntryKind, components: &[String], is_root: bool) -> (action: EntryAction)
    ensures
        action == action_for(kind, components.deep_view(), is_root),
{
    if is_vcs_path(components) || is_root {
        EntryAction::Skip
    } else {
        match kind {
            EntryKind::Directory => EntryAction::EnsureDirectory,
            EntryKind::File => EntryAction::MergeFile,
            EntryKind::Other => EntryAction::Skip,
        }
    }
}

// ---------------------------------------------------------------------------
// The plan for one file
// ---------------------------------------------------------------------------

/// What is to be done about one incoming file.
#[derive(Clone, Debug, PartialEq, Eq)]
pub enum MergePlan {
    /// The destination holds the same bytes: nothing is written.
    Unchanged,
    /// The destination has no such file: the incoming file is copied there.
    Add,
    /// Both files are text: the destination file is replaced by `content`,
    /// which holds both texts between conflict markers.
    Merged { content: String },
    /// One of the files is not text: the destination file stays as it is,
    /// the incoming bytes are written beside it under `incoming_name`, and a
    /// note on the conflict under `conflict_name`.
    Sidecars { incoming_name: String, conflict_name: String },
}

/// A [`MergePlan`] with its texts as sequences of characters.
pub enum MergePlanView {
    Unchanged,
    Add,
    Merged { content: Seq<char> },
    Sidecars { incoming_name: Seq<char>, conflict_name: Seq<char> },
}

impl View for MergePlan {
    type V = MergePlanView;

    open spec fn view(&self) -> MergePlanView {
        match self {
            MergePlan::Unchanged => MergePlanView::Unchanged,
            MergePlan::Add => MergePlanView::Add,
            MergePlan::Merged { content } => MergePlanView::Merged { content: content@ },
            MergePlan::Sidecars { incoming_name, conflict_name } => MergePlanView::Sidecars {
                incoming_name: incoming_name@,
                conflict_name: conflict_name@,
            },
        }
    }
}

/// The two texts of a conflict in one: the existing text and the incoming
/// text, each under its label.
pub open spec fn merged_text(existing: Seq<char>, incoming: Seq<char>) -> Seq<char> {
    "<<<<<<< EXISTING\n"@ + existing + "\n=======\n"@ + incoming + "\n>>>>>>> TEMPLATE\n"@
}

/// The note that is left where an incoming file could not be merged: where
/// the existing file is, and where the incoming one was put.
pub open spec fn conflict_note_text(kept_at: Seq<char>, saved_at: Seq<char>) -> Seq<char> {
    "<<<<<<< EXISTING\n(binary file kept at "@ + kept_at
        + ")\n=======\n(binary incoming saved at "@ + saved_at + ")\n>>>>>>> TEMPLATE\n"@
}

/// The file name that sidecar names are built on: the name itself, or
/// `file` where the entry has no name that is text.
pub open spec fn name_or_default(file_name: Option<Seq<char>>) -> Seq<char> {
    match file_name {
        Some(n) => n,
        None => "file"@,
    }
}

/// The sidecar name for `file_name` with `suffix`: the file name and the
/// suffix, or if that is taken, those two and the lowest number from 1 on
/// that makes the name free.
pub open spec fn sidecar_name(
    file_name: Option<Seq<char>>,
    suffix: Seq<char>,
    siblings: Seq<Seq<char>>,
) -> Seq<char> {
    first_free(name_or_default(file_name) + suffix, Seq::empty(), siblings)
}

/// The plan for an incoming file with bytes `incoming`, where the
/// destination holds `existing` under `file_name`, in a directory with the
/// names `siblings`.
pub open spec fn merge_plan_of(
    file_name: Option<Seq<char>>,
    incoming: Seq<u8>,
    existing: Option<Seq<u8>>,
    siblings: Seq<Seq<char>>,
) -> MergePlanView {
    match existing {
        None => MergePlanView::Add,
        Some(e) => if e == incoming {
            MergePlanView::Unchanged
        } else if is_text(incoming) && is_text(e) {
            MergePlanView::Merged { content: merged_text(decode_utf8(e), decode_utf8(incoming)) }
        } else {
            MergePlanView::Sidecars {
                incoming_name: sidecar_name(file_name, ".liscaf-incoming"@, siblings),
                conflict_name: sidecar_name(file_name, ".liscaf-conflict"@, siblings),
            }
        },
    }
}

/// The bytes that the destination holds, if it holds the file.
pub open spec fn held(existing: Option<&[u8]>) -> Option<Seq<u8>> {
    match existing {
        Some(e) => Some(e@),
        None => None,
    }
}

/// Whether `a` and `b` hold the same bytes.
fn same_bytes(a: &[u8], b: &[u8]) -> (r: bool)
    ensures
        r == (a@ == b@),
{
    if a.len() != b.len() {
        return false;
    }
    let mut i: usize = 0;
    while i < a.len()
        invariant
            i <= a.len(),
            a.len() == b.len(),
            forall|j: int| 0 <= j < i ==> a@[j] == b@[j],
        decreases a.len() - i,
    {
        if a[i] != b[i] {
            return false;
        }
        i += 1;
    }
    assert(a@ =~= b@);
    true
}

/// The name under which something is put beside the file `file_name`:
/// the file name with `suffix`, or if a sibling has that name, with `suffix`
/// and the lowest number from 1 on that no sibling has. An entry without a
/// name that is text is treated as if it were called `file`.
pub fn unique_suffixed_path(file_name: Option<&str>, suffix: &str, siblings: &[String]) -> (name:
    String)
    ensures
        name@ == sidecar_name(file_name.deep_view(), suffix@, siblings.deep_view()),
{
    let mut base = String::new();
    match file_name {
        Some(n) => {
            base.append(n);
        },
        None => {
            base.append("file");
        },
    }
    base.append(suffix);
    proof {
        reveal_strlit("");
        assert(""@ =~= Seq::<char>::empty());
        assert(base@ =~= name_or_default(file_name.deep_view()) + suffix@);
    }
    first_free_name(base.as_str(), "", siblings)
}

/// The content that replaces a text file in conflict: the existing text and
/// the incoming text, each under its label.
pub fn merge_texts(existing: &str, incoming: &str) -> (content: String)
    ensures
        content@ == merged_text(existing@, incoming@),
{
    let mut content = String::new();
    content.append("<<<<<<< EXISTING\n");
    content.append(existing);
    content.append("\n=======\n");
    content.append(incoming);
    content.append("\n>>>>>>> TEMPLATE\n");
    assert(content@ =~= merged_text(existing@, incoming@));
    content
}

/// The note that is written beside a file that could not be merged.
/// `kept_at` is the path of the existing file and `saved_at` the path under
/// which the incoming bytes were put.
pub fn conflict_note(kept_at: &str, saved_at: &str) -> (note: String)
    ensures
        note@ == conflict_note_text(kept_at@, saved_at@),
{
    let mut note = String::new();
    note.append("<<<<<<< EXISTING\n(binary file kept at ");
    note.append(kept_at);
    note.append(")\n=======\n(binary incoming saved at ");
    note.append(saved_at);
    note.append(")\n>>>>>>> TEMPLATE\n");
    assert(note@ =~= conflict_note_text(kept_at@, saved_at@));
    note
}

/// The plan for one incoming file. `existing` is what the destination holds
/// under the file's name, if anything; `siblings` are the names in the
/// destination directory.
///
/// A file that is not there yet is added. One that is there with the same
/// bytes is left alone. Where the bytes differ and both sides are text, the
/// two texts are merged into one with conflict markers. Otherwise the
/// existing file is kept and two sidecar names are chosen: one for the
/// incoming bytes, one for a note.
pub fn plan_file_merge(
    file_name: Option<&str>,
    incoming: &[u8],
    existing: Option<&[u8]>,
    siblings: &[String],
) -> (plan: MergePlan)
    ensures
        plan@ == merge_plan_of(
            file_name.deep_view(),
            incoming@,
            held(existing),
            siblings.deep_view(),
        ),
{
    match existing {
        None => MergePlan::Add,
        Some(e) => {
            if same_bytes(e, incoming) {
                return MergePlan::Unchanged;
            }
            let incoming_text = bytes_to_text(incoming);
            let existing_text = bytes_to_text(e);
            match (incoming_text, existing_text) {
                (Some(i), Some(x)) => MergePlan::Merged {
                    content: merge_texts(x.as_str(), i.as_str()),
                },
                _ => {
                    let incoming_name = unique_suffixed_path(file_name, ".liscaf-incoming", siblings);
                    let conflict_name = unique_suffixed_path(file_name, ".liscaf-conflict", siblings);
                    MergePlan::Sidecars { incoming_name, conflict_name }
                },
            }
        },
    }
}

// ---------------------------------------------------------------------------
// What a plan does to a directory
// ---------------------------------------------------------------------------

/// The files of a directory: what each name in it holds.
pub type Files = Map<Seq<char>, Seq<u8>>;

/// The files of a directory after `plan` was carried out for the incoming
/// file `file_name`. `note` is what is written as the note on a conflict.
pub open spec fn carried_out(
    files: Files,
    file_name: Seq<char>,
    incoming: Seq<u8>,
    plan: MergePlanView,
    note: Seq<u8>,
) -> Files {
    match plan {
        MergePlanView::Unchanged => files,
        MergePlanView::Add => files.insert(file_name, incoming),
        MergePlanView::Merged { content } => files.insert(file_name, encode_utf8(content)),
        MergePlanView::Sidecars { incoming_name, conflict_name } => files.insert(
            incoming_name,
            incoming,
        ).insert(conflict_name, note),
    }
}

/// `siblings` are the names of `files`.
pub open spec fn lists(siblings: Seq<Seq<char>>, files: Files) -> bool {
    forall|n: Seq<char>| #[trigger] siblings.contains(n) <==> files.dom().contains(n)
}

/// A file that is not at the destination yet is added there, and nothing
/// else changes.
pub proof fn lemma_merge_adds_missing_file(
    files: Files,
    file_name: Seq<char>,
    incoming: Seq<u8>,
    siblings: Seq<Seq<char>>,
    note: Seq<u8>,
)
    requires
        !files.dom().contains(file_name),
    ensures
        carried_out(
            files,
            file_name,
            incoming,
            merge_plan_of(Some(file_name), incoming, None, siblings),
            note,
        ) == files.insert(file_name, incoming),
{
}

/// Merging a file into a destination that holds the same bytes is a no-op.
pub proof fn lemma_merge_of_identical_is_noop(
    files: Files,
    file_name: Seq<char>,
    incoming: Seq<u8>,
    siblings: Seq<Seq<char>>,
    note: Seq<u8>,
)
    requires
        files.dom().contains(file_name),
        files[file_name] == incoming,
    ensures
        merge_plan_of(Some(file_name), incoming, Some(files[file_name]), siblings)
            == MergePlanView::Unchanged,
        carried_out(
            files,
            file_name,
            incoming,
            merge_plan_of(Some(file_name), incoming, Some(files[file_name]), siblings),
            note,
        ) == files,
{
}

/// Merging a text file into a destination that holds another text under its
/// name changes that one file and no other: it then holds the existing text
/// under the label `EXISTING` and the incoming text above the label
/// `TEMPLATE`.
pub proof fn lemma_merge_of_texts_writes_one_file(
    files: Files,
    file_name: Seq<char>,
    incoming: Seq<u8>,
    siblings: Seq<Seq<char>>,
    note: Seq<u8>,
)
    requires
        files.dom().contains(file_name),
        files[file_name] != incoming,
        is_text(incoming),
        is_text(files[file_name]),
    ensures
        ({
            let plan = merge_plan_of(Some(file_name), incoming, Some(files[file_name]), siblings);
            let after = carried_out(files, file_name, incoming, plan, note);
            let existing = decode_utf8(files[file_name]);
            &&& after.dom() == files.dom()
            &&& forall|n: Seq<char>| n != file_name && files.dom().contains(n) ==> after[n] == files[n]
            &&& after[file_name] == encode_utf8(
                "<<<<<<< EXISTING\n"@ + existing + "\n=======\n"@ + decode_utf8(incoming)
                    + "\n>>>>>>> TEMPLATE\n"@,
            )
        }),
{
    let plan = merge_plan_of(Some(file_name), incoming, Some(files[file_name]), siblings);
    let after = carried_out(files, file_name, incoming, plan, note);
    assert(after.dom() =~= files.dom());
}

/// The two sidecar names of one file differ.
proof fn lemma_sidecar_names_differ(file_name: Option<Seq<char>>, siblings: Seq<Seq<char>>)
    ensures
        sidecar_name(file_name, ".liscaf-incoming"@, siblings) != sidecar_name(
            file_name,
            ".liscaf-conflict"@,
            siblings,
        ),
{
    reveal_strlit(".liscaf-incoming");
    reveal_strlit(".liscaf-conflict");
    let n = name_or_default(file_name);
    let none = Seq::<char>::empty();
    let base_a = n + ".liscaf-incoming"@;
    let base_b = n + ".liscaf-conflict"@;
    let a = sidecar_name(file_name, ".liscaf-incoming"@, siblings);
    let b = sidecar_name(file_name, ".liscaf-conflict"@, siblings);
    let at = (n.len() + 8) as int;
    assert(base_a[at] == 'i');
    assert(base_b[at] == 'c');
    assert(a[at] == base_a[at]);
    assert(b[at] == base_b[at]);
}

/// Merging a file into a destination that holds other bytes under its name,
/// where one of the two is not text, leaves every file of the destination
/// as it is and creates exactly two new ones: one with the incoming bytes,
/// one with the note.
pub proof fn lemma_merge_of_binary_adds_two_sidecars(
    files: Files,
    file_name: Seq<char>,
    incoming: Seq<u8>,
    siblings: Seq<Seq<char>>,
    note: Seq<u8>,
)
    requires
        files.dom().contains(file_name),
        files[file_name] != incoming,
        !(is_text(incoming) && is_text(files[file_name])),
        lists(siblings, files),
    ensures
        ({
            let plan = merge_plan_of(Some(file_name), incoming, Some(files[file_name]), siblings);
            let after = carried_out(files, file_name, incoming, plan, note);
            &&& plan matches MergePlanView::Sidecars { incoming_name, conflict_name }
            &&& incoming_name != conflict_name
            &&& !files.dom().contains(incoming_name)
            &&& !files.dom().contains(conflict_name)
            &&& after.dom() == files.dom().insert(incoming_name).insert(conflict_name)
            &&& forall|n: Seq<char>| files.dom().contains(n) ==> after[n] == files[n]
            &&& after[file_name] == files[file_name]
            &&& after[incoming_name] == incoming
            &&& after[conflict_name] == note
        }),
{
    let plan = merge_plan_of(Some(file_name), incoming, Some(files[file_name]), siblings);
    let after = carried_out(files, file_name, incoming, plan, note);
    let incoming_name = sidecar_name(Some(file_name), ".liscaf-incoming"@, siblings);
    let conflict_name = sidecar_name(Some(file_name), ".liscaf-conflict"@, siblings);
    let none = Seq::<char>::empty();
    lemma_sidecar_names_differ(Some(file_name), siblings);
    lemma_first_free(file_name + ".liscaf-incoming"@, none, siblings);
    lemma_first_free(file_name + ".liscaf-conflict"@, none, siblings);
    assert(!siblings.contains(incoming_name));
    assert(!siblings.contains(conflict_name));
    assert(after.dom() =~= files.dom().insert(incoming_name).insert(conflict_name));
}

// ---------------------------------------------------------------------------
// Reports
// ---------------------------------------------------------------------------

/// The line that opens a merge into `destination`.
pub fn report_merging(destination: &str) -> (line: String)
    ensures
        line@ == "Merging scaffold into "@ + destination@,
{
    let mut line = String::new();
    line.append("Merging scaffold into ");
    line.append(destination);
    assert(line@ =~= "Merging scaffold into "@ + destination@);
    line
}

/// The line that a dry run prints for a directory it would see to.
pub fn report_directory(path: &str) -> (line: String)
    ensures
        line@ == "DRY DIR: "@ + path@,
{
    let mut line = String::new();
    line.append("DRY DIR: ");
    line.append(path);
    assert(line@ =~= "DRY DIR: "@ + path@);
    line
}

/// The line that reports a file added at `path`: done, or in a dry run only
/// planned.
pub fn report_add(path: &str, dry_run: bool) -> (line: String)
    ensures
        line@ == (if dry_run {
            "DRY ADD: "@
        } else {
            "ADD: "@
        }) + path@,
{
    let mut line = String::new();
    if dry_run {
        line.append("DRY ADD: ");
    } else {
        line.append("ADD: ");
    }
    line.append(path);
    assert(line@ =~= (if dry_run {
        "DRY ADD: "@
    } else {
        "ADD: "@
    }) + path@);
    line
}

/// The line that reports two texts merged at `path`: done, or in a dry run
/// only planned.
pub fn report_merge(path: &str, dry_run: bool) -> (line: String)
    ensures
        line@ == (if dry_run {
            "DRY MERGE: "@
        } else {
            "MERGE: "@
        }) + path@,
{
    let mut line = String::new();
    if dry_run {
        line.append("DRY MERGE: ");
    } else {
        line.append("MERGE: ");
    }
    line.append(path);
    assert(line@ =~= (if dry_run {
        "DRY MERGE: "@
    } else {
        "MERGE: "@
    }) + path@);
    line
}

/// The line that reports a conflict that could not be merged: the file at
/// `path` was kept and the incoming one put at `incoming`; in a dry run
/// only planned.
pub fn report_binary_conflict(path: &str, incoming: &str, dry_run: bool) -> (line: String)
    ensures
        line@ == (if dry_run {
            "DRY BIN CONFLICT: "@
        } else {
            "BIN CONFLICT: "@
        }) + path@ + " (incoming -> "@ + incoming@ + ")"@,
{
    let mut line = String::new();
    if dry_run {
        line.append("DRY BIN CONFLICT: ");
    } else {
        line.append("BIN CONFLICT: ");
    }
    line.append(path);
    line.append(" (incoming -> ");
    line.append(incoming);
    line.append(")");
    assert(line@ =~= (if dry_run {
        "DRY BIN CONFLICT: "@
    } else {
        "BIN CONFLICT: "@
    }) + path@ + " (incoming -> "@ + incoming@ + ")"@);
    line
}

} // verus!
