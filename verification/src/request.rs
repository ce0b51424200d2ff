//! The request that an edit of the listing makes, and its validation.

use crate::error::RenameError;
use crate::listing::find_duplicate;
use crate::listing::find_path;
use crate::mapping::changed_pairs;
use crate::mapping::changed_pairs_upto;
use crate::mapping::is_rename_mapping;
use crate::mapping::lemma_changed_pairs_well_formed;
use crate::mapping::Renames;
use crate::text::join_lines;
use crate::text::parse_lines;
use crate::text::parse_temp_file_content;
use crate::text::push_char;
use crate::text::Path;
use vstd::prelude::*;
use vstd::string::StrSliceExecFns;
use vstd::string::StringExecFns;

verus! {

/// The length of a path in bytes, as far as a machine word holds it.
pub open spec fn byte_length(path: Path) -> usize {
    vstd::utf8::encode_utf8(path).len() as usize
}

/// The largest length in bytes among the sources of the first `n` renames.
pub open spec fn widest_source(renames: Renames, n: nat) -> usize
    decreases n,
{
    if n == 0 {
        0
    } else {
        let rest = widest_source(renames, (n - 1) as nat);
        if byte_length(renames[n - 1].0) > rest {
            byte_length(renames[n - 1].0)
        } else {
            rest
        }
    }
}

/// As many spaces as `text` lacks to be `width` characters long.
pub open spec fn padding(text: Seq<char>, width: usize) -> Seq<char> {
    Seq::new(
        if width > text.len() {
            (width - text.len()) as nat
        } else {
            0
        },
        |i: int| ' ',
    )
}

/// A line of the log: the source, filled up with spaces to `width`
/// characters, a tab, and the destination.
pub open spec fn log_line(rename: (Path, Path), width: usize) -> Seq<char> {
    rename.0 + padding(rename.0, width) + seq!['\t'] + rename.1
}

/// The log of the renames: one line for each, the destinations in one column.
pub open spec fn log_text(renames: Renames) -> Seq<char> {
    join_lines(
        Seq::new(
            renames.len(),
            |i: int| log_line(renames[i], widest_source(renames, renames.len())),
        ),
    )
}

/// `other` has every path of `listing`.
pub open spec fn has_all_of(other: Seq<Path>, listing: Seq<Path>) -> bool {
    forall|i: int| 0 <= i < listing.len() ==> other.contains(#[trigger] listing[i])
}

/// `path` is the first path of `listing` that `other` lacks.
pub open spec fn is_first_missing(listing: Seq<Path>, other: Seq<Path>, path: Path) -> bool {
    exists|i: int|
        0 <= i < listing.len() && #[trigger] listing[i] == path && !other.contains(path)
            && forall|j: int| 0 <= j < i ==> other.contains(#[trigger] listing[j])
}

/// A validated request: the listing as it was when the request was made, and
/// the renames that the edit asks for.
#[derive(Debug)]
pub struct RenamingRequest {
    all_files_at_creation_time: Vec<String>,
    mapping: Vec<(String, String)>,
}

impl RenamingRequest {
    /// The listing that the request was made from.
    pub closed spec fn snapshot(&self) -> Seq<Path> {
        self.all_files_at_creation_time.deep_view()
    }

    /// The renames asked for, in the order of the listing.
    pub closed spec fn renames(&self) -> Renames {
        self.mapping.deep_view()
    }

    /// The renames form a well-formed mapping. This holds of every request.
    pub open spec fn wf(&self) -> bool {
        is_rename_mapping(self.renames())
    }

    #[verifier::type_invariant]
    spec fn well_formed(self) -> bool {
        is_rename_mapping(self.mapping.deep_view())
    }

    /// Validates the edited content against the listing it was made from.
    ///
    /// The edit must keep the number of paths and may not name a path twice;
    /// the error names the first line that repeats an earlier one. Renames
    /// into other directories are accepted. The listing repeats no path, as a
    /// directory listing never does.
    pub fn try_new(original_filenames: Vec<String>, modified_temp_file_content: String) -> (request:
        Result<Self, RenameError>)
        requires
            original_filenames.deep_view().no_duplicates(),
        ensures
            ({
                let original = original_filenames.deep_view();
                let edited = parse_lines(modified_temp_file_content@);
                &&& original.len() != edited.len() <==> request
                    == Err::<Self, RenameError>(RenameError::LineCountMismatch)
                &&& original.len() == edited.len() && !edited.no_duplicates() <==> (request is Err
                    && request->Err_0 is NameClash)
                &&& request matches Err(RenameError::NameClash(path)) ==> exists|i: int, j: int|
                    0 <= i < j < edited.len() && edited[i] == path@ && edited[j] == path@
                        && edited.take(j).no_duplicates()
                &&& original.len() == edited.len() && edited.no_duplicates() <==> request is Ok
                &&& request matches Ok(r) ==> r.snapshot() == original && r.renames()
                    == changed_pairs(original, edited) && r.wf()
            }),
    {
        let edited_filenames = parse_temp_file_content(modified_temp_file_content);
        if original_filenames.len() != edited_filenames.len() {
            return Err(RenameError::LineCountMismatch);
        }
        match find_duplicate(&edited_filenames) {
            Some(j) => {
                proof {
                    let edited = edited_filenames.deep_view();
                    let i = choose|i: int|
                        0 <= i < j && #[trigger] edited_filenames[i]@ == edited_filenames[j as int]@;
                    assert(edited[i] == edited_filenames[j as int]@ && edited[j as int]
                        == edited_filenames[j as int]@);
                    assert forall|a: int, b: int|
                        0 <= a < edited.take(j as int).len() && 0 <= b < edited.take(
                            j as int,
                        ).len() && a != b implies edited.take(j as int)[a] != edited.take(
                        j as int,
                    )[b] by {
                        if a < b {
                            assert(edited_filenames[a]@ != edited_filenames[b]@);
                        } else {
                            assert(edited_filenames[b]@ != edited_filenames[a]@);
                        }
                    }
                }
                return Err(RenameError::NameClash(edited_filenames[j].clone()));
            },
            None => {},
        }
        let ghost original = original_filenames.deep_view();
        let ghost edited = edited_filenames.deep_view();
        let mut mapping: Vec<(String, String)> = Vec::new();
        let mut i: usize = 0;
        while i < original_filenames.len()
            invariant
                0 <= i <= original_filenames.len(),
                original_filenames.len() == edited_filenames.len(),
                original == original_filenames.deep_view(),
                edited == edited_filenames.deep_view(),
                mapping.deep_view() == changed_pairs_upto(original, edited, i as nat),
            decreases original_filenames.len() - i,
        {
            proof {
                assert(original[i as int] == original_filenames[i as int]@);
                assert(edited[i as int] == edited_filenames[i as int]@);
            }
            if original_filenames[i] != edited_filenames[i] {
                let ghost before = mapping.deep_view();
                mapping.push((original_filenames[i].clone(), edited_filenames[i].clone()));
                proof {
                    assert(mapping.deep_view() =~= before.push(
                        (original[i as int], edited[i as int]),
                    ));
                }
            }
            i += 1;
        }
        proof {
            lemma_changed_pairs_well_formed(original, edited);
        }
        Ok(RenamingRequest { all_files_at_creation_time: original_filenames, mapping })
    }

    /// Whether the edit changed nothing.
    pub fn is_empty(&self) -> (empty: bool)
        ensures
            empty <==> self.renames().len() == 0,
    {
        self.mapping.len() == 0
    }

    /// The renames asked for.
    pub fn mapping(&self) -> (mapping: &Vec<(String, String)>)
        ensures
            self.wf(),
            mapping.deep_view() == self.renames(),
    {
        proof {
            use_type_invariant(self);
        }
        &self.mapping
    }

    /// The listing that the request was made from.
    pub fn all_files_at_creation_time(&self) -> (files: &Vec<String>)
        ensures
            files.deep_view() == self.snapshot(),
    {
        &self.all_files_at_creation_time
    }

    /// The content of the log file: the renames as they were asked for,
    /// without the temporary names of the plan, in two columns.
    pub fn renaming_log_content(&self) -> (content: String)
        ensures
            content@ == log_text(self.renames()),
    {
        let ghost renames = self.renames();
        let mut width: usize = 0;
        let mut k: usize = 0;
        while k < self.mapping.len()
            invariant
                0 <= k <= self.mapping.len(),
                renames == self.mapping.deep_view(),
                width == widest_source(renames, k as nat),
            decreases self.mapping.len() - k,
        {
            let length = self.mapping[k].0.as_str().len();
            proof {
                assert(renames[k as int].0 == self.mapping[k as int].0@);
            }
            if length > width {
                width = length;
            }
            k += 1;
        }
        let ghost lines = Seq::new(renames.len(), |i: int| log_line(renames[i], width));
        let mut content = String::new();
        let mut i: usize = 0;
        while i < self.mapping.len()
            invariant
                0 <= i <= self.mapping.len(),
                renames == self.mapping.deep_view(),
                lines == Seq::new(renames.len(), |i: int| log_line(renames[i], width)),
                content@ == join_lines(lines.take(i as int)),
            decreases self.mapping.len() - i,
        {
            let ghost before = content@;
            let ghost source = self.mapping[i as int].0@;
            proof {
                reveal_strlit("\n");
                reveal_strlit("\t");
                assert("\n"@ =~= seq!['\n']);
                assert("\t"@ =~= seq!['\t']);
                assert(lines.take(i + 1).drop_last() =~= lines.take(i as int));
                assert(lines.take(i + 1).last() == log_line(renames[i as int], width));
                assert(renames[i as int] == (self.mapping[i as int].0@, self.mapping[i as int].1@));
            }
            if i > 0 {
                content.append("\n");
            }
            let ghost start = content@;
            content.append(self.mapping[i].0.as_str());
            let mut filled: usize = self.mapping[i].0.as_str().unicode_len();
            while filled < width
                invariant
                    source == self.mapping[i as int].0@,
                    source.len() <= filled,
                    filled <= width || filled == source.len(),
                    content@ == start + source + Seq::new(
                        (filled - source.len()) as nat,
                        |i: int| ' ',
                    ),
                decreases width - filled,
            {
                push_char(&mut content, ' ');
                filled += 1;
                proof {
                    assert(content@ =~= start + source + Seq::new(
                        (filled - source.len()) as nat,
                        |i: int| ' ',
                    ));
                }
            }
            proof {
                assert(Seq::new((filled - source.len()) as nat, |i: int| ' ') =~= padding(
                    source,
                    width,
                ));
            }
            content.append("\t");
            content.append(self.mapping[i].1.as_str());
            i += 1;
            proof {
                assert(content@ =~= join_lines(lines.take(i as int)));
            }
        }
        proof {
            assert(lines.take(i as int) =~= lines);
        }
        content
    }

    /// Compares the listing of the request with the files as they are now,
    /// as sets. Any path that is in one of them only is a change, whether or
    /// not a rename concerns it. The error names the first path of the
    /// listing that is gone, or else the first path that is new.
    pub fn ensure_files_did_not_change(&self, current_files: &Vec<String>) -> (unchanged: Result<
        (),
        RenameError,
    >)
        ensures
            unchanged is Ok <==> forall|path: Path|
                self.snapshot().contains(path) <==> current_files.deep_view().contains(path),
            unchanged matches Err(e) ==> e matches RenameError::FilesChanged(path) && (
            is_first_missing(self.snapshot(), current_files.deep_view(), path@) || (has_all_of(
                current_files.deep_view(),
                self.snapshot(),
            ) && is_first_missing(current_files.deep_view(), self.snapshot(), path@))),
    {
        let ghost snapshot = self.snapshot();
        let ghost current = current_files.deep_view();
        let mut i: usize = 0;
        while i < self.all_files_at_creation_time.len()
            invariant
                0 <= i <= self.all_files_at_creation_time.len(),
                snapshot == self.all_files_at_creation_time.deep_view(),
                current == current_files.deep_view(),
                forall|j: int| 0 <= j < i ==> current.contains(#[trigger] snapshot[j]),
            decreases self.all_files_at_creation_time.len() - i,
        {
            if find_path(current_files, &self.all_files_at_creation_time[i]).is_none() {
                proof {
                    assert(snapshot[i as int] == self.all_files_at_creation_time[i as int]@);
                    assert(snapshot.contains(snapshot[i as int]));
                    assert(is_first_missing(snapshot, current, snapshot[i as int]));
                }
                return Err(RenameError::FilesChanged(self.all_files_at_creation_time[i].clone()));
            }
            proof {
                assert(snapshot[i as int] == self.all_files_at_creation_time[i as int]@);
            }
            i += 1;
        }
        let mut k: usize = 0;
        while k < current_files.len()
            invariant
                0 <= k <= current_files.len(),
                snapshot == self.all_files_at_creation_time.deep_view(),
                current == current_files.deep_view(),
                forall|j: int| 0 <= j < snapshot.len() ==> current.contains(#[trigger] snapshot[j]),
                forall|j: int| 0 <= j < k ==> snapshot.contains(#[trigger] current[j]),
            decreases current_files.len() - k,
        {
            if find_path(&self.all_files_at_creation_time, &current_files[k]).is_none() {
                proof {
                    assert(current[k as int] == current_files[k as int]@);
                    assert(current.contains(current[k as int]));
                    assert(is_first_missing(current, snapshot, current[k as int]));
                }
                return Err(RenameError::FilesChanged(current_files[k].clone()));
            }
            proof {
                assert(current[k as int] == current_files[k as int]@);
            }
            k += 1;
        }
        Ok(())
    }
}

} // verus!
