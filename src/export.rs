//! Copying the modified images and their label files elsewhere: the checks
//! made before anything is written, and the list of files to copy.
use vstd::prelude::*;

use crate::modified::ModifiedSet;
use crate::names::{label_file_name, label_name_of};

verus! {

/// Why an export was refused before any file was written.
#[derive(Clone, Copy, Debug, PartialEq, Eq, Structural)]
pub enum ExportError {
    /// No image is marked as modified.
    NothingModified,
    /// The image or the label directory has not been chosen.
    DirectoriesUnset,
    /// The destination's `images` or `labels` directory already holds files.
    DestinationNotEmpty,
}

/// The checks before an export, in this order: something to export, both
/// source directories chosen, both destination directories empty.
pub fn check_export(
    modified_count: usize,
    directories_set: bool,
    destination_empty: bool,
) -> (r: Result<(), ExportError>)
    ensures
        r == (if modified_count == 0 {
            Err(ExportError::NothingModified)
        } else if !directories_set {
            Err(ExportError::DirectoriesUnset)
        } else if !destination_empty {
            Err(ExportError::DestinationNotEmpty)
        } else {
            Ok(())
        }),
{
    if modified_count == 0 {
        Err(ExportError::NothingModified)
    } else if !directories_set {
        Err(ExportError::DirectoriesUnset)
    } else if !destination_empty {
        Err(ExportError::DestinationNotEmpty)
    } else {
        Ok(())
    }
}

/// One image to copy, with its label file.
pub struct ExportItem {
    pub image: String,
    pub label: String,
}

/// The files to copy: each modified image once, with its label file.
pub fn export_plan(modified: &ModifiedSet) -> (r: Vec<ExportItem>)
    requires
        modified.wf(),
    ensures
        r@.len() == modified@.len(),
        forall|s: Seq<char>|
            modified@.contains(s) <==> exists|i: int|
                0 <= i < r@.len() && (#[trigger] r@[i]).image@ == s,
        forall|i: int| 0 <= i < r@.len() ==> (#[trigger] r@[i]).label@ == label_name_of(r@[i].image@),
{
    let names = modified.save_records();
    proof {
        names.deep_view().unique_seq_to_set();
    }
    let mut out: Vec<ExportItem> = Vec::new();
    let mut i: usize = 0;
    while i < names.len()
        invariant
            i <= names@.len(),
            out@.len() == i,
            forall|k: int| 0 <= k < i ==> (#[trigger] out@[k]).image@ == names.deep_view()[k],
            forall|k: int| 0 <= k < i ==> (#[trigger] out@[k]).label@ == label_name_of(out@[k].image@),
        decreases names@.len() - i,
    {
        let image = names[i].clone();
        let label = label_file_name(image.as_str());
        out.push(ExportItem { image, label });
        i = i + 1;
    }
    assert forall|s: Seq<char>|
        modified@.contains(s) <==> exists|k: int|
            0 <= k < out@.len() && (#[trigger] out@[k]).image@ == s by {
        if modified@.contains(s) {
            assert(names.deep_view().to_set().contains(s));
            let k = choose|k: int| 0 <= k < names.deep_view().len() && names.deep_view()[k] == s;
            assert(out@[k].image@ == s);
        }
        if exists|k: int| 0 <= k < out@.len() && (#[trigger] out@[k]).image@ == s {
            let k = choose|k: int| 0 <= k < out@.len() && (#[trigger] out@[k]).image@ == s;
            assert(names.deep_view()[k] == s);
            assert(names.deep_view().contains(s));
        }
    }
    out
}

} // verus!
