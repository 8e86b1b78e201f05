//! Choosing the input files from a directory listing.
//!
//! Reading a directory is the caller's business. What it hands over is the
//! listing as it came: for each entry either what was learnt of it, or the
//! error that reading it gave.

use vstd::prelude::*;

verus! {

/// What is known of one entry of a directory.
#[derive(Debug, Clone, PartialEq, Eq)]
pub struct Entry {
    /// The path of the entry, directory included.
    pub path: String,
    /// Whether the entry is a regular file.
    pub is_file: bool,
}

/// The entries of a listing in which every entry was read.
pub open spec fn entries_of<E>(listing: Seq<Result<Entry, E>>) -> Seq<Entry> {
    listing.map_values(|item: Result<Entry, E>| item->Ok_0)
}

/// The paths of the regular files among `entries`, in listing order.
pub open spec fn regular_files(entries: Seq<Entry>) -> Seq<String> {
    entries.filter(|entry: Entry| entry.is_file).map_values(|entry: Entry| entry.path)
}

/// Whether `listing[at]` is the first entry that could not be read.
pub open spec fn first_failure_at<E>(listing: Seq<Result<Entry, E>>, at: int) -> bool {
    &&& 0 <= at < listing.len()
    &&& listing[at] is Err
    &&& forall|earlier: int| 0 <= earlier < at ==> listing[earlier] is Ok
}

/// The paths of the regular files of a directory, in the order in which the
/// listing gives them; other entries are passed over. A listing without a
/// regular file gives an empty list. If an entry could not be read, the error
/// of the first such entry is the result.
pub fn get_files_in_directory<E>(listing: Vec<Result<Entry, E>>) -> (files: Result<Vec<String>, E>)
    ensures
        match files {
            Ok(paths) => {
                &&& forall|at: int| 0 <= at < listing@.len() ==> listing@[at] is Ok
                &&& paths@ == regular_files(entries_of(listing@))
            },
            Err(error) => exists|at: int|
                first_failure_at(listing@, at) && listing@[at] == Err::<Entry, E>(error),
        },
{
    let ghost all = listing@;
    let mut files: Vec<String> = Vec::new();
    for item in items: listing
        invariant
            items.seq() == all,
            forall|at: int| 0 <= at < items.index() ==> all[at] is Ok,
            files@ == regular_files(entries_of(all.take(items.index() as int))),
    {
        let ghost at = items.index() as int;
        let ghost seen = entries_of(all.take(at));
        let ghost wanted = |entry: Entry| entry.is_file;
        match item {
            Ok(entry) => {
                proof {
                    assert(entries_of(all.take(at + 1)) =~= seen.push(entry));
                    seen.lemma_filter_push(entry, wanted);
                }
                if entry.is_file {
                    proof {
                        assert(regular_files(seen.push(entry)) =~= regular_files(seen).push(
                            entry.path,
                        ));
                    }
                    files.push(entry.path);
                }
            },
            Err(error) => {
                return Err(error);
            },
        }
    }
    proof {
        assert(all.take(all.len() as int) =~= all);
    }
    Ok(files)
}

} // verus!
