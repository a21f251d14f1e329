use vstd::prelude::*;

use crate::error::{ErrorView, RunnerError, StatusCode};
use crate::status::FileInfo;
use crate::text::{is_stable_name_order, stable_name_order};

verus! {

/// An entry of the workspace directory: its name when it is valid UTF-8,
/// whether it is a regular file, and its size.
pub struct WorkspaceEntry {
    pub name: Option<String>,
    pub is_file: bool,
    pub size_bytes: u64,
}

/// The regular files with UTF-8 names among the entries, by name and size,
/// in listing order.
pub open spec fn listed_files(entries: Seq<WorkspaceEntry>) -> Seq<(Seq<char>, u64)>
    decreases entries.len(),
{
    if entries.len() == 0 {
        Seq::empty()
    } else {
        let r = listed_files(entries.drop_last());
        let e = entries.last();
        if e.is_file && e.name is Some {
            r.push((e.name->0@, e.size_bytes))
        } else {
            r
        }
    }
}

/// The names of listed files.
pub open spec fn listing_names(files: Seq<(Seq<char>, u64)>) -> Seq<Seq<char>> {
    files.map_values(|f: (Seq<char>, u64)| f.0)
}

/// `out` is `files` after a stable sort by name.
pub open spec fn sorted_listing(files: Seq<(Seq<char>, u64)>, out: Seq<(Seq<char>, u64)>) -> bool {
    exists|order: Seq<usize>|
        #[trigger] is_stable_name_order(listing_names(files), order) && out
            == order.map_values(|k: usize| files[k as int])
}

/// The answer to `ListFiles`: the regular files of the workspace with their
/// sizes, sorted by name.
pub fn list_workspace(entries: &Vec<WorkspaceEntry>) -> (files: Vec<FileInfo>)
    ensures
        sorted_listing(listed_files(entries@), files@.map_values(|f: FileInfo| (f.name@, f.size_bytes))),
{
    let mut chosen: Vec<FileInfo> = Vec::new();
    let mut names: Vec<String> = Vec::new();
    let mut i: usize = 0;
    while i < entries.len()
        invariant
            i <= entries@.len(),
            chosen@.map_values(|f: FileInfo| (f.name@, f.size_bytes)) == listed_files(entries@.take(i as int)),
            names@.map_values(|s: String| s@) == listing_names(listed_files(entries@.take(i as int))),
        decreases entries@.len() - i,
    {
        let ghost prev_c = chosen@;
        let ghost prev_n = names@;
        proof {
            assert(entries@.take(i + 1 as int).drop_last() =~= entries@.take(i as int));
            assert(entries@.take(i + 1 as int).last() == entries@[i as int]);
        }
        let e = &entries[i];
        if e.is_file {
            match &e.name {
                Some(n) => {
                    chosen.push(FileInfo { name: n.clone(), size_bytes: e.size_bytes });
                    names.push(n.clone());
                    proof {
                        let l = listed_files(entries@.take(i as int));
                        assert(chosen@.map_values(|f: FileInfo| (f.name@, f.size_bytes)) =~= prev_c.map_values(
                            |f: FileInfo| (f.name@, f.size_bytes),
                        ).push((n@, e.size_bytes)));
                        assert(names@.map_values(|s: String| s@) =~= prev_n.map_values(|s: String| s@).push(n@));
                        assert(listing_names(l.push((n@, e.size_bytes))) =~= listing_names(l).push(n@));
                    }
                },
                None => {},
            }
        }
        i = i + 1;
    }
    proof {
        assert(entries@.take(entries@.len() as int) =~= entries@);
    }
    let ghost sel = listed_files(entries@);
    let order = stable_name_order(&names);
    let mut out: Vec<FileInfo> = Vec::new();
    let mut k: usize = 0;
    while k < order.len()
        invariant
            sel == chosen@.map_values(|f: FileInfo| (f.name@, f.size_bytes)),
            is_stable_name_order(listing_names(sel), order@),
            k <= order@.len(),
            out@.len() == k,
            forall|j: int| 0 <= j < k ==> ((#[trigger] out@[j]).name@, out@[j].size_bytes) == sel[order@[j] as int],
        decreases order@.len() - k,
    {
        let src = &chosen[order[k]];
        out.push(FileInfo { name: src.name.clone(), size_bytes: src.size_bytes });
        k = k + 1;
    }
    proof {
        assert(out@.map_values(|f: FileInfo| (f.name@, f.size_bytes)) =~= order@.map_values(|k: usize| sel[k as int]));
    }
    out
}

/// The answer to `GetFile` or `DeleteFile` for a name that the workspace
/// does not hold.
pub open spec fn file_not_found(name: Seq<char>) -> ErrorView {
    ErrorView { code: StatusCode::NotFound, message: "file not found: "@ + name }
}

/// Goes on when the workspace holds `name` (as `exists` reports), else
/// answers that the file is not found.
pub fn require_existing(name: &str, exists: bool) -> (res: Result<(), RunnerError>)
    ensures
        res is Ok <==> exists,
        res matches Err(e) ==> e@ == file_not_found(name@),
{
    if exists {
        Ok(())
    } else {
        Err(RunnerError::new(StatusCode::NotFound, "file not found: ".to_owned().concat(name)))
    }
}

} // verus!
