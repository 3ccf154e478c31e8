//! Aggregation of per-file audio metadata into audio book records: one book per directory
//! whose files carry usable tags.

pub mod book;
pub mod directory;
pub mod laws;
pub mod names;
pub mod order;

use crate::book::{AudioBook, BookError, TagFields};
use crate::directory::{fold_directory, is_directory_result, parse_book};
use vstd::prelude::*;

verus! {

/// The positions, in order, of the directories whose files yield a book or a conflict.
pub open spec fn book_dirs(dirs: Seq<Seq<TagFields>>) -> Seq<int>
    decreases dirs.len(),
{
    if dirs.len() == 0 {
        Seq::empty()
    } else {
        let before = book_dirs(dirs.drop_last());
        if fold_directory(dirs.last()) is Some {
            before.push(dirs.len() - 1)
        } else {
            before
        }
    }
}

/// Aggregates each directory of a walk on its own, given the tags of its files, and lists
/// the results of those that yield something, in the order of the walk. A directory without
/// usable files contributes nothing; a conflict in one directory affects no other.
pub fn parse_all_books(dirs: Vec<Vec<TagFields>>) -> (r: Vec<Result<AudioBook, BookError>>)
    requires
        forall|i: int| 0 <= i < dirs.len() ==> #[trigger] dirs[i].len() <= u32::MAX,
    ensures
        r.len() == book_dirs(dirs@.map_values(|d: Vec<TagFields>| d@)).len(),
        forall|j: int|
            0 <= j < r.len() ==> is_directory_result(
                dirs@[book_dirs(dirs@.map_values(|d: Vec<TagFields>| d@))[j]]@,
                Some(#[trigger] r@[j]),
            ),
{
    let ghost all = dirs@.map_values(|d: Vec<TagFields>| d@);
    let ghost orig = dirs@;
    let mut rest = dirs;
    let mut out: Vec<Result<AudioBook, BookError>> = Vec::new();
    let ghost n: int = 0;
    assert(all.take(0) =~= Seq::<Seq<TagFields>>::empty());
    while rest.len() > 0
        invariant
            0 <= n <= orig.len(),
            all == orig.map_values(|d: Vec<TagFields>| d@),
            rest@ == orig.skip(n),
            forall|i: int| 0 <= i < orig.len() ==> #[trigger] orig[i].len() <= u32::MAX,
            out.len() == book_dirs(all.take(n)).len(),
            forall|j: int| 0 <= j < book_dirs(all.take(n)).len() ==> 0 <= #[trigger] book_dirs(all.take(n))[j] < n,
            forall|j: int|
                0 <= j < out.len() ==> is_directory_result(
                    orig[book_dirs(all.take(n))[j]]@,
                    Some(#[trigger] out@[j]),
                ),
        decreases rest.len(),
    {
        let ghost rest_before = rest@;
        let files = rest.remove(0);
        assert(rest_before[0] == orig[n]);
        assert(all.take(n + 1).drop_last() =~= all.take(n));
        assert(all.take(n + 1).last() == files@);
        let res = parse_book(files);
        match res {
            Some(book) => {
                out.push(book);
            },
            None => {},
        }
        assert(rest@ =~= orig.skip(n + 1));
        proof {
            n = n + 1;
        }
    }
    assert(all.take(n) =~= all);
    out
}

} // verus!
