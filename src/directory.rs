//! Aggregation of the files of one directory into a book.

use crate::book::{
    file_view, missing_field, merge_spec, parse_file, result_view, AudioBook, BookError, BookView,
    ConflictView, TagFields,
};
use crate::order::{sort_tracks, stably_sorted};
use vstd::prelude::*;

verus! {

/// The tags that carry every required field, in their order.
pub open spec fn parsed_tags(tags: Seq<TagFields>) -> Seq<TagFields> {
    tags.filter(|t: TagFields| missing_field(t) is None)
}

/// The one-track books that the usable tags describe.
pub open spec fn fragments(tags: Seq<TagFields>) -> Seq<BookView> {
    parsed_tags(tags).map_values(|t: TagFields| file_view(t))
}

/// A non-empty list of fragments merged from left to right.
pub open spec fn fold_books(s: Seq<BookView>) -> Result<BookView, ConflictView>
    decreases s.len(),
{
    if s.len() <= 1 {
        Ok(s[0])
    } else {
        merge_spec(fold_books(s.drop_last()), Ok(s.last()))
    }
}

/// What the fragments of a directory merge to, before its tracks are ordered;
/// `None` where no file carries a usable tag.
pub open spec fn fold_directory(tags: Seq<TagFields>) -> Option<Result<BookView, ConflictView>> {
    let f = fragments(tags);
    if f.len() == 0 {
        None
    } else {
        Some(fold_books(f))
    }
}

/// The view of an optional book-or-conflict.
pub open spec fn option_view(r: Option<Result<AudioBook, BookError>>) -> Option<
    Result<BookView, ConflictView>,
> {
    match r {
        None => None,
        Some(x) => Some(result_view(x)),
    }
}

/// `r` is the result of a directory whose files carry `tags`: nothing where no tag is
/// usable, the conflict where the fragments disagree, else the merged book with its tracks
/// stably sorted by number.
pub open spec fn is_directory_result(
    tags: Seq<TagFields>,
    r: Option<Result<AudioBook, BookError>>,
) -> bool {
    match fold_directory(tags) {
        None => r is None,
        Some(Err(e)) => option_view(r) == Some(Err::<BookView, ConflictView>(e)),
        Some(Ok(b)) => match option_view(r) {
            Some(Ok(v)) => {
                &&& v.title == b.title
                &&& v.authors == b.authors
                &&& v.narrators == b.narrators
                &&& stably_sorted(b.tracks, v.tracks)
                &&& v.total_tracks == b.total_tracks
                &&& v.discs == b.discs
                &&& v.year == b.year
            },
            _ => false,
        },
    }
}

/// How the fragments grow by one tag.
proof fn lemma_fragments_push(tags: Seq<TagFields>, t: TagFields)
    ensures
        fragments(tags.push(t)) == if missing_field(t) is None {
            fragments(tags).push(file_view(t))
        } else {
            fragments(tags)
        },
{
    reveal(Seq::filter);
    assert(tags.push(t).drop_last() =~= tags);
    if missing_field(t) is None {
        assert(fragments(tags.push(t)) =~= fragments(tags).push(file_view(t)));
    }
}

/// A successful fold counts exactly as many tracks as it merged fragments, where each
/// fragment holds one track.
pub(crate) proof fn lemma_fold_counts_fragments(s: Seq<BookView>)
    requires
        s.len() > 0,
        forall|i: int| 0 <= i < s.len() ==> #[trigger] s[i].total_tracks == 1,
    ensures
        fold_books(s) is Ok ==> fold_books(s)->Ok_0.total_tracks == s.len(),
    decreases s.len(),
{
    if s.len() > 1 {
        lemma_fold_counts_fragments(s.drop_last());
    }
}

/// Aggregates the files of one directory, given the tag of each readable file:
/// files that lack a required field are skipped, the others are merged into one book
/// whose tracks are then ordered by number.
pub fn parse_book(tags: Vec<TagFields>) -> (r: Option<Result<AudioBook, BookError>>)
    requires
        tags.len() <= u32::MAX,
    ensures
        is_directory_result(tags@, r),
{
    let ghost all = tags@;
    let mut rest = tags;
    let mut acc: Option<Result<AudioBook, BookError>> = None;
    let ghost n: int = 0;
    proof {
        reveal(Seq::filter);
        assert(all.take(0) =~= Seq::<TagFields>::empty());
    }
    while rest.len() > 0
        invariant
            0 <= n <= all.len(),
            all.len() <= u32::MAX,
            rest@ == all.skip(n),
            option_view(acc) == fold_directory(all.take(n)),
            fragments(all.take(n)).len() <= n,
        decreases rest.len(),
    {
        let ghost rest_before = rest@;
        let tag = rest.remove(0);
        let ghost t = tag;
        let ghost frags = fragments(all.take(n));
        proof {
            assert(rest_before[0] == t);
            assert(all.take(n + 1) =~= all.take(n).push(t));
            lemma_fragments_push(all.take(n), t);
            assert forall|i: int| 0 <= i < frags.len() implies #[trigger] frags[i].total_tracks
                == 1 by {
                broadcast use vstd::seq_lib::group_filter_ensures;

            }
            if frags.len() > 0 {
                lemma_fold_counts_fragments(frags);
            }
        }
        match parse_file(tag) {
            Err(_) => {},
            Ok(b) => {
                acc = match acc {
                    None => Some(Ok(b)),
                    Some(prev) => Some(AudioBook::merge(prev, Ok(b))),
                };
                proof {
                    let g = frags.push(file_view(t));
                    if frags.len() > 0 {
                        assert(g.drop_last() =~= frags);
                    }
                }
            },
        }
        assert(rest@ =~= all.skip(n + 1));
        proof {
            n = n + 1;
        }
    }
    assert(all.take(n) =~= all);
    match acc {
        None => None,
        Some(Err(e)) => Some(Err(e)),
        Some(Ok(book)) => {
            let AudioBook { title, author, reader, tracks, total_tracks, discs, year } = book;
            let tracks = sort_tracks(tracks);
            Some(Ok(AudioBook { title, author, reader, tracks, total_tracks, discs, year }))
        },
    }
}

} // verus!
