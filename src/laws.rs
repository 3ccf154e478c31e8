//! Laws of the merge, the fold over a directory's fragments, and the track order.

use crate::book::{
    file_view, merge_spec, missing_field, AudioBook, BookError, BookView, ConflictView, TagFields, TrackView,
};
use crate::directory::{
    fold_books, fold_directory, fragments, is_directory_result, lemma_fold_counts_fragments,
    option_view, parsed_tags,
};
use crate::book_dirs;
use crate::order::{
    lemma_none_with_number, sorted_by_number, stable_order_is_unique, with_number,
};
use vstd::prelude::*;

verus! {

/// The sum of the track counts of a list of books.
pub open spec fn sum_totals(s: Seq<BookView>) -> int
    decreases s.len(),
{
    if s.len() == 0 {
        0
    } else {
        sum_totals(s.drop_last()) + s.last().total_tracks
    }
}

/// The sum of the lengths of the track lists of a list of books.
pub open spec fn sum_track_lens(s: Seq<BookView>) -> int
    decreases s.len(),
{
    if s.len() == 0 {
        0
    } else {
        sum_track_lens(s.drop_last()) + s.last().tracks.len()
    }
}

/// All books of `s` have the same disc count and the same year.
pub open spec fn same_discs_and_year(s: Seq<BookView>) -> bool {
    forall|i: int, j: int|
        0 <= i < s.len() && 0 <= j < s.len() ==> s[i].discs == s[j].discs && s[i].year
            == s[j].year
}

/// Merging a book with itself succeeds: its track list appears twice and its track count
/// doubles, while authors, narrators, title, disc count and year stay as they were.
pub proof fn merge_with_itself(a: BookView)
    ensures
        merge_spec(Ok(a), Ok(a)) == Ok::<BookView, ConflictView>(
            BookView {
                title: a.title,
                authors: a.authors,
                narrators: a.narrators,
                tracks: a.tracks + a.tracks,
                total_tracks: 2 * a.total_tracks,
                discs: a.discs,
                year: a.year,
            },
        ),
{
    assert(a.authors.union(a.authors) =~= a.authors);
    assert(a.narrators.union(a.narrators) =~= a.narrators);
}

/// Where all fragments agree on title, disc count and year, their fold succeeds, keeps
/// those three values, and counts as many tracks, and lists as many, as the fragments
/// together.
pub proof fn fold_of_agreeing_fragments(s: Seq<BookView>)
    requires
        s.len() > 0,
        same_discs_and_year(s),
        forall|i: int, j: int| 0 <= i < s.len() && 0 <= j < s.len() ==> s[i].title == s[j].title,
    ensures
        fold_books(s) is Ok,
        fold_books(s)->Ok_0.title == s[0].title,
        fold_books(s)->Ok_0.discs == s[0].discs,
        fold_books(s)->Ok_0.year == s[0].year,
        fold_books(s)->Ok_0.total_tracks == sum_totals(s),
        fold_books(s)->Ok_0.tracks.len() == sum_track_lens(s),
    decreases s.len(),
{
    if s.len() > 1 {
        let p = s.drop_last();
        assert(same_discs_and_year(p));
        fold_of_agreeing_fragments(p);
        assert(s[s.len() - 1] == s.last());
    } else {
        let e = s.drop_last();
        assert(e =~= Seq::<BookView>::empty());
        assert(sum_totals(e) == 0);
        assert(sum_track_lens(e) == 0);
    }
}

/// A fold that succeeds agrees with every fragment on title, disc count and year.
pub proof fn fold_agrees_with_fragments(s: Seq<BookView>)
    requires
        s.len() > 0,
        fold_books(s) is Ok,
    ensures
        forall|i: int|
            0 <= i < s.len() ==> {
                &&& (#[trigger] s[i]).title == fold_books(s)->Ok_0.title
                &&& s[i].discs == fold_books(s)->Ok_0.discs
                &&& s[i].year == fold_books(s)->Ok_0.year
            },
    decreases s.len(),
{
    if s.len() > 1 {
        fold_agrees_with_fragments(s.drop_last());
        assert forall|i: int| 0 <= i < s.len() implies {
            &&& (#[trigger] s[i]).title == fold_books(s)->Ok_0.title
            &&& s[i].discs == fold_books(s)->Ok_0.discs
            &&& s[i].year == fold_books(s)->Ok_0.year
        } by {
            if i < s.len() - 1 {
                assert(s[i] == s.drop_last()[i]);
            }
        }
    }
}

/// Where all fragments agree on disc count and year, a fold that fails fails on a title.
pub proof fn fold_fails_only_on_title(s: Seq<BookView>)
    requires
        s.len() > 0,
        same_discs_and_year(s),
    ensures
        fold_books(s) is Err ==> fold_books(s)->Err_0 is Title,
    decreases s.len(),
{
    if s.len() > 1 {
        let p = s.drop_last();
        assert(same_discs_and_year(p));
        fold_fails_only_on_title(p);
        if fold_books(p) is Ok {
            fold_agrees_with_fragments(p);
            assert(p[0] == s[0]);
            assert(s[s.len() - 1] == s.last());
        }
    }
}

/// A directory whose usable files name two different titles yields a conflict, never a
/// book; where those files all agree on disc count and year, the conflict is on the title.
pub proof fn differing_titles_conflict(tags: Seq<TagFields>, i: int, j: int)
    requires
        0 <= i < fragments(tags).len(),
        0 <= j < fragments(tags).len(),
        fragments(tags)[i].title != fragments(tags)[j].title,
    ensures
        fold_directory(tags) matches Some(Err(_)),
        same_discs_and_year(fragments(tags)) ==> fold_directory(tags) matches Some(
            Err(ConflictView::Title(_, _)),
        ),
{
    let s = fragments(tags);
    if fold_books(s) is Ok {
        fold_agrees_with_fragments(s);
    }
    if same_discs_and_year(s) {
        fold_fails_only_on_title(s);
    }
}

/// Every book of `s` holds exactly one track and counts one.
pub open spec fn one_track_each(s: Seq<BookView>) -> bool {
    forall|i: int| 0 <= i < s.len() ==> (#[trigger] s[i]).tracks.len() == 1 && s[i].total_tracks == 1
}

/// The single track of each book of `s`, in order.
pub open spec fn first_tracks(s: Seq<BookView>) -> Seq<TrackView> {
    s.map_values(|b: BookView| b.tracks[0])
}

/// No two tracks of `t` carry the same number.
pub open spec fn distinct_numbers(t: Seq<TrackView>) -> bool {
    forall|i: int, j: int| 0 <= i < j < t.len() ==> t[i].number != t[j].number
}

/// The authors named by any book of `s`.
pub open spec fn all_authors(s: Seq<BookView>) -> Set<Seq<char>> {
    Set::new(|x: Seq<char>| exists|i: int| 0 <= i < s.len() && (#[trigger] s[i]).authors.contains(x))
}

/// The narrators named by any book of `s`.
pub open spec fn all_narrators(s: Seq<BookView>) -> Set<Seq<char>> {
    Set::new(
        |x: Seq<char>| exists|i: int| 0 <= i < s.len() && (#[trigger] s[i]).narrators.contains(x),
    )
}

/// A successful fold of one-track books lists their tracks in order and names every
/// author and narrator of any of them.
proof fn lemma_fold_contents(s: Seq<BookView>)
    requires
        s.len() > 0,
        one_track_each(s),
        fold_books(s) is Ok,
    ensures
        fold_books(s)->Ok_0.tracks == first_tracks(s),
        fold_books(s)->Ok_0.authors == all_authors(s),
        fold_books(s)->Ok_0.narrators == all_narrators(s),
    decreases s.len(),
{
    let b = fold_books(s)->Ok_0;
    if s.len() == 1 {
        assert(s[0].tracks =~= first_tracks(s));
        assert(b.authors =~= all_authors(s)) by {
            assert forall|x: Seq<char>| b.authors.contains(x) implies all_authors(s).contains(x) by {
                assert(s[0].authors.contains(x));
            }
        }
        assert(b.narrators =~= all_narrators(s)) by {
            assert forall|x: Seq<char>| b.narrators.contains(x) implies all_narrators(
                s,
            ).contains(x) by {
                assert(s[0].narrators.contains(x));
            }
        }
    } else {
        let p = s.drop_last();
        let l = s.len() - 1;
        assert(s[l] == s.last());
        assert(one_track_each(p)) by {
            assert forall|i: int| 0 <= i < p.len() implies (#[trigger] p[i]).tracks.len() == 1
                && p[i].total_tracks == 1 by {
                assert(p[i] == s[i]);
            }
        }
        lemma_fold_contents(p);
        assert(first_tracks(s) =~= first_tracks(p) + s.last().tracks);
        assert(b.authors =~= all_authors(s)) by {
            assert forall|x: Seq<char>| b.authors.contains(x) implies all_authors(s).contains(x) by {
                if !s.last().authors.contains(x) {
                    let i = choose|i: int| 0 <= i < p.len() && (#[trigger] p[i]).authors.contains(x);
                    assert(s[i] == p[i]);
                }
            }
            assert forall|x: Seq<char>| all_authors(s).contains(x) implies b.authors.contains(x) by {
                let i = choose|i: int| 0 <= i < s.len() && (#[trigger] s[i]).authors.contains(x);
                if i < l {
                    assert(s[i] == p[i]);
                    assert(all_authors(p).contains(x));
                }
            }
        }
        assert(b.narrators =~= all_narrators(s)) by {
            assert forall|x: Seq<char>| b.narrators.contains(x) implies all_narrators(s).contains(
                x,
            ) by {
                if !s.last().narrators.contains(x) {
                    let i = choose|i: int|
                        0 <= i < p.len() && (#[trigger] p[i]).narrators.contains(x);
                    assert(s[i] == p[i]);
                }
            }
            assert forall|x: Seq<char>| all_narrators(s).contains(x) implies b.narrators.contains(
                x,
            ) by {
                let i = choose|i: int| 0 <= i < s.len() && (#[trigger] s[i]).narrators.contains(x);
                if i < l {
                    assert(s[i] == p[i]);
                    assert(all_narrators(p).contains(x));
                }
            }
        }
    }
}

/// Where track numbers are distinct, the tracks with the number of a present track are
/// that track alone.
proof fn lemma_single_with_number(t: Seq<TrackView>, i: int)
    requires
        distinct_numbers(t),
        0 <= i < t.len(),
    ensures
        with_number(t, t[i].number) == seq![t[i]],
    decreases t.len(),
{
    reveal(Seq::filter);
    let p = t.drop_last();
    let k = t[i].number;
    assert(distinct_numbers(p));
    if i == t.len() - 1 {
        lemma_none_with_number(p, k);
        assert(with_number(t, k) =~= seq![t[i]]);
    } else {
        assert(t[i] == p[i]);
        lemma_single_with_number(p, i);
    }
}

/// Files merged in another order give the same book: where two lists of one-track books
/// hold the same books and the first merges to a book, so does the second, with the same
/// title, authors, narrators, count, disc count and year; where each list has distinct
/// track numbers, also with the same tracks under every number.
pub proof fn fold_ignores_fragment_order(s1: Seq<BookView>, s2: Seq<BookView>)
    requires
        s1.len() > 0,
        one_track_each(s1),
        one_track_each(s2),
        s1.to_multiset() == s2.to_multiset(),
        fold_books(s1) is Ok,
    ensures
        fold_books(s2) is Ok,
        fold_books(s2)->Ok_0.title == fold_books(s1)->Ok_0.title,
        fold_books(s2)->Ok_0.authors == fold_books(s1)->Ok_0.authors,
        fold_books(s2)->Ok_0.narrators == fold_books(s1)->Ok_0.narrators,
        fold_books(s2)->Ok_0.total_tracks == fold_books(s1)->Ok_0.total_tracks,
        fold_books(s2)->Ok_0.discs == fold_books(s1)->Ok_0.discs,
        fold_books(s2)->Ok_0.year == fold_books(s1)->Ok_0.year,
        distinct_numbers(first_tracks(s1)) && distinct_numbers(first_tracks(s2)) ==> forall|
            k: u32,
        |
            #[trigger] with_number(fold_books(s2)->Ok_0.tracks, k) == with_number(
                fold_books(s1)->Ok_0.tracks,
                k,
            ),
{
    let b1 = fold_books(s1)->Ok_0;
    assert(s2.len() == s1.len()) by {
        vstd::seq_lib::to_multiset_len(s1);
        vstd::seq_lib::to_multiset_len(s2);
    }
    assert forall|x: BookView| s2.contains(x) <==> s1.contains(x) by {
        vstd::seq_lib::to_multiset_contains(s1, x);
        vstd::seq_lib::to_multiset_contains(s2, x);
    }
    fold_agrees_with_fragments(s1);
    // every book of the second list is one of the first
    assert forall|j: int| 0 <= j < s2.len() implies {
        &&& (#[trigger] s2[j]).title == b1.title
        &&& s2[j].discs == b1.discs
        &&& s2[j].year == b1.year
    } by {
        assert(s2.contains(s2[j]));
        let i = choose|i: int| 0 <= i < s1.len() && s1[i] == s2[j];
    }
    fold_of_agreeing_fragments(s2);
    let b2 = fold_books(s2)->Ok_0;
    assert(s2[0].title == b1.title);
    lemma_fold_contents(s1);
    lemma_fold_contents(s2);
    lemma_fold_counts_fragments(s1);
    lemma_fold_counts_fragments(s2);
    assert(all_authors(s1) =~= all_authors(s2)) by {
        assert forall|x: Seq<char>| all_authors(s1).contains(x) implies all_authors(s2).contains(
            x,
        ) by {
            let i = choose|i: int| 0 <= i < s1.len() && (#[trigger] s1[i]).authors.contains(x);
            assert(s1.contains(s1[i]));
            let j = choose|j: int| 0 <= j < s2.len() && s2[j] == s1[i];
        }
        assert forall|x: Seq<char>| all_authors(s2).contains(x) implies all_authors(s1).contains(
            x,
        ) by {
            let j = choose|j: int| 0 <= j < s2.len() && (#[trigger] s2[j]).authors.contains(x);
            assert(s2.contains(s2[j]));
            let i = choose|i: int| 0 <= i < s1.len() && s1[i] == s2[j];
        }
    }
    assert(all_narrators(s1) =~= all_narrators(s2)) by {
        assert forall|x: Seq<char>| all_narrators(s1).contains(x) implies all_narrators(
            s2,
        ).contains(x) by {
            let i = choose|i: int| 0 <= i < s1.len() && (#[trigger] s1[i]).narrators.contains(x);
            assert(s1.contains(s1[i]));
            let j = choose|j: int| 0 <= j < s2.len() && s2[j] == s1[i];
        }
        assert forall|x: Seq<char>| all_narrators(s2).contains(x) implies all_narrators(
            s1,
        ).contains(x) by {
            let j = choose|j: int| 0 <= j < s2.len() && (#[trigger] s2[j]).narrators.contains(x);
            assert(s2.contains(s2[j]));
            let i = choose|i: int| 0 <= i < s1.len() && s1[i] == s2[j];
        }
    }
    let t1 = first_tracks(s1);
    let t2 = first_tracks(s2);
    assert forall|k: u32|
        distinct_numbers(t1) && distinct_numbers(t2) implies #[trigger] with_number(t2, k)
        == with_number(t1, k) by {
        if exists|i: int| 0 <= i < t1.len() && t1[i].number == k {
            let i = choose|i: int| 0 <= i < t1.len() && t1[i].number == k;
            assert(s1.contains(s1[i]));
            let j = choose|j: int| 0 <= j < s2.len() && s2[j] == s1[i];
            assert(t2[j] == t1[i]);
            lemma_single_with_number(t1, i);
            lemma_single_with_number(t2, j);
        } else if exists|j: int| 0 <= j < t2.len() && t2[j].number == k {
            let j = choose|j: int| 0 <= j < t2.len() && t2[j].number == k;
            assert(s2.contains(s2[j]));
            let i = choose|i: int| 0 <= i < s1.len() && s1[i] == s2[j];
            assert(t1[i] == t2[j]);
        } else {
            lemma_none_with_number(t1, k);
            lemma_none_with_number(t2, k);
        }
    }
}

/// The usable files of a directory each give a book of one track.
proof fn lemma_fragments_one_track(tags: Seq<TagFields>)
    ensures
        one_track_each(fragments(tags)),
{
    let f = fragments(tags);
    assert forall|i: int| 0 <= i < f.len() implies (#[trigger] f[i]).tracks.len() == 1
        && f[i].total_tracks == 1 by {
        assert(f[i] == file_view(parsed_tags(tags)[i]));
    }
}

/// The order in which a directory's files are listed does not change its book: where the
/// usable files of two directories describe the same one-track books, with distinct track
/// numbers, and one directory yields a book, the other yields the same book, its tracks in
/// the same order.
pub proof fn directory_ignores_file_order(
    tags1: Seq<TagFields>,
    tags2: Seq<TagFields>,
    r1: Option<Result<AudioBook, BookError>>,
    r2: Option<Result<AudioBook, BookError>>,
)
    requires
        fragments(tags1).to_multiset() == fragments(tags2).to_multiset(),
        distinct_numbers(first_tracks(fragments(tags1))),
        distinct_numbers(first_tracks(fragments(tags2))),
        is_directory_result(tags1, r1),
        is_directory_result(tags2, r2),
        option_view(r1) matches Some(Ok(_)),
    ensures
        option_view(r1) == option_view(r2),
{
    let s1 = fragments(tags1);
    let s2 = fragments(tags2);
    vstd::seq_lib::to_multiset_len(s1);
    vstd::seq_lib::to_multiset_len(s2);
    lemma_fragments_one_track(tags1);
    lemma_fragments_one_track(tags2);
    fold_ignores_fragment_order(s1, s2);
    let b1 = fold_books(s1)->Ok_0;
    let b2 = fold_books(s2)->Ok_0;
    let v1 = option_view(r1)->Some_0->Ok_0;
    let v2 = option_view(r2)->Some_0->Ok_0;
    stable_order_is_unique(b1.tracks, v1.tracks, b2.tracks, v2.tracks);
    assert(v1 == v2);
}

/// A directory yields nothing exactly when none of its files carries every required field.
pub proof fn no_book_without_usable_files(tags: Seq<TagFields>)
    ensures
        fold_directory(tags) is None <==> forall|i: int|
            0 <= i < tags.len() ==> #[trigger] missing_field(tags[i]) is Some,
{
    broadcast use vstd::seq_lib::group_filter_ensures;

    let p = parsed_tags(tags);
    if p.len() > 0 {
        assert(missing_field(p[0]) is None);
        tags.lemma_filter_contains_rev(|t: TagFields| missing_field(t) is None, p[0]);
        assert(tags.contains(p[0]));
    }
    if exists|i: int| 0 <= i < tags.len() && missing_field(tags[i]) is None {
        let i = choose|i: int| 0 <= i < tags.len() && missing_field(tags[i]) is None;
        assert(p.contains(tags[i]));
    }
}

/// The walk lists a result for every directory that yields one, whatever the other
/// directories hold, and for no other, in the order of the walk.
pub proof fn walk_lists_every_book_directory(dirs: Seq<Seq<TagFields>>)
    ensures
        forall|i: int|
            0 <= i < dirs.len() ==> (fold_directory(dirs[i]) is Some <==> book_dirs(
                dirs,
            ).contains(i)),
        forall|j: int, l: int|
            0 <= j < l < book_dirs(dirs).len() ==> book_dirs(dirs)[j] < book_dirs(dirs)[l],
        forall|j: int|
            0 <= j < book_dirs(dirs).len() ==> 0 <= #[trigger] book_dirs(dirs)[j] < dirs.len(),
    decreases dirs.len(),
{
    if dirs.len() > 0 {
        let p = dirs.drop_last();
        walk_lists_every_book_directory(p);
        let bp = book_dirs(p);
        assert forall|i: int| 0 <= i < dirs.len() implies (fold_directory(dirs[i]) is Some
            <==> book_dirs(dirs).contains(i)) by {
            if i < dirs.len() - 1 {
                assert(dirs[i] == p[i]);
                if book_dirs(dirs).contains(i) {
                    let j = choose|j: int|
                        0 <= j < book_dirs(dirs).len() && book_dirs(dirs)[j] == i;
                    if j < bp.len() {
                        assert(book_dirs(dirs)[j] == bp[j]);
                    }
                }
                if bp.contains(i) {
                    let j = choose|j: int| 0 <= j < bp.len() && bp[j] == i;
                    assert(book_dirs(dirs)[j] == bp[j]);
                }
            } else {
                if book_dirs(dirs).contains(i) {
                    let j = choose|j: int|
                        0 <= j < book_dirs(dirs).len() && book_dirs(dirs)[j] == i;
                    if j < bp.len() {
                        assert(book_dirs(dirs)[j] == bp[j]);
                    }
                }
                if fold_directory(dirs[i]) is Some {
                    assert(book_dirs(dirs)[bp.len() as int] == i);
                }
            }
        }
    }
}

/// The tracks of a directory's book never decrease in number.
pub proof fn directory_tracks_sorted(tags: Seq<TagFields>, r: Option<Result<AudioBook, BookError>>)
    requires
        is_directory_result(tags, r),
    ensures
        option_view(r) matches Some(Ok(b)) ==> sorted_by_number(b.tracks),
{
}

/// The order in which a directory's files are listed does not change what kind of result
/// it has: where the usable files of two directories describe the same one-track books,
/// both yield nothing or neither does, both yield a book or neither does, and two books
/// agree on title, authors, narrators, count, disc count and year.
pub proof fn directory_outcome_ignores_file_order(
    tags1: Seq<TagFields>,
    tags2: Seq<TagFields>,
    r1: Option<Result<AudioBook, BookError>>,
    r2: Option<Result<AudioBook, BookError>>,
)
    requires
        fragments(tags1).to_multiset() == fragments(tags2).to_multiset(),
        is_directory_result(tags1, r1),
        is_directory_result(tags2, r2),
    ensures
        r1 is None <==> r2 is None,
        option_view(r1) matches Some(Ok(_)) <==> option_view(r2) matches Some(Ok(_)),
        option_view(r1) matches Some(Ok(v1)) ==> {
            let v2 = option_view(r2)->Some_0->Ok_0;
            &&& v1.title == v2.title
            &&& v1.authors == v2.authors
            &&& v1.narrators == v2.narrators
            &&& v1.total_tracks == v2.total_tracks
            &&& v1.discs == v2.discs
            &&& v1.year == v2.year
        },
{
    let s1 = fragments(tags1);
    let s2 = fragments(tags2);
    vstd::seq_lib::to_multiset_len(s1);
    vstd::seq_lib::to_multiset_len(s2);
    lemma_fragments_one_track(tags1);
    lemma_fragments_one_track(tags2);
    if s1.len() > 0 {
        if fold_books(s1) is Ok {
            fold_ignores_fragment_order(s1, s2);
        }
        if fold_books(s2) is Ok {
            fold_ignores_fragment_order(s2, s1);
        }
    }
}

/// What one directory holds does not decide whether another is listed by the walk:
/// replacing the files of directory `d` leaves every other directory listed or not as before.
pub proof fn walk_directories_are_independent(
    dirs: Seq<Seq<TagFields>>,
    d: int,
    files: Seq<TagFields>,
    i: int,
)
    requires
        0 <= d < dirs.len(),
        0 <= i < dirs.len(),
        i != d,
    ensures
        book_dirs(dirs).contains(i) <==> book_dirs(dirs.update(d, files)).contains(i),
{
    walk_lists_every_book_directory(dirs);
    walk_lists_every_book_directory(dirs.update(d, files));
}

/// A root without usable files, above one directory whose files are all usable and agree
/// on title, disc count and year and one empty directory, gives exactly one result, a book:
/// that of the book directory.
pub proof fn walk_of_root_with_one_book(root: Seq<TagFields>, book: Seq<TagFields>)
    requires
        forall|i: int| 0 <= i < root.len() ==> #[trigger] missing_field(root[i]) is Some,
        book.len() > 0,
        forall|i: int| 0 <= i < book.len() ==> #[trigger] missing_field(book[i]) is None,
        forall|i: int, j: int|
            0 <= i < book.len() && 0 <= j < book.len() ==> {
                &&& book[i].album->Some_0@ == book[j].album->Some_0@
                &&& book[i].total_discs == book[j].total_discs
                &&& book[i].year == book[j].year
            },
    ensures
        book_dirs(seq![root, book, Seq::<TagFields>::empty()]) == seq![1int],
        fold_directory(book) matches Some(Ok(_)),
{
    let dirs = seq![root, book, Seq::<TagFields>::empty()];
    no_book_without_usable_files(root);
    no_book_without_usable_files(book);
    no_book_without_usable_files(Seq::<TagFields>::empty());
    assert(missing_field(book[0]) is None);
    let f = fragments(book);
    assert(f.len() > 0);
    assert forall|i: int, j: int| 0 <= i < f.len() && 0 <= j < f.len() implies f[i].title
        == f[j].title && f[i].discs == f[j].discs && f[i].year == f[j].year by {
        broadcast use vstd::seq_lib::group_filter_ensures;

        let p = parsed_tags(book);
        assert(book.contains(p[i])) by {
            book.lemma_filter_contains_rev(|t: TagFields| missing_field(t) is None, p[i]);
        }
        assert(book.contains(p[j])) by {
            book.lemma_filter_contains_rev(|t: TagFields| missing_field(t) is None, p[j]);
        }
        assert(f[i] == file_view(p[i]));
        assert(f[j] == file_view(p[j]));
    }
    assert(same_discs_and_year(f));
    fold_of_agreeing_fragments(f);
    assert(dirs.drop_last() =~= seq![root, book]);
    assert(dirs.drop_last().drop_last() =~= seq![root]);
    assert(dirs.drop_last().drop_last().drop_last() =~= Seq::<Seq<TagFields>>::empty());
    assert(seq![root].drop_last() =~= Seq::<Seq<TagFields>>::empty());
    assert(seq![root].last() == root);
    assert(seq![root, book].last() == book);
    assert(dirs.last() == Seq::<TagFields>::empty());
    assert(book_dirs(Seq::<Seq<TagFields>>::empty()) =~= Seq::<int>::empty());
    assert(fold_directory(root) is None);
    assert(book_dirs(seq![root]) =~= Seq::<int>::empty());
    assert(book_dirs(seq![root, book]) =~= seq![1int]);
}

} // verus!
