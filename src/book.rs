//! Books, tracks, and the merge of two book fragments.

use crate::names::{clone_names, empty_names, insert_name, names_of, union_names};
use im::OrdSet;
use vstd::prelude::*;

verus! {

/// One audio segment: its title, its narrators, its number, and the disc it is on.
#[derive(Debug)]
pub struct Track {
    pub title: String,
    pub reader: OrdSet<String>,
    pub track: u32,
    pub disc: Option<u32>,
}

/// All tracks believed to belong to one audio book.
#[derive(Debug)]
pub struct AudioBook {
    pub title: String,
    pub author: OrdSet<String>,
    pub reader: OrdSet<String>,
    pub tracks: Vec<Track>,
    pub total_tracks: u32,
    pub discs: Option<u32>,
    pub year: Option<i32>,
}

/// Fragments that disagree on a field that must be the same across a book.
#[derive(Debug, PartialEq, Eq)]
pub enum BookError {
    TitleConflict(String, String),
    DiscCountConflict(Option<u32>, Option<u32>),
    YearConflict(Option<i32>, Option<i32>),
}

/// The metadata fields that the tag of one audio file carries, as plain values.
#[derive(Debug, Clone)]
pub struct TagFields {
    pub title: Option<String>,
    pub artists: Option<Vec<String>>,
    pub track: Option<u32>,
    pub disc: Option<u32>,
    pub album: Option<String>,
    pub album_artist: Option<String>,
    pub total_discs: Option<u32>,
    pub year: Option<i32>,
}

/// A required field that a file's tag lacks.
#[derive(Debug, Clone, Copy, PartialEq, Eq, Structural)]
pub enum ExtractError {
    NoTitle,
    NoArtist,
    NoTrack,
    NoAlbum,
}

/// The mathematical content of a [`Track`].
pub struct TrackView {
    pub title: Seq<char>,
    pub narrators: Set<Seq<char>>,
    pub number: u32,
    pub disc: Option<u32>,
}

/// The mathematical content of an [`AudioBook`].
pub struct BookView {
    pub title: Seq<char>,
    pub authors: Set<Seq<char>>,
    pub narrators: Set<Seq<char>>,
    pub tracks: Seq<TrackView>,
    pub total_tracks: int,
    pub discs: Option<u32>,
    pub year: Option<i32>,
}

/// The mathematical content of a [`BookError`].
pub enum ConflictView {
    Title(Seq<char>, Seq<char>),
    DiscCount(Option<u32>, Option<u32>),
    Year(Option<i32>, Option<i32>),
}

impl View for Track {
    type V = TrackView;

    open spec fn view(&self) -> TrackView {
        TrackView {
            title: self.title@,
            narrators: names_of(self.reader),
            number: self.track,
            disc: self.disc,
        }
    }
}

/// The views of a list of tracks.
pub open spec fn tracks_view(v: Seq<Track>) -> Seq<TrackView> {
    v.map_values(|t: Track| t@)
}

impl View for AudioBook {
    type V = BookView;

    open spec fn view(&self) -> BookView {
        BookView {
            title: self.title@,
            authors: names_of(self.author),
            narrators: names_of(self.reader),
            tracks: tracks_view(self.tracks@),
            total_tracks: self.total_tracks as int,
            discs: self.discs,
            year: self.year,
        }
    }
}

impl View for BookError {
    type V = ConflictView;

    open spec fn view(&self) -> ConflictView {
        match self {
            BookError::TitleConflict(left, right) => ConflictView::Title(left@, right@),
            BookError::DiscCountConflict(left, right) => ConflictView::DiscCount(*left, *right),
            BookError::YearConflict(left, right) => ConflictView::Year(*left, *right),
        }
    }
}

/// The view of a book-or-conflict.
pub open spec fn result_view(r: Result<AudioBook, BookError>) -> Result<BookView, ConflictView> {
    match r {
        Ok(b) => Ok(b@),
        Err(e) => Err(e@),
    }
}

/// Two fragments combined: the first failure wins; title, disc count and year must agree
/// (checked in that order); names are united, tracks concatenated and counts added.
pub open spec fn merge_spec(
    lhs: Result<BookView, ConflictView>,
    rhs: Result<BookView, ConflictView>,
) -> Result<BookView, ConflictView> {
    match lhs {
        Err(e) => Err(e),
        Ok(a) => match rhs {
            Err(e) => Err(e),
            Ok(b) => if a.title != b.title {
                Err(ConflictView::Title(a.title, b.title))
            } else if a.discs != b.discs {
                Err(ConflictView::DiscCount(a.discs, b.discs))
            } else if a.year != b.year {
                Err(ConflictView::Year(a.year, b.year))
            } else {
                Ok(
                    BookView {
                        title: a.title,
                        authors: a.authors.union(b.authors),
                        narrators: a.narrators.union(b.narrators),
                        tracks: a.tracks + b.tracks,
                        total_tracks: a.total_tracks + b.total_tracks,
                        discs: a.discs,
                        year: a.year,
                    },
                )
            },
        },
    }
}

/// The names in a list of strings.
pub open spec fn name_set(v: Seq<String>) -> Set<Seq<char>> {
    v.map_values(|s: String| s@).to_set()
}

/// The first required field that a tag lacks, if any, in the order title, artists,
/// track number, album; an artist list without names counts as missing.
pub open spec fn missing_field(tag: TagFields) -> Option<ExtractError> {
    if tag.title is None {
        Some(ExtractError::NoTitle)
    } else if tag.artists is None || tag.artists->Some_0@.len() == 0 {
        Some(ExtractError::NoArtist)
    } else if tag.track is None {
        Some(ExtractError::NoTrack)
    } else if tag.album is None {
        Some(ExtractError::NoAlbum)
    } else {
        None
    }
}

/// The author named by a tag: its album artist, or the empty name where it has none.
pub open spec fn author_of(tag: TagFields) -> Seq<char> {
    match tag.album_artist {
        Some(a) => a@,
        None => Seq::empty(),
    }
}

/// The book of one track that a tag with all required fields describes.
pub open spec fn file_view(tag: TagFields) -> BookView {
    let narrators = name_set(tag.artists->Some_0@);
    BookView {
        title: tag.album->Some_0@,
        authors: set![author_of(tag)],
        narrators,
        tracks: seq![
            TrackView {
                title: tag.title->Some_0@,
                narrators,
                number: tag.track->Some_0,
                disc: tag.disc,
            },
        ],
        total_tracks: 1,
        discs: tag.total_discs,
        year: tag.year,
    }
}

/// Builds the set of the given names.
fn names_from(v: &Vec<String>) -> (r: OrdSet<String>)
    ensures
        names_of(r) == name_set(v@),
{
    let mut set = empty_names();
    let mut i: usize = 0;
    while i < v.len()
        invariant
            i <= v.len(),
            names_of(set) == name_set(v@.take(i as int)),
        decreases v.len() - i,
    {
        let name = v[i].clone();
        proof {
            let f = |s: String| s@;
            assert(v@.take(i + 1) =~= v@.take(i as int).push(name));
            assert(v@.take(i + 1).map_values(f) =~= v@.take(i as int).map_values(f).push(name@));
            v@.take(i as int).map_values(f).lemma_push_to_set_commute(name@);
        }
        insert_name(&mut set, name);
        i = i + 1;
    }
    assert(v@.take(i as int) =~= v@);
    set
}

/// The first required field that a tag lacks, if any; a file whose tag lacks one is
/// skipped when its directory is aggregated.
pub fn check_tag(tag: &TagFields) -> (r: Option<ExtractError>)
    ensures
        r == missing_field(*tag),
{
    let no_artist = match &tag.artists {
        None => true,
        Some(a) => a.len() == 0,
    };
    if tag.title.is_none() {
        Some(ExtractError::NoTitle)
    } else if no_artist {
        Some(ExtractError::NoArtist)
    } else if tag.track.is_none() {
        Some(ExtractError::NoTrack)
    } else if tag.album.is_none() {
        Some(ExtractError::NoAlbum)
    } else {
        None
    }
}

/// Lifts the tag of one file into a book of one track.
pub fn parse_file(tag: TagFields) -> (r: Result<AudioBook, ExtractError>)
    ensures
        match missing_field(tag) {
            Some(e) => r == Err::<AudioBook, ExtractError>(e),
            None => r is Ok && r->Ok_0@ == file_view(tag),
        },
        r is Ok ==> r->Ok_0@.narrators.len() >= 1 && r->Ok_0@.tracks[0].narrators.len() >= 1,
{
    let TagFields { title, artists, track, disc, album, album_artist, total_discs, year } = tag;
    let title = match title {
        Some(t) => t,
        None => return Err(ExtractError::NoTitle),
    };
    let artists = match artists {
        Some(a) => a,
        None => return Err(ExtractError::NoArtist),
    };
    if artists.len() == 0 {
        return Err(ExtractError::NoArtist);
    }
    let track = match track {
        Some(t) => t,
        None => return Err(ExtractError::NoTrack),
    };
    let album = match album {
        Some(a) => a,
        None => return Err(ExtractError::NoAlbum),
    };
    let reader = names_from(&artists);
    let book_reader = clone_names(&reader);
    let mut author = empty_names();
    let author_name = match album_artist {
        Some(a) => a,
        None => String::new(),
    };
    insert_name(&mut author, author_name);
    let mut tracks: Vec<Track> = Vec::new();
    tracks.push(Track { title, reader, track, disc });
    let r = AudioBook {
        title: album,
        author,
        reader: book_reader,
        tracks,
        total_tracks: 1,
        discs: total_discs,
        year,
    };
    assert(r@.authors =~= set![author_of(tag)]);
    assert(r@.tracks =~= file_view(tag).tracks);
    proof {
        let f = |s: String| s@;
        let names = artists@.map_values(f);
        assert(names.contains(names[0]));
        assert(name_set(artists@).contains(names[0]));
        vstd::set_lib::lemma_set_empty_equivalency_len(name_set(artists@));
    }
    Ok(r)
}

impl AudioBook {
    /// Merges two books (or failures) into one.
    /// Title, disc count and year must be the same on both sides, otherwise the result is
    /// the conflict; a failure on either side is passed on, the left one first.
    pub fn merge(lhs: Result<Self, BookError>, rhs: Result<Self, BookError>) -> (r: Result<
        Self,
        BookError,
    >)
        requires
            lhs is Ok && rhs is Ok ==> lhs->Ok_0.total_tracks + rhs->Ok_0.total_tracks
                <= u32::MAX,
        ensures
            result_view(r) == merge_spec(result_view(lhs), result_view(rhs)),
    {
        let left_book = match lhs {
            Ok(b) => b,
            Err(e) => return Err(e),
        };
        let right_book = match rhs {
            Ok(b) => b,
            Err(e) => return Err(e),
        };
        if left_book.title != right_book.title {
            return Err(BookError::TitleConflict(left_book.title, right_book.title));
        }
        if left_book.discs != right_book.discs {
            return Err(BookError::DiscCountConflict(left_book.discs, right_book.discs));
        }
        if left_book.year != right_book.year {
            return Err(BookError::YearConflict(left_book.year, right_book.year));
        }
        let AudioBook {
            title,
            author: left_author,
            reader: left_reader,
            tracks: mut tracks,
            total_tracks: left_total,
            discs,
            year,
        } = left_book;
        let AudioBook {
            author: right_author,
            reader: right_reader,
            tracks: mut right_tracks,
            total_tracks: right_total,
            ..
        } = right_book;
        let author = union_names(left_author, right_author);
        let reader = union_names(left_reader, right_reader);
        let ghost left_tracks = tracks@;
        let ghost right_seq = right_tracks@;
        tracks.append(&mut right_tracks);
        assert(tracks_view(tracks@) =~= tracks_view(left_tracks) + tracks_view(right_seq));
        Ok(
            AudioBook {
                title,
                author,
                reader,
                tracks,
                total_tracks: left_total + right_total,
                discs,
                year,
            },
        )
    }
}

} // verus!
