use exporter::book::{check_tag, parse_file, AudioBook, BookError, ExtractError, TagFields};
use exporter::directory::parse_book;
use im::OrdSet;

fn names(list: &[&str]) -> OrdSet<String> {
    let mut set = OrdSet::new();
    for n in list {
        set.insert(n.to_string());
    }
    set
}

fn tag(album: &str, title: &str, track: u32) -> TagFields {
    TagFields {
        title: Some(title.to_string()),
        artists: Some(vec!["Reader".to_string()]),
        track: Some(track),
        disc: None,
        album: Some(album.to_string()),
        album_artist: Some("Author".to_string()),
        total_discs: Some(1),
        year: Some(2008),
    }
}

fn book(album: &str, track: u32) -> AudioBook {
    parse_file(tag(album, "Chapter", track)).unwrap()
}

fn numbers(b: &AudioBook) -> Vec<u32> {
    b.tracks.iter().map(|t| t.track).collect()
}

#[test]
fn test_parse_single_file() {
    let t = TagFields {
        title: Some("Chapter 01".to_string()),
        artists: Some(vec!["John Greenman".to_string(), "Second Reader".to_string()]),
        track: Some(1),
        disc: Some(1),
        album: Some("Adventures of Huckleberry Finn".to_string()),
        album_artist: Some("Mark Twain".to_string()),
        total_discs: Some(1),
        year: Some(2008),
    };
    let b = parse_file(t).unwrap();
    assert_eq!(b.title, "Adventures of Huckleberry Finn");
    assert_eq!(b.author, names(&["Mark Twain"]));
    assert_eq!(b.reader, names(&["John Greenman", "Second Reader"]));
    assert_eq!(b.total_tracks, 1);
    assert_eq!(b.discs, Some(1));
    assert_eq!(b.year, Some(2008));
    assert_eq!(b.tracks.len(), 1);
    assert_eq!(b.tracks[0].title, "Chapter 01");
    assert_eq!(b.tracks[0].reader, names(&["John Greenman", "Second Reader"]));
    assert_eq!(b.tracks[0].track, 1);
    assert_eq!(b.tracks[0].disc, Some(1));
}

#[test]
fn missing_album_artist_gives_empty_author() {
    let mut t = tag("Winnetou", "Teil 1", 1);
    t.album_artist = None;
    let b = parse_file(t).unwrap();
    assert_eq!(b.author, names(&[""]));
    assert_eq!(b.author.len(), 1);
}

#[test]
fn missing_fields_are_reported_in_order() {
    let mut t = tag("A", "T", 1);
    t.title = None;
    t.album = None;
    assert_eq!(parse_file(t).unwrap_err(), ExtractError::NoTitle);
    let mut t = tag("A", "T", 1);
    t.artists = None;
    t.track = None;
    assert_eq!(parse_file(t).unwrap_err(), ExtractError::NoArtist);
    let mut t = tag("A", "T", 1);
    t.track = None;
    assert_eq!(parse_file(t).unwrap_err(), ExtractError::NoTrack);
    let mut t = tag("A", "T", 1);
    t.album = None;
    assert_eq!(parse_file(t).unwrap_err(), ExtractError::NoAlbum);
}

#[test]
fn test_parse_book() {
    // four files of one book, listed out of order
    let tags = vec![
        tag("Adventures of Huckleberry Finn", "Chapter 3", 3),
        tag("Adventures of Huckleberry Finn", "Chapter 1", 1),
        tag("Adventures of Huckleberry Finn", "Chapter 4", 4),
        tag("Adventures of Huckleberry Finn", "Chapter 2", 2),
    ];
    let b = parse_book(tags).unwrap().unwrap();
    assert_eq!(b.title, "Adventures of Huckleberry Finn");
    assert_eq!(b.total_tracks, 4);
    assert_eq!(numbers(&b), vec![1, 2, 3, 4]);
    assert_eq!(b.tracks[0].title, "Chapter 1");
    assert_eq!(b.author, names(&["Author"]));
    assert_eq!(b.reader, names(&["Reader"]));
    assert_eq!(b.discs, Some(1));
    assert_eq!(b.year, Some(2008));
}

#[test]
fn test_parse_folder_without_audiofiles() {
    assert!(parse_book(Vec::new()).is_none());
}

#[test]
fn folder_whose_files_all_fail_gives_nothing() {
    let mut a = tag("A", "T", 1);
    a.title = None;
    let mut b = tag("A", "T", 2);
    b.album = None;
    assert!(parse_book(vec![a, b]).is_none());
}

#[test]
fn unusable_files_are_skipped() {
    let mut bad = tag("Book", "T", 9);
    bad.track = None;
    let b = parse_book(vec![tag("Book", "T", 2), bad, tag("Book", "T", 1)]).unwrap().unwrap();
    assert_eq!(b.total_tracks, 2);
    assert_eq!(numbers(&b), vec![1, 2]);
}

#[test]
fn single_file_directory_is_a_book() {
    let b = parse_book(vec![tag("Sherlock Holmes", "Story", 7)]).unwrap().unwrap();
    assert_eq!(b.total_tracks, 1);
    assert_eq!(numbers(&b), vec![7]);
}

#[test]
fn order_does_not_depend_on_file_order() {
    let mut runs = Vec::new();
    for order in [[0usize, 1, 2], [2, 1, 0], [1, 2, 0]] {
        let all = [tag("Book", "One", 1), tag("Book", "Two", 2), tag("Book", "Three", 3)];
        let tags: Vec<TagFields> = order.iter().map(|&i| all[i].clone()).collect();
        let b = parse_book(tags).unwrap().unwrap();
        let titles: Vec<String> = b.tracks.iter().map(|t| t.title.clone()).collect();
        runs.push((numbers(&b), titles, b.total_tracks));
    }
    assert_eq!(runs[0], runs[1]);
    assert_eq!(runs[0], runs[2]);
    assert_eq!(runs[0].0, vec![1, 2, 3]);
}

#[test]
fn equal_track_numbers_keep_their_order() {
    let tags = vec![
        tag("Book", "second disc, first", 1),
        tag("Book", "any", 0),
        tag("Book", "first disc, first", 1),
    ];
    let b = parse_book(tags).unwrap().unwrap();
    let titles: Vec<&str> = b.tracks.iter().map(|t| t.title.as_str()).collect();
    assert_eq!(titles, vec!["any", "second disc, first", "first disc, first"]);
}

#[test]
fn differing_titles_give_a_title_conflict() {
    let r = parse_book(vec![tag("Huckfinn", "T", 1), tag("Winnetou", "T", 2)]).unwrap();
    assert_eq!(
        r.unwrap_err(),
        BookError::TitleConflict("Huckfinn".to_string(), "Winnetou".to_string())
    );
}

#[test]
fn differing_disc_counts_give_a_conflict() {
    let mut b = tag("Book", "T", 2);
    b.total_discs = Some(2);
    let r = parse_book(vec![tag("Book", "T", 1), b]).unwrap();
    assert_eq!(r.unwrap_err(), BookError::DiscCountConflict(Some(1), Some(2)));
}

#[test]
fn differing_years_give_a_conflict() {
    let mut b = tag("Book", "T", 2);
    b.year = None;
    let r = parse_book(vec![tag("Book", "T", 1), b]).unwrap();
    assert_eq!(r.unwrap_err(), BookError::YearConflict(Some(2008), None));
}

#[test]
fn first_conflict_wins() {
    let mut b = tag("Book", "T", 2);
    b.year = Some(1999);
    let r = parse_book(vec![tag("Book", "T", 1), b, tag("Other", "T", 3)]).unwrap();
    assert_eq!(r.unwrap_err(), BookError::YearConflict(Some(2008), Some(1999)));
}

#[test]
fn merge_with_itself_doubles_tracks() {
    let a = book("Book", 5);
    let b = book("Book", 5);
    let m = AudioBook::merge(Ok(a), Ok(b)).unwrap();
    assert_eq!(m.total_tracks, 2);
    assert_eq!(numbers(&m), vec![5, 5]);
    assert_eq!(m.author, names(&["Author"]));
    assert_eq!(m.reader, names(&["Reader"]));
    assert_eq!(m.title, "Book");
}

#[test]
fn merge_sums_counts_and_unites_names() {
    let mut t = tag("Book", "T", 3);
    t.artists = Some(vec!["Other Reader".to_string()]);
    t.album_artist = Some("Co-Author".to_string());
    let left = AudioBook::merge(Ok(book("Book", 1)), Ok(book("Book", 2))).unwrap();
    let m = AudioBook::merge(Ok(left), Ok(parse_file(t).unwrap())).unwrap();
    assert_eq!(m.total_tracks, 3);
    assert_eq!(numbers(&m), vec![1, 2, 3]);
    assert_eq!(m.author, names(&["Author", "Co-Author"]));
    assert_eq!(m.reader, names(&["Reader", "Other Reader"]));
}

#[test]
fn merge_passes_on_the_left_failure_first() {
    let left = Err(BookError::YearConflict(Some(1), Some(2)));
    let right = Err(BookError::TitleConflict("a".to_string(), "b".to_string()));
    assert_eq!(
        AudioBook::merge(left, right).unwrap_err(),
        BookError::YearConflict(Some(1), Some(2))
    );
    let right = Err(BookError::DiscCountConflict(None, Some(3)));
    assert_eq!(
        AudioBook::merge(Ok(book("Book", 1)), right).unwrap_err(),
        BookError::DiscCountConflict(None, Some(3))
    );
}

#[test]
fn empty_artist_list_counts_as_missing() {
    let mut t = tag("A", "T", 1);
    t.artists = Some(Vec::new());
    assert_eq!(check_tag(&t), Some(ExtractError::NoArtist));
    assert_eq!(parse_file(t.clone()).unwrap_err(), ExtractError::NoArtist);
    assert!(parse_book(vec![t]).is_none());
}

#[test]
fn check_tag_names_the_first_missing_field() {
    assert_eq!(check_tag(&tag("A", "T", 1)), None);
    let mut t = tag("A", "T", 1);
    t.track = None;
    t.album = None;
    assert_eq!(check_tag(&t), Some(ExtractError::NoTrack));
    t.track = Some(4);
    assert_eq!(check_tag(&t), Some(ExtractError::NoAlbum));
    t.title = None;
    assert_eq!(check_tag(&t), Some(ExtractError::NoTitle));
}
