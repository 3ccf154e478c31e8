use exporter::book::TagFields;
use exporter::parse_all_books;

fn tag(album: &str, track: u32) -> TagFields {
    TagFields {
        title: Some(format!("Part {}", track)),
        artists: Some(vec!["Reader".to_string()]),
        track: Some(track),
        disc: None,
        album: Some(album.to_string()),
        album_artist: None,
        total_discs: None,
        year: None,
    }
}

#[test]
fn test_parse_all_books() {
    // a root without audio files, a book directory, an empty directory
    let dirs = vec![Vec::new(), vec![tag("Huckfinn", 2), tag("Huckfinn", 1)], Vec::new()];
    let books = parse_all_books(dirs);
    assert_eq!(books.len(), 1);
    let b = books[0].as_ref().unwrap();
    assert_eq!(b.title, "Huckfinn");
    assert_eq!(b.total_tracks, 2);
    assert_eq!(b.tracks[0].track, 1);
}

#[test]
fn conflict_in_one_directory_leaves_the_others() {
    let dirs = vec![
        vec![tag("Penguin Island", 1)],
        vec![tag("A", 1), tag("B", 2)],
        Vec::new(),
        vec![tag("Winnetou", 1), tag("Winnetou", 2)],
    ];
    let books = parse_all_books(dirs);
    assert_eq!(books.len(), 3);
    assert_eq!(books[0].as_ref().unwrap().title, "Penguin Island");
    assert!(books[1].is_err());
    assert_eq!(books[2].as_ref().unwrap().title, "Winnetou");
    assert_eq!(books[2].as_ref().unwrap().total_tracks, 2);
}

#[test]
fn walk_without_books_is_empty() {
    assert!(parse_all_books(vec![Vec::new(), Vec::new()]).is_empty());
    assert!(parse_all_books(Vec::new()).is_empty());
}
