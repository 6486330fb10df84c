use tts_library::library::{
    chapter_format, delete_book, find_book, find_book_index, import_extension, new_book_file,
    register_imported_book, save_reading_position, Book, BookFormat,
};

fn epoch() -> chrono::NaiveDateTime {
    chrono::DateTime::from_timestamp(0, 0).unwrap().naive_utc()
}

fn book(id: &str, path: &str) -> Book {
    Book {
        id: id.to_string(),
        title: format!("Title {id}"),
        file_path: path.to_string(),
        file_type: "pdf".to_string(),
        imported_at: epoch(),
        current_chapter: 0,
        current_position: 0,
        total_chapters: 3,
    }
}

fn shelf() -> Vec<Book> {
    vec![book("1", "/lib/1.pdf"), book("2", "/lib/2.pdf"), book("3", "/lib/3.pdf")]
}

#[test]
fn books_are_found_by_id() {
    let books = shelf();
    assert_eq!(find_book_index(&books, "2"), Some(1));
    assert_eq!(find_book_index(&books, "9"), None);
    assert_eq!(find_book(&books, "3").unwrap().file_path, "/lib/3.pdf");
    assert_eq!(find_book(&books, "9").unwrap_err(), "Book not found: 9");
}

#[test]
fn deleting_a_book_removes_it_and_gives_its_file() {
    let mut books = shelf();
    assert_eq!(delete_book("2", &mut books), Ok("/lib/2.pdf".to_string()));
    let ids: Vec<&str> = books.iter().map(|b| b.id.as_str()).collect();
    assert_eq!(ids, vec!["1", "3"]);
    assert_eq!(find_book_index(&books, "2"), None);
}

#[test]
fn deleting_removes_every_book_with_the_id() {
    let mut books = vec![book("1", "/a"), book("2", "/b"), book("1", "/c")];
    assert_eq!(delete_book("1", &mut books), Ok("/a".to_string()));
    assert_eq!(books.len(), 1);
    assert_eq!(books[0].id, "2");
}

#[test]
fn deleting_a_missing_book_changes_nothing() {
    let mut books = shelf();
    assert_eq!(delete_book("9", &mut books), Err("Book not found: 9".to_string()));
    assert_eq!(books.len(), 3);
}

#[test]
fn saved_position_is_read_back() {
    let mut books = shelf();
    assert_eq!(save_reading_position("2", 4, 100, &mut books), Ok(()));
    let b = find_book(&books, "2").unwrap();
    assert_eq!(b.current_chapter, 4);
    assert_eq!(b.current_position, 100);
    assert_eq!(books[0].current_chapter, 0);
    assert_eq!(books[2].current_position, 0);
}

#[test]
fn saving_for_a_missing_book_is_an_error() {
    let mut books = shelf();
    assert_eq!(
        save_reading_position("9", 1, 1, &mut books),
        Err("Book not found: 9".to_string())
    );
    assert!(books.iter().all(|b| b.current_chapter == 0));
}

#[test]
fn file_types_are_told_apart() {
    assert!(matches!(chapter_format("pdf"), Ok(BookFormat::Pdf)));
    assert!(matches!(chapter_format("epub"), Ok(BookFormat::Epub)));
    assert!(matches!(chapter_format("txt"), Err(e) if e == "Unsupported file type"));
    assert!(matches!(chapter_format("PDF"), Err(_)));
}

#[test]
fn imported_files_need_a_pdf_or_epub_extension() {
    assert_eq!(import_extension("/a/b/Book.PDF"), Ok("pdf".to_string()));
    assert_eq!(import_extension("novel.Epub"), Ok("epub".to_string()));
    let refused = Err("Unsupported file type. Only PDF and EPUB are supported.".to_string());
    assert_eq!(import_extension("/a/b/c.txt"), refused);
    assert_eq!(import_extension("noext"), refused);
    assert_eq!(import_extension(""), refused);
}

#[test]
fn new_book_files_are_named_after_a_fresh_uuid() {
    let (id, file) = new_book_file("epub");
    assert_eq!(id.len(), 36);
    assert_eq!(id.as_bytes()[14], b'4');
    for (i, c) in id.chars().enumerate() {
        if i == 8 || i == 13 || i == 18 || i == 23 {
            assert_eq!(c, '-');
        } else {
            assert!(c.is_ascii_digit() || ('a'..='f').contains(&c));
        }
    }
    assert_eq!(file, format!("{id}.epub"));
    let (other, _) = new_book_file("pdf");
    assert_ne!(id, other);
}

#[test]
fn imported_books_are_added_unread() {
    let mut books = shelf();
    let before = chrono::Utc::now().naive_utc();
    let b = register_imported_book(
        &mut books,
        "new".to_string(),
        "/src/My Book.epub",
        "/lib/new.epub".to_string(),
        "epub".to_string(),
        7,
    );
    assert_eq!(b.id, "new");
    assert_eq!(b.title, "My Book");
    assert_eq!(b.file_path, "/lib/new.epub");
    assert_eq!(b.file_type, "epub");
    assert_eq!(b.current_chapter, 0);
    assert_eq!(b.current_position, 0);
    assert_eq!(b.total_chapters, 7);
    assert!(b.imported_at >= before);
    assert_eq!(books.len(), 4);
    assert_eq!(books[3].id, "new");
    assert_eq!(books[3].title, "My Book");
}

#[test]
fn a_book_without_file_stem_is_untitled() {
    let mut books = Vec::new();
    let b = register_imported_book(&mut books, "x".to_string(), "", "/lib/x.pdf".to_string(), "pdf".to_string(), 1);
    assert_eq!(b.title, "Untitled");
}

#[test]
fn duplicated_books_are_equal_field_by_field() {
    let b = book("7", "/lib/7.pdf");
    let d = b.duplicate();
    assert_eq!(d.id, b.id);
    assert_eq!(d.title, b.title);
    assert_eq!(d.file_path, b.file_path);
    assert_eq!(d.imported_at, b.imported_at);
    assert_eq!(d.total_chapters, b.total_chapters);
}
