//! The book library: the list of imported books, looked up by id.

use vstd::prelude::*;
use crate::paths::{extension_of, file_stem_of, path_extension, stem_or};
use crate::text::{append_str, lowercase, same_text, string_from, to_lowercase};

verus! {

#[verifier::external_type_specification]
#[verifier::external_body]
pub struct ExNaiveDateTime(chrono::NaiveDateTime);

/// A book of the library.
#[derive(Debug)]
pub struct Book {
    pub id: String,
    pub title: String,
    pub file_path: String,
    pub file_type: String,
    pub imported_at: chrono::NaiveDateTime,
    pub current_chapter: usize,
    pub current_position: usize,
    pub total_chapters: usize,
}

impl Book {
    /// A copy of the book.
    pub fn duplicate(&self) -> (r: Book)
        ensures
            r == *self,
    {
        Book {
            id: self.id.clone(),
            title: self.title.clone(),
            file_path: self.file_path.clone(),
            file_type: self.file_type.clone(),
            imported_at: self.imported_at,
            current_chapter: self.current_chapter,
            current_position: self.current_position,
            total_chapters: self.total_chapters,
        }
    }
}

/// Position of the first book of `books` with id `id`.
pub open spec fn first_with_id(books: Seq<Book>, id: Seq<char>) -> Option<int>
    decreases books.len(),
{
    if books.len() == 0 {
        None
    } else if books[0].id@ == id {
        Some(0)
    } else {
        match first_with_id(books.drop_first(), id) {
            Some(i) => Some(i + 1),
            None => None,
        }
    }
}

pub open spec fn not_found_error(id: Seq<char>) -> Seq<char> {
    "Book not found: "@ + id
}

proof fn lemma_first_with_id(books: Seq<Book>, id: Seq<char>)
    ensures
        first_with_id(books, id) matches Some(i) ==> 0 <= i < books.len() && books[i].id@ == id
            && forall|j: int| 0 <= j < i ==> books[j].id@ != id,
        first_with_id(books, id) is None ==> forall|j: int| 0 <= j < books.len() ==> books[j].id@ != id,
    decreases books.len(),
{
    if books.len() > 0 {
        lemma_first_with_id(books.drop_first(), id);
        if books[0].id@ != id {
            assert forall|j: int| 1 <= j < books.len() implies books[j].id@ == books.drop_first()[j - 1].id@ by {}
        }
    }
}

/// Position of the first book with id `id`.
pub fn find_book_index(books: &Vec<Book>, id: &str) -> (r: Option<usize>)
    ensures
        r matches Some(i) ==> first_with_id(books@, id@) == Some(i as int),
        r is None ==> first_with_id(books@, id@) is None,
{
    let mut i: usize = 0;
    assert(books@.skip(0) =~= books@);
    while i < books.len()
        invariant
            i <= books.len(),
            first_with_id(books@, id@) == (match first_with_id(books@.skip(i as int), id@) {
                Some(k) => Some(k + i),
                None => None,
            }),
        decreases books.len() - i,
    {
        let ghost s = books@.skip(i as int);
        assert(s[0] == books@[i as int]);
        assert(s.drop_first() =~= books@.skip(i + 1));
        if same_text(books[i].id.as_str(), id) {
            return Some(i);
        }
        i = i + 1;
    }
    assert(books@.skip(i as int).len() == 0);
    None
}

fn not_found(id: &str) -> (r: String)
    ensures
        r@ == not_found_error(id@),
{
    let mut acc: Vec<char> = Vec::new();
    append_str(&mut acc, "Book not found: ");
    append_str(&mut acc, id);
    string_from(&acc)
}

/// The first book with id `id`.
pub fn find_book<'a>(books: &'a Vec<Book>, id: &str) -> (r: Result<&'a Book, String>)
    ensures
        first_with_id(books@, id@) matches Some(i) ==> (r matches Ok(b) && *b == books@[i]),
        first_with_id(books@, id@) is None ==> (r matches Err(e) && e@ == not_found_error(id@)),
{
    proof {
        lemma_first_with_id(books@, id@);
    }
    match find_book_index(books, id) {
        Some(i) => Ok(&books[i]),
        None => Err(not_found(id)),
    }
}

pub open spec fn has_other_id(id: Seq<char>) -> spec_fn(Book) -> bool {
    |b: Book| b.id@ != id
}

/// Removes the books with id `id` and gives the file of the first of them,
/// for the caller to delete; the library is unchanged when there is none.
pub fn delete_book(book_id: &str, books: &mut Vec<Book>) -> (r: Result<String, String>)
    ensures
        first_with_id(old(books)@, book_id@) matches Some(i) ==> {
            &&& r matches Ok(p) && p@ == old(books)@[i].file_path@
            &&& final(books)@ == old(books)@.filter(has_other_id(book_id@))
        },
        first_with_id(old(books)@, book_id@) is None ==> {
            &&& r matches Err(e) && e@ == not_found_error(book_id@)
            &&& final(books)@ == old(books)@
        },
{
    proof {
        lemma_first_with_id(books@, book_id@);
    }
    let path = match find_book_index(books, book_id) {
        Some(i) => books[i].file_path.clone(),
        None => {
            return Err(not_found(book_id));
        },
    };
    let ghost orig = books@;
    let mut kept: Vec<Book> = Vec::new();
    let mut i: usize = 0;
    proof {
        reveal_with_fuel(Seq::filter, 1);
        assert(orig.take(0).filter(has_other_id(book_id@)) =~= Seq::<Book>::empty());
    }
    while i < books.len()
        invariant
            i <= books.len(),
            orig == books@,
            kept@ == orig.take(i as int).filter(has_other_id(book_id@)),
        decreases books.len() - i,
    {
        proof {
            assert(orig.take(i + 1) =~= orig.take(i as int).push(orig[i as int]));
            orig.take(i as int).lemma_filter_push(orig[i as int], has_other_id(book_id@));
        }
        if !same_text(books[i].id.as_str(), book_id) {
            kept.push(books[i].duplicate());
        }
        i = i + 1;
    }
    assert(orig.take(books.len() as int) =~= orig);
    *books = kept;
    Ok(path)
}

/// Records how far a book has been read: the first book with id `book_id`
/// gets `chapter` and `position`.
pub fn save_reading_position(
    book_id: &str,
    chapter: usize,
    position: usize,
    books: &mut Vec<Book>,
) -> (r: Result<(), String>)
    ensures
        first_with_id(old(books)@, book_id@) matches Some(i) ==> {
            &&& r is Ok
            &&& final(books)@ == old(books)@.update(
                i,
                Book { current_chapter: chapter, current_position: position, ..old(books)@[i] },
            )
        },
        first_with_id(old(books)@, book_id@) is None ==> {
            &&& r matches Err(e) && e@ == not_found_error(book_id@)
            &&& final(books)@ == old(books)@
        },
{
    proof {
        lemma_first_with_id(books@, book_id@);
    }
    match find_book_index(books, book_id) {
        Some(i) => {
            let mut b = books[i].duplicate();
            b.current_chapter = chapter;
            b.current_position = position;
            books.set(i, b);
            Ok(())
        },
        None => Err(not_found(book_id)),
    }
}

/// The formats a book can have.
pub enum BookFormat {
    Pdf,
    Epub,
}

/// The format named by a book's file type: `pdf` or `epub`.
pub fn chapter_format(file_type: &str) -> (r: Result<BookFormat, String>)
    ensures
        file_type@ == "pdf"@ ==> r matches Ok(BookFormat::Pdf),
        file_type@ == "epub"@ ==> r matches Ok(BookFormat::Epub),
        file_type@ != "pdf"@ && file_type@ != "epub"@ ==> (r matches Err(e) && e@
            == "Unsupported file type"@),
{
    proof {
        reveal_strlit("pdf");
        reveal_strlit("epub");
        assert("pdf"@.len() != "epub"@.len());
    }
    if same_text(file_type, "pdf") {
        Ok(BookFormat::Pdf)
    } else if same_text(file_type, "epub") {
        Ok(BookFormat::Epub)
    } else {
        Err("Unsupported file type".to_owned())
    }
}

/// The lowercased extension of `path`, empty when it has none.
pub open spec fn lower_extension(path: Seq<char>) -> Seq<char> {
    lowercase(
        match path_extension(path) {
            Some(e) => e,
            None => Seq::empty(),
        },
    )
}

pub open spec fn unsupported_type_error() -> Seq<char> {
    "Unsupported file type. Only PDF and EPUB are supported."@
}

/// The file type of a book to import: the lowercased extension of its path,
/// which must be `pdf` or `epub`.
pub fn import_extension(file_path: &str) -> (r: Result<String, String>)
    ensures
        (lower_extension(file_path@) == "pdf"@ || lower_extension(file_path@) == "epub"@) ==> (
        r matches Ok(e) && e@ == lower_extension(file_path@)),
        !(lower_extension(file_path@) == "pdf"@ || lower_extension(file_path@) == "epub"@) ==> (
        r matches Err(e) && e@ == unsupported_type_error()),
{
    let raw = match extension_of(file_path) {
        Some(e) => e,
        None => String::new(),
    };
    let ext = to_lowercase(raw.as_str());
    if !same_text(ext.as_str(), "pdf") && !same_text(ext.as_str(), "epub") {
        return Err("Unsupported file type. Only PDF and EPUB are supported.".to_owned());
    }
    Ok(ext)
}

/// Whether `s` is a UUID written as `uuid` writes it: 36 characters,
/// hyphens at positions 8, 13, 18 and 23 and lowercase hexadecimal digits
/// elsewhere, with version 4 at position 14.
pub open spec fn is_v4_uuid_text(s: Seq<char>) -> bool {
    &&& s.len() == 36
    &&& forall|i: int|
        0 <= i < 36 ==> if i == 8 || i == 13 || i == 18 || i == 23 {
            #[trigger] s[i] == '-'
        } else {
            ('0' <= s[i] <= '9') || ('a' <= s[i] <= 'f')
        }
    &&& s[14] == '4'
}

/// `uuid::Uuid::new_v4().to_string()`: a random (version 4) UUID in its
/// hyphenated lowercase form. Which one comes out is left open.
#[verifier::external_body]
fn new_uuid() -> (r: String)
    ensures
        is_v4_uuid_text(r@),
{
    uuid::Uuid::new_v4().to_string()
}

/// The id of a newly imported book and the name of its stored file,
/// `<id>.<file type>`.
pub fn new_book_file(file_type: &str) -> (r: (String, String))
    ensures
        is_v4_uuid_text(r.0@),
        r.1@ == r.0@ + "."@ + file_type@,
{
    let id = new_uuid();
    let mut acc: Vec<char> = Vec::new();
    append_str(&mut acc, id.as_str());
    append_str(&mut acc, ".");
    append_str(&mut acc, file_type);
    (id, string_from(&acc))
}

/// `chrono::Utc::now().naive_utc()`: the current UTC date and time. Nothing
/// is stated of it.
#[verifier::external_body]
fn now_naive_utc() -> chrono::NaiveDateTime {
    chrono::Utc::now().naive_utc()
}

/// Adds a newly imported book to the library: titled after the file stem
/// of `source_path` (`Untitled` without one), stored at `stored_path`,
/// unread, with `total_chapters` chapters, imported now.
pub fn register_imported_book(
    books: &mut Vec<Book>,
    id: String,
    source_path: &str,
    stored_path: String,
    file_type: String,
    total_chapters: usize,
) -> (r: Book)
    ensures
        r.id == id,
        r.title@ == stem_or(source_path@, "Untitled"@),
        r.file_path == stored_path,
        r.file_type == file_type,
        r.current_chapter == 0,
        r.current_position == 0,
        r.total_chapters == total_chapters,
        final(books)@ == old(books)@.push(r),
{
    let title = match file_stem_of(source_path) {
        Some(s) => s,
        None => "Untitled".to_owned(),
    };
    let book = Book {
        id,
        title,
        file_path: stored_path,
        file_type,
        imported_at: now_naive_utc(),
        current_chapter: 0,
        current_position: 0,
        total_chapters,
    };
    books.push(book.duplicate());
    book
}

/// Once a book is deleted, no book with its id is left, and a lookup of
/// the id finds nothing.
pub proof fn law_deleted_book_is_gone(books: Seq<Book>, id: Seq<char>)
    ensures
        forall|j: int|
            0 <= j < books.filter(has_other_id(id)).len() ==> (#[trigger] books.filter(
                has_other_id(id),
            )[j]).id@ != id,
        first_with_id(books.filter(has_other_id(id)), id) is None,
{
    let f = books.filter(has_other_id(id));
    assert forall|j: int| 0 <= j < f.len() implies (#[trigger] f[j]).id@ != id by {
        books.lemma_filter_pred(has_other_id(id), j);
    }
    lemma_first_with_id(f, id);
}

/// Deleting a book leaves every book with another id, in order.
pub proof fn law_delete_keeps_others(books: Seq<Book>, id: Seq<char>)
    ensures
        forall|j: int|
            0 <= j < books.len() && books[j].id@ != id ==> books.filter(has_other_id(id)).contains(
                #[trigger] books[j],
            ),
{
    assert forall|j: int| 0 <= j < books.len() && books[j].id@ != id implies books.filter(
        has_other_id(id),
    ).contains(#[trigger] books[j]) by {
        books.lemma_filter_contains(has_other_id(id), j);
    }
}

/// After a reading position is saved, looking the book up again gives the
/// saved chapter and position.
pub proof fn law_saved_position_read_back(
    books: Seq<Book>,
    id: Seq<char>,
    chapter: usize,
    position: usize,
)
    requires
        first_with_id(books, id) is Some,
    ensures
        ({
            let i = first_with_id(books, id)->0;
            let updated = books.update(
                i,
                Book { current_chapter: chapter, current_position: position, ..books[i] },
            );
            &&& first_with_id(updated, id) == Some(i)
            &&& updated[i].current_chapter == chapter
            &&& updated[i].current_position == position
        }),
{
    let i = first_with_id(books, id)->0;
    lemma_first_with_id(books, id);
    let updated = books.update(
        i,
        Book { current_chapter: chapter, current_position: position, ..books[i] },
    );
    lemma_first_with_id(updated, id);
    assert(forall|j: int| 0 <= j < i ==> updated[j] == books[j]);
    assert(updated[i].id@ == id);
    if let Some(k) = first_with_id(updated, id) {
        if k < i {
            assert(updated[k] == books[k]);
        }
    }
}

/// Looking a book up by id finds the first book with that id, and finds
/// nothing exactly when no book has it.
pub proof fn law_lookup_finds_first(books: Seq<Book>, id: Seq<char>)
    ensures
        first_with_id(books, id) matches Some(i) ==> 0 <= i < books.len() && books[i].id@ == id
            && forall|j: int| 0 <= j < i ==> books[j].id@ != id,
        first_with_id(books, id) is None <==> forall|j: int| 0 <= j < books.len() ==> books[j].id@ != id,
{
    lemma_first_with_id(books, id);
}

} // verus!
