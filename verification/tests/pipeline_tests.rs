use book_knn::Book;
use book_knn::EmbeddedBook;
use book_knn::EmbeddingError;
use book_knn::catalog::embed_books;

fn book(title: &str, author: &str) -> Book {
    Book {
        wikipedia_article_id: 0,
        freebase_id: String::new(),
        title: title.to_string(),
        author: author.to_string(),
        publication_date: String::new(),
        genres: String::new(),
        summary: String::new(),
    }
}

#[test]
fn pipeline_keeps_order_and_labels() {
    // a stub embedding capability returned [1, 0] for "X" and [0, 1] for "Y"
    let books = vec![book("X", "xa"), book("Y", "ya")];
    let vectors = vec![vec![1, 0], vec![0, 1]];
    let out = embed_books(&books, vectors, 2).unwrap();
    assert_eq!(out.len(), 2);
    assert_eq!(out[0].title, "X");
    assert_eq!(out[0].author, "xa");
    assert_eq!(out[0].embeddings, vec![1, 0]);
    assert_eq!(out[1].title, "Y");
    assert_eq!(out[1].author, "ya");
    assert_eq!(out[1].embeddings, vec![0, 1]);
}

#[test]
fn pipeline_rejects_wrong_dimension() {
    let books = vec![book("X", ""), book("Y", "")];
    let vectors = vec![vec![1, 0], vec![0, 1, 7]];
    assert_eq!(embed_books(&books, vectors, 2).unwrap_err(), EmbeddingError);
}

#[test]
fn pipeline_rejects_wrong_count() {
    let books = vec![book("X", ""), book("Y", "")];
    let vectors = vec![vec![1, 0]];
    assert_eq!(embed_books(&books, vectors, 2).unwrap_err(), EmbeddingError);
}

#[test]
fn pipeline_of_nothing_is_empty() {
    let books: Vec<Book> = Vec::new();
    let out = embed_books(&books, Vec::new(), 384).unwrap();
    assert!(out.is_empty());
}

#[test]
fn to_embedded_carries_label() {
    let b = book("Dune", "Frank Herbert");
    let e = b.to_embedded(vec![3, 1, 4]);
    assert_eq!(e.title, "Dune");
    assert_eq!(e.author, "Frank Herbert");
    assert_eq!(e.embeddings, vec![3, 1, 4]);
}

#[test]
fn topic_has_empty_label() {
    let e = EmbeddedBook::topic(vec![9, -2]);
    assert_eq!(e.title, "");
    assert_eq!(e.author, "");
    assert_eq!(e.embeddings, vec![9, -2]);
}

#[test]
fn at_reads_coordinates() {
    let e = EmbeddedBook::topic(vec![7, -8, 9]);
    assert_eq!(e.at(0), 7);
    assert_eq!(e.at(1), -8);
    assert_eq!(e.at(2), 9);
}
