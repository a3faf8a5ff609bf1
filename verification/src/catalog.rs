//! Catalog records and the embedding pipeline.
//!
//! A `Book` is one parsed record of the tab-separated catalog. The pipeline
//! attaches to each book the coordinate vector that an external embedding
//! capability produced for its title; coordinates are fixed-point integers,
//! so the index's geometry is exact. A vector of the wrong dimension is
//! rejected outright: the pipeline never truncates or pads.

use vstd::prelude::*;

verus! {

/// One record of the source catalog, fields in file order.
#[derive(Debug, Clone)]
pub struct Book {
    pub wikipedia_article_id: isize,
    pub freebase_id: String,
    pub title: String,
    pub author: String,
    pub publication_date: String,
    pub genres: String,
    pub summary: String,
}

/// A whole catalog.
#[derive(Debug, Clone)]
pub struct Library {
    pub books: Vec<Book>,
}

/// A record's label payload together with its embedding coordinates.
#[derive(Debug, Clone)]
pub struct EmbeddedBook {
    pub title: String,
    pub author: String,
    pub embeddings: Vec<i32>,
}

impl Book {
    /// Attach an embedding vector to this record, keeping title and author
    /// as the label payload.
    pub fn to_embedded(&self, embeddings: Vec<i32>) -> (r: EmbeddedBook)
        ensures
            r.title@ == self.title@,
            r.author@ == self.author@,
            r.embeddings@ == embeddings@,
    {
        EmbeddedBook { title: self.title.clone(), author: self.author.clone(), embeddings }
    }
}

impl EmbeddedBook {
    /// A bare query point: coordinates with an empty label.
    pub fn topic(embeddings: Vec<i32>) -> (r: Self)
        ensures
            r.title@.len() == 0,
            r.author@.len() == 0,
            r.embeddings@ == embeddings@,
    {
        Self { title: String::new(), author: String::new(), embeddings }
    }

    /// The coordinate along axis `k`.
    pub fn at(&self, k: usize) -> (r: i32)
        requires
            k < self.embeddings@.len(),
        ensures
            r == self.embeddings@[k as int],
    {
        self.embeddings[k]
    }
}

/// The external embedding capability failed to supply one vector of the
/// agreed dimension per record.
#[derive(Debug, Clone, Copy, PartialEq, Eq, Structural)]
pub struct EmbeddingError;

/// Every vector in `items` has exactly `dim` coordinates.
pub open spec fn uniform_dim(items: Seq<EmbeddedBook>, dim: int) -> bool {
    forall|i: int| 0 <= i < items.len() ==> (#[trigger] items[i]).embeddings@.len() == dim
}

/// The embedding pipeline: pair book `i` with vector `i`, in input order.
///
/// Succeeds exactly when the capability returned one vector per book and
/// every vector has dimension `dim`; otherwise fails fast with
/// `EmbeddingError`.
pub fn embed_books(books: &Vec<Book>, vectors: Vec<Vec<i32>>, dim: usize) -> (r: Result<
    Vec<EmbeddedBook>,
    EmbeddingError,
>)
    ensures
        (r is Ok) <==> (vectors@.len() == books@.len() && (forall|i: int|
            0 <= i < vectors@.len() ==> (#[trigger] vectors@[i])@.len() == dim)),
        r is Ok ==> (r->Ok_0)@.len() == books@.len(),
        r is Ok ==> (forall|i: int|
            0 <= i < books@.len() ==> {
                let e = #[trigger] (r->Ok_0)@[i];
                &&& e.title@ == books@[i].title@
                &&& e.author@ == books@[i].author@
                &&& e.embeddings@ == vectors@[i]@
            }),
        r is Err ==> r->Err_0 == EmbeddingError,
{
    if vectors.len() != books.len() {
        return Err(EmbeddingError);
    }
    let n = books.len();
    let mut i: usize = 0;
    while i < n
        invariant
            n == books@.len(),
            vectors@.len() == n,
            i <= n,
            forall|p: int| 0 <= p < i ==> (#[trigger] vectors@[p])@.len() == dim,
        decreases n - i,
    {
        if vectors[i].len() != dim {
            return Err(EmbeddingError);
        }
        i = i + 1;
    }
    let ghost all = vectors@;
    let mut rest = vectors;
    let mut out: Vec<EmbeddedBook> = Vec::new();
    let mut j: usize = 0;
    while j < n
        invariant
            n == books@.len(),
            all.len() == n,
            j <= n,
            out@.len() == j,
            rest@ =~= all.subrange(j as int, n as int),
            forall|p: int| 0 <= p < j ==> {
                let e = #[trigger] out@[p];
                &&& e.title@ == books@[p].title@
                &&& e.author@ == books@[p].author@
                &&& e.embeddings@ == all[p]@
            },
        decreases n - j,
    {
        let v = rest.remove(0);
        proof {
            assert(v == all[j as int]);
        }
        let e = books[j].to_embedded(v);
        out.push(e);
        j = j + 1;
        proof {
            assert(rest@ =~= all.subrange(j as int, n as int));
        }
    }
    Ok(out)
}

} // verus!
