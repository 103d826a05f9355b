use vstd::prelude::*;

verus! {

/// A stored document. The embedding is held as the IEEE-754 bit patterns of
/// its 32-bit float components, so that the index can keep, compare and hand
/// it back exactly without doing floating-point arithmetic itself.
#[derive(Clone, Debug)]
pub struct Document {
    pub id: String,
    pub vector: Vec<u32>,
    pub content: String,
    pub url: String,
}

/// The mathematical value of a [`Document`].
pub struct DocumentView {
    pub id: Seq<char>,
    pub vector: Seq<u32>,
    pub content: Seq<char>,
    pub url: Seq<char>,
}

impl View for Document {
    type V = DocumentView;

    open spec fn view(&self) -> DocumentView {
        DocumentView {
            id: self.id@,
            vector: self.vector@,
            content: self.content@,
            url: self.url@,
        }
    }
}

impl Document {
    /// Number of components of the embedding.
    pub fn dimension(&self) -> (r: usize)
        ensures
            r == self@.vector.len(),
    {
        self.vector.len()
    }

    /// A field-by-field copy of the document.
    pub fn duplicate(&self) -> (r: Document)
        ensures
            r@ == self@,
    {
        let mut vector: Vec<u32> = Vec::new();
        let mut i: usize = 0;
        while i < self.vector.len()
            invariant
                i <= self.vector@.len(),
                vector@ == self.vector@.subrange(0, i as int),
            decreases self.vector@.len() - i,
        {
            vector.push(self.vector[i]);
            i += 1;
        }
        assert(vector@ =~= self.vector@);
        Document {
            id: self.id.clone(),
            vector,
            content: self.content.clone(),
            url: self.url.clone(),
        }
    }
}

/// The conditions that the index reports to its callers.
#[derive(Clone, Copy, Debug, PartialEq, Eq, Structural)]
pub enum IndexError {
    /// A vector whose length differs from the index's fixed dimension.
    InvalidInput,
    /// The durable store could not be reached or refused the write.
    PersistenceFailure,
}

} // verus!
