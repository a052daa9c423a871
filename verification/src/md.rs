//! Markdown documents with front matter, and the collections they form.

use crate::assoc::{
    assoc_view, find_key, keys_distinct, lemma_assoc_view, lemma_assoc_view_len,
    lemma_assoc_view_push, lemma_assoc_view_same, lemma_assoc_view_update, pairs_map, StringMap,
};
use crate::paths::{base_name, file_name, join, join_path};
use crate::text::str_eq;
use crate::tinylang::{lemma_list_view, list_view, State, text_values, Value, ValueView};
use gray_matter::Matter;
use gray_matter::engine::YAML;
use std::collections::HashMap;
use vstd::prelude::*;

verus! {

/// The text of a document once its front matter and the delimiters around it
/// are taken out, as the front-matter parser gives it.
pub uninterp spec fn front_matter_body(content: Seq<char>) -> Seq<char>;

/// The front matter of a document read as a mapping from strings to strings:
/// `None` where the document has no front matter, `Some(None)` where it has
/// one that is no such mapping, else the mapping.
pub uninterp spec fn front_matter_fields(content: Seq<char>) -> Option<
    Option<Map<Seq<char>, Seq<char>>>,
>;

/// The HTML that the markdown converter makes of a text.
pub uninterp spec fn markdown_html(source: Seq<char>) -> Seq<char>;

/// A document split into its front matter and its body.
#[derive(Debug)]
pub struct FrontMatter {
    /// The front matter's fields, or why they could not be read; `None`
    /// where the document has no front matter.
    pub fields: Option<Result<Vec<(String, String)>, String>>,
    /// The document without its front matter.
    pub body: String,
}

/// Whether the fields of a split document stand for the given reading of its
/// front matter.
pub open spec fn fields_as(
    fields: Option<Result<Vec<(String, String)>, String>>,
    expected: Option<Option<Map<Seq<char>, Seq<char>>>>,
) -> bool {
    match (fields, expected) {
        (None, None) => true,
        (Some(Ok(pairs)), Some(Some(map))) => pairs_map(pairs@) == map,
        (Some(Err(_)), Some(None)) => true,
        _ => false,
    }
}

/// Splits a document with `gray_matter::Matter::<YAML>::parse`, delimiter
/// `---`, and reads the front matter it found with `Pod::deserialize` into a
/// map from strings to strings.
///
/// Trusted: the body is the parser's `content`; the fields are absent where
/// the parser found no front matter, an error with the deserializer's message
/// where the front matter is not a mapping from strings to strings, and else
/// the pairs of that mapping in no particular order. Both are functions of the
/// document's text alone.
#[verifier::external_body]
fn split_front_matter(content: &str) -> (r: FrontMatter)
    ensures
        r.body@ == front_matter_body(content@),
        fields_as(r.fields, front_matter_fields(content@)),
{
    let parsed = Matter::<YAML>::new().parse(content);
    let fields = parsed.data.map(
        |pod|
            match pod.deserialize::<HashMap<String, String>>() {
                Ok(map) => Ok(map.into_iter().collect()),
                Err(e) => Err(e.to_string()),
            },
    );
    FrontMatter { fields, body: parsed.content }
}

/// Converts markdown to HTML with `markdown::to_html`.
///
/// Trusted: the result is a function of the source text alone.
#[verifier::external_body]
fn to_html(source: &str) -> (r: String)
    ensures
        r@ == markdown_html(source@),
{
    markdown::to_html(source)
}

/// The front matter of a document is no mapping from strings to strings.
#[derive(Debug)]
pub struct ParseError {
    /// What the deserializer said.
    pub message: String,
}

/// A markdown document: its front matter, its body as HTML, its file name and
/// its address relative to the site.
#[derive(Debug)]
pub struct MarkdownDocument {
    pub header: StringMap,
    pub html_content: String,
    pub name: String,
    pub partial_uri: String,
}

/// What a `MarkdownDocument` stands for.
pub struct DocumentView {
    pub header: Map<Seq<char>, Seq<char>>,
    pub html_content: Seq<char>,
    pub name: Seq<char>,
    pub partial_uri: Seq<char>,
}

impl View for MarkdownDocument {
    type V = DocumentView;

    open spec fn view(&self) -> DocumentView {
        DocumentView {
            header: self.header@,
            html_content: self.html_content@,
            name: self.name@,
            partial_uri: self.partial_uri@,
        }
    }
}

/// The document that a text makes under a name and an address, or `None`
/// where its front matter is no mapping from strings to strings.
pub open spec fn document_spec(content: Seq<char>, name: Seq<char>, partial_uri: Seq<char>) -> Option<
    DocumentView,
> {
    match front_matter_fields(content) {
        Some(None) => None,
        Some(Some(map)) => Some(
            DocumentView {
                header: map,
                html_content: markdown_html(front_matter_body(content)),
                name: name,
                partial_uri: partial_uri,
            },
        ),
        None => Some(
            DocumentView {
                header: Map::empty(),
                html_content: markdown_html(front_matter_body(content)),
                name: name,
                partial_uri: partial_uri,
            },
        ),
    }
}

/// The variables that a document shows to a template: each field of its
/// header as text, then its HTML under `content` and its address under
/// `partial_uri`, which take the place of header fields of those names.
pub open spec fn document_state(doc: DocumentView) -> Map<Seq<char>, ValueView> {
    text_values(doc.header)
        .insert("content"@, ValueView::Text(doc.html_content))
        .insert("partial_uri"@, ValueView::Text(doc.partial_uri))
}

impl MarkdownDocument {
    /// Builds a document from a text that was already split and a body that
    /// was already converted.
    pub fn from_parts(
        fields: Option<Result<Vec<(String, String)>, String>>,
        html_content: String,
        name: String,
        partial_uri: String,
    ) -> (r: Result<MarkdownDocument, ParseError>)
        ensures
            match fields {
                None => r is Ok && r->Ok_0@ == (DocumentView {
                    header: Map::empty(),
                    html_content: html_content@,
                    name: name@,
                    partial_uri: partial_uri@,
                }),
                Some(Ok(pairs)) => r is Ok && r->Ok_0@ == (DocumentView {
                    header: pairs_map(pairs@),
                    html_content: html_content@,
                    name: name@,
                    partial_uri: partial_uri@,
                }),
                Some(Err(message)) => r is Err && r->Err_0.message@ == message@,
            },
    {
        let header = match fields {
            None => StringMap::new(),
            Some(Ok(pairs)) => StringMap::from_pairs(pairs),
            Some(Err(message)) => {
                return Err(ParseError { message });
            },
        };
        Ok(MarkdownDocument { header, html_content, name, partial_uri })
    }

    /// Parses a document: splits off its front matter and converts its body
    /// to HTML.
    pub fn new(content: &str, name: String, partial_uri: String) -> (r: Result<
        MarkdownDocument,
        ParseError,
    >)
        ensures
            match document_spec(content@, name@, partial_uri@) {
                Some(doc) => r is Ok && r->Ok_0@ == doc,
                None => r is Err,
            },
    {
        let front = split_front_matter(content);
        let html_content = to_html(front.body.as_str());
        MarkdownDocument::from_parts(front.fields, html_content, name, partial_uri)
    }

    /// The document's variables for a template.
    pub fn as_tinylang_state(&self) -> (state: State)
        ensures
            state@ == document_state(self@),
    {
        let mut item_state = State::new();
        item_state.insert_texts(&self.header);
        assert(item_state@ =~= text_values(self.header@));
        proof {
            reveal_strlit("content");
            reveal_strlit("partial_uri");
        }
        item_state.insert("content".to_owned(), Value::Text(self.html_content.clone()));
        item_state.insert("partial_uri".to_owned(), Value::Text(self.partial_uri.clone()));
        item_state
    }
}

impl Clone for MarkdownDocument {
    fn clone(&self) -> (r: MarkdownDocument)
        ensures
            r@ == self@,
    {
        MarkdownDocument {
            header: self.header.clone(),
            html_content: self.html_content.clone(),
            name: self.name.clone(),
            partial_uri: self.partial_uri.clone(),
        }
    }
}

/// The views of a sequence of documents, in order.
pub open spec fn docs_view(docs: Seq<MarkdownDocument>) -> Seq<DocumentView> {
    docs.map_values(|d: MarkdownDocument| d@)
}

/// The documents of one directory.
#[derive(Debug)]
pub struct MarkdownCollection {
    pub name: String,
    pub relative_path: String,
    pub collection: Vec<MarkdownDocument>,
}

/// What a `MarkdownCollection` stands for.
pub struct CollectionView {
    pub name: Seq<char>,
    pub relative_path: Seq<char>,
    pub collection: Seq<DocumentView>,
}

impl View for MarkdownCollection {
    type V = CollectionView;

    open spec fn view(&self) -> CollectionView {
        CollectionView {
            name: self.name@,
            relative_path: self.relative_path@,
            collection: docs_view(self.collection@),
        }
    }
}

/// The variables of each document of a collection, as objects, in order.
pub open spec fn collection_items(docs: Seq<DocumentView>) -> Seq<ValueView> {
    docs.map_values(|d: DocumentView| ValueView::Object(document_state(d)))
}

/// The variables that a collection shows to a template: the number of its
/// documents under `size` and their variables, in order, under `items`.
pub open spec fn collection_state(collection: CollectionView) -> Map<Seq<char>, ValueView> {
    Map::<Seq<char>, ValueView>::empty().insert(
        "size"@,
        ValueView::Numeric(collection.collection.len()),
    ).insert("items"@, ValueView::List(collection_items(collection.collection)))
}

/// The name that the collection of a directory goes by: the directory's own
/// name, and the whole path where the directory has none.
pub open spec fn directory_name(path: Seq<char>) -> Seq<char> {
    match file_name(path) {
        Some(name) => name,
        None => path,
    }
}

impl MarkdownCollection {
    /// An empty collection for the directory `path`, named by the
    /// directory's own name.
    pub fn new(path: String) -> (c: MarkdownCollection)
        ensures
            c@ == (CollectionView {
                name: directory_name(path@),
                relative_path: path@,
                collection: Seq::empty(),
            }),
    {
        let name = match base_name(path.as_str()) {
            Some(name) => name,
            None => path.clone(),
        };
        let c = MarkdownCollection { name, relative_path: path, collection: Vec::new() };
        assert(docs_view(c.collection@) =~= Seq::empty());
        c
    }

    /// The collection's variables for a template.
    pub fn as_tinylang_state(&self) -> (state: State)
        ensures
            state@ == collection_state(self@),
    {
        let mut collection_state = State::new();
        proof {
            reveal_strlit("size");
            reveal_strlit("items");
        }
        collection_state.insert("size".to_owned(), Value::Numeric(self.collection.len() as u64));
        let mut items_state: Vec<Value> = Vec::new();
        let mut i: usize = 0;
        while i < self.collection.len()
            invariant
                i <= self.collection.len(),
                items_state@.len() == i,
                forall|j: int|
                    0 <= j < i ==> #[trigger] items_state@[j]@ == ValueView::Object(
                        document_state(self.collection@[j]@),
                    ),
            decreases self.collection.len() - i,
        {
            items_state.push(Value::Object(self.collection[i].as_tinylang_state()));
            i = i + 1;
        }
        proof {
            lemma_list_view(items_state@);
            let expected = collection_items(docs_view(self.collection@));
            assert(expected.len() == items_state@.len());
            assert forall|j: int| 0 <= j < items_state@.len() implies list_view(items_state@)[j]
                == expected[j] by {
                assert(items_state@[j]@ == ValueView::Object(document_state(self.collection@[j]@)));
                assert(docs_view(self.collection@)[j] == self.collection@[j]@);
            }
            assert(list_view(items_state@) =~= expected);
        }
        collection_state.insert("items".to_owned(), Value::List(items_state));
        collection_state
    }
}

impl Clone for MarkdownCollection {
    fn clone(&self) -> (r: MarkdownCollection)
        ensures
            r@ == self@,
    {
        let mut docs: Vec<MarkdownDocument> = Vec::new();
        let mut i: usize = 0;
        while i < self.collection.len()
            invariant
                i <= self.collection.len(),
                docs@.len() == i,
                forall|j: int| 0 <= j < i ==> #[trigger] docs@[j]@ == self.collection@[j]@,
            decreases self.collection.len() - i,
        {
            docs.push(self.collection[i].clone());
            i = i + 1;
        }
        assert(docs_view(docs@) =~= docs_view(self.collection@));
        MarkdownCollection {
            name: self.name.clone(),
            relative_path: self.relative_path.clone(),
            collection: docs,
        }
    }
}

/// A collection seen as what it stands for.
pub open spec fn collection_model() -> spec_fn(MarkdownCollection) -> CollectionView {
    |c: MarkdownCollection| c@
}

/// What became of a document that was handed to the collections.
#[derive(Debug)]
pub enum Placement {
    /// It joined the collection of its directory, or opened it.
    Joined,
    /// It opened the collection of its directory under a name that the
    /// directory `from` held until now; the documents of `from` left with it.
    TookOver { from: String },
    /// Its directory has no name.
    NoDirectory,
    /// Its directory's name is held by the directory `by`; the document was
    /// left out.
    NameTaken { by: String },
}

/// What a `Placement` stands for.
pub enum PlacementView {
    Joined,
    TookOver { from: Seq<char> },
    NoDirectory,
    NameTaken { by: Seq<char> },
}

impl View for Placement {
    type V = PlacementView;

    open spec fn view(&self) -> PlacementView {
        match self {
            Placement::Joined => PlacementView::Joined,
            Placement::TookOver { from } => PlacementView::TookOver { from: from@ },
            Placement::NoDirectory => PlacementView::NoDirectory,
            Placement::NameTaken { by } => PlacementView::NameTaken { by: by@ },
        }
    }
}

/// What becomes of a document of the directory `dir`, given the collections
/// so far and the content root `root`. A collection holds the documents of
/// one directory only. A name belongs to the directory that came first,
/// except that the content root's own subdirectory of that name takes it
/// over from any other directory.
pub open spec fn placement_spec(
    collections: Map<Seq<char>, CollectionView>,
    dir: Seq<char>,
    root: Seq<char>,
) -> PlacementView {
    match file_name(dir) {
        None => PlacementView::NoDirectory,
        Some(key) => if !collections.contains_key(key) || collections[key].relative_path == dir {
            PlacementView::Joined
        } else if dir == join(root, key) {
            PlacementView::TookOver { from: collections[key].relative_path }
        } else {
            PlacementView::NameTaken { by: collections[key].relative_path }
        },
    }
}

/// The collections after one more document of the directory `dir`. The
/// document joins the collection of its directory at its end, or opens it
/// under the directory's own name; where it takes the name over, the
/// collection starts anew with this document; where the name is held by
/// another directory, or the directory has no name, nothing changes.
pub open spec fn add_to_directory(
    collections: Map<Seq<char>, CollectionView>,
    dir: Seq<char>,
    doc: DocumentView,
    root: Seq<char>,
) -> Map<Seq<char>, CollectionView> {
    match file_name(dir) {
        None => collections,
        Some(key) => if collections.contains_key(key) && collections[key].relative_path == dir {
            collections.insert(
                key,
                CollectionView {
                    name: collections[key].name,
                    relative_path: dir,
                    collection: collections[key].collection.push(doc),
                },
            )
        } else if !collections.contains_key(key) || dir == join(root, key) {
            collections.insert(
                key,
                CollectionView { name: key, relative_path: dir, collection: seq![doc] },
            )
        } else {
            collections
        },
    }
}

/// The collections of a site, by name.
#[derive(Debug)]
pub struct Collections {
    entries: Vec<(String, MarkdownCollection)>,
}

impl View for Collections {
    type V = Map<Seq<char>, CollectionView>;

    closed spec fn view(&self) -> Map<Seq<char>, CollectionView> {
        assoc_view(self.entries@, collection_model())
    }
}

impl Collections {
    #[verifier::type_invariant]
    spec fn inv(&self) -> bool {
        keys_distinct(self.entries@)
    }

    /// No collection.
    pub fn new() -> (c: Collections)
        ensures
            c@ == Map::<Seq<char>, CollectionView>::empty(),
    {
        Collections { entries: Vec::new() }
    }

    /// The collection of the given name, if any.
    pub fn get(&self, name: &str) -> (r: Option<&MarkdownCollection>)
        ensures
            match r {
                Some(c) => self@.contains_key(name@) && self@[name@] == c@,
                None => !self@.contains_key(name@),
            },
    {
        proof {
            lemma_assoc_view(self.entries@, collection_model(), name@);
        }
        match find_key(&self.entries, name) {
            Some(i) => Some(&self.entries[i].1),
            None => None,
        }
    }

    /// Whether there is a collection of the given name.
    pub fn contains_key(&self, name: &str) -> (r: bool)
        ensures
            r == self@.contains_key(name@),
    {
        self.get(name).is_some()
    }

    /// The number of collections.
    pub fn len(&self) -> (n: usize)
        ensures
            self@.dom().finite(),
            n == self@.dom().len(),
    {
        proof {
            use_type_invariant(self);
            lemma_assoc_view_len(self.entries@, collection_model());
        }
        self.entries.len()
    }

    /// The collections as pairs of name and collection, each name once.
    pub fn entries(&self) -> (r: &Vec<(String, MarkdownCollection)>)
        ensures
            assoc_view(r@, collection_model()) == self@,
            keys_distinct(r@),
    {
        proof {
            use_type_invariant(self);
        }
        &self.entries
    }

    /// Hands a document of the directory `dir` to the collections of the
    /// content root `root`, and says what became of it.
    pub fn add(&mut self, dir: String, doc: MarkdownDocument, root: &str) -> (placement: Placement)
        ensures
            final(self)@ == add_to_directory(old(self)@, dir@, doc@, root@),
            placement@ == placement_spec(old(self)@, dir@, root@),
    {
        let key = match base_name(dir.as_str()) {
            None => {
                return Placement::NoDirectory;
            },
            Some(key) => key,
        };
        proof {
            use_type_invariant(&*self);
        }
        let mut taken = Collections { entries: Vec::new() };
        core::mem::swap(self, &mut taken);
        let mut entries = taken.entries;
        let ghost before = entries@;
        proof {
            lemma_assoc_view(before, collection_model(), key@);
        }
        let placement = match find_key(&entries, key.as_str()) {
            Some(i) => {
                if str_eq(entries[i].1.relative_path.as_str(), dir.as_str()) {
                    let (name, mut collection) = entries.remove(i);
                    let ghost docs = collection.collection@;
                    collection.collection.push(doc);
                    assert(docs_view(collection.collection@) =~= docs_view(docs).push(doc@));
                    proof {
                        lemma_assoc_view_update(
                            before,
                            collection_model(),
                            i as int,
                            key,
                            collection,
                        );
                    }
                    entries.insert(i, (key, collection));
                    assert(entries@ =~= before.update(i as int, (key, collection)));
                    Placement::Joined
                } else {
                    let own = join_path(root, key.as_str());
                    if str_eq(dir.as_str(), own.as_str()) {
                        let from = entries[i].1.relative_path.clone();
                        let mut collection = MarkdownCollection::new(dir);
                        collection.collection.push(doc);
                        assert(docs_view(collection.collection@) =~= seq![doc@]);
                        proof {
                            lemma_assoc_view_update(
                                before,
                                collection_model(),
                                i as int,
                                key,
                                collection,
                            );
                        }
                        entries.set(i, (key, collection));
                        Placement::TookOver { from }
                    } else {
                        Placement::NameTaken { by: entries[i].1.relative_path.clone() }
                    }
                }
            },
            None => {
                let mut collection = MarkdownCollection::new(dir);
                collection.collection.push(doc);
                assert(docs_view(collection.collection@) =~= seq![doc@]);
                proof {
                    lemma_assoc_view_push(before, collection_model(), key, collection);
                }
                entries.push((key, collection));
                Placement::Joined
            },
        };
        *self = Collections { entries };
        placement
    }
}

impl Clone for Collections {
    fn clone(&self) -> (r: Collections)
        ensures
            r@ == self@,
    {
        proof {
            use_type_invariant(self);
        }
        let mut copy: Vec<(String, MarkdownCollection)> = Vec::new();
        let mut i: usize = 0;
        while i < self.entries.len()
            invariant
                i <= self.entries.len(),
                copy@.len() == i,
                forall|j: int|
                    0 <= j < i ==> copy@[j].0@ == self.entries@[j].0@ && copy@[j].1@
                        == self.entries@[j].1@,
            decreases self.entries.len() - i,
        {
            let key = self.entries[i].0.clone();
            let value = self.entries[i].1.clone();
            copy.push((key, value));
            i = i + 1;
        }
        proof {
            lemma_assoc_view_same(copy@, self.entries@, collection_model());
        }
        Collections { entries: copy }
    }
}

} // verus!
