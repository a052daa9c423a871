//! The build orchestrator: from the scanned content and templates of a site to
//! the list of things to do, one render per output file.

use crate::assoc::{assoc_view, keys_distinct, lemma_assoc_view_push, lemma_key_index_is};
use crate::config::{Configuration, ConfigurationView};
use crate::io::{
    FsEntry, LazyFolderReader, load_spec, LoadError, read_folder_spec, ScanError, ScannedFile,
    ScannedFileView, TemplateFile, TemplateFileView,
};
use crate::md::{
    add_to_directory, collection_model, collection_state, Collections, CollectionView,
    document_spec, document_state, DocumentView, MarkdownCollection, MarkdownDocument,
    ParseError, Placement, placement_spec, PlacementView,
};
use crate::paths::{
    extension_is, file_name, has_extension, is_plain_name, join, join_path,
    lemma_entry_of_directory,
    lemma_extension_is_suffix, lemma_extension_of_name, lemma_parent_name,
    lemma_replace_extension_of_name, parent, parent_dir, replace_extension,
    strip_prefix, with_extension, without_prefix,
};
use crate::text::{catenate, slice, to_chars};
use crate::tinylang::{Builtin, State, text_values, Value, ValueView};
use vstd::prelude::*;

verus! {

/// One render: evaluate `template` against `state` and write the result to
/// the file `file_name` of the directory `output_folder`.
#[derive(Debug)]
pub struct RenderTask {
    pub template: String,
    pub state: State,
    pub output_folder: String,
    pub file_name: String,
}

/// What a `RenderTask` stands for.
pub struct RenderTaskView {
    pub template: Seq<char>,
    pub state: Map<Seq<char>, ValueView>,
    pub output_folder: Seq<char>,
    pub file_name: Seq<char>,
}

impl View for RenderTask {
    type V = RenderTaskView;

    open spec fn view(&self) -> RenderTaskView {
        RenderTaskView {
            template: self.template@,
            state: self.state@,
            output_folder: self.output_folder@,
            file_name: self.file_name@,
        }
    }
}

/// One step of a build, to be carried out in the order given.
#[derive(Debug)]
pub enum BuildAction {
    /// Make sure that the directory exists.
    CreateDir { path: String },
    /// Render one output file; renders may run side by side.
    Render(RenderTask),
    /// Tell the user that the template at `path` was left out, and why.
    Skip { path: String, error: LoadError },
}

/// What a `BuildAction` stands for.
pub enum ActionView {
    CreateDir { path: Seq<char> },
    Render(RenderTaskView),
    Skip { path: Seq<char>, error: LoadError },
}

impl View for BuildAction {
    type V = ActionView;

    open spec fn view(&self) -> ActionView {
        match self {
            BuildAction::CreateDir { path } => ActionView::CreateDir { path: path@ },
            BuildAction::Render(task) => ActionView::Render(task@),
            BuildAction::Skip { path, error } => ActionView::Skip { path: path@, error: *error },
        }
    }
}

/// The views of a sequence of actions, in order.
pub open spec fn actions_view(actions: Seq<BuildAction>) -> Seq<ActionView> {
    actions.map_values(|a: BuildAction| a@)
}

/// The name of the file that a plain template is rendered to.
pub open spec fn output_name(name: Seq<char>) -> Seq<char> {
    replace_extension(name, "template"@, "html"@)
}

/// The name of the file that a document of a collection is rendered to.
pub open spec fn item_output_name(name: Seq<char>) -> Seq<char> {
    replace_extension(name, "md"@, "html"@)
}

/// Whether a template's name marks it as the renderer of a collection.
pub open spec fn is_collection_template(name: Seq<char>) -> bool {
    name.len() > 0 && name[0] == '_'
}

/// The collection that a marked template renders: its name without the
/// marker and without the template extension.
pub open spec fn collection_key(name: Seq<char>) -> Seq<char> {
    if has_extension(name, "template"@) {
        name.subrange(1, name.len() - ".template"@.len())
    } else {
        name.subrange(1, name.len() as int)
    }
}

/// The render of a plain template.
pub open spec fn plain_task(
    file: TemplateFileView,
    state: Map<Seq<char>, ValueView>,
    output: Seq<char>,
) -> RenderTaskView {
    RenderTaskView {
        template: file.contents,
        state: state,
        output_folder: output,
        file_name: output_name(file.name),
    }
}

/// The render of one document of a collection: the shared state with the
/// document's own variables under `content`.
pub open spec fn item_task(
    template: Seq<char>,
    state: Map<Seq<char>, ValueView>,
    dir: Seq<char>,
    doc: DocumentView,
) -> RenderTaskView {
    RenderTaskView {
        template: template,
        state: state.insert("content"@, ValueView::Object(document_state(doc))),
        output_folder: dir,
        file_name: item_output_name(doc.name),
    }
}

/// One render per document, in the collection's order.
pub open spec fn item_actions(
    template: Seq<char>,
    state: Map<Seq<char>, ValueView>,
    dir: Seq<char>,
    docs: Seq<DocumentView>,
) -> Seq<ActionView> {
    docs.map_values(|d: DocumentView| ActionView::Render(item_task(template, state, dir, d)))
}

/// What one template asks for. A plain template: one render into the output
/// root. A marked template whose collection exists: the collection's
/// directory, then one render per document into it. A marked template
/// without a collection: nothing.
pub open spec fn template_actions(
    file: TemplateFileView,
    collections: Map<Seq<char>, CollectionView>,
    state: Map<Seq<char>, ValueView>,
    output: Seq<char>,
) -> Seq<ActionView> {
    if !is_collection_template(file.name) {
        seq![ActionView::Render(plain_task(file, state, output))]
    } else if collections.contains_key(collection_key(file.name)) {
        let key = collection_key(file.name);
        seq![ActionView::CreateDir { path: join(output, key) }] + item_actions(
            file.contents,
            state,
            join(output, key),
            collections[key].collection,
        )
    } else {
        Seq::empty()
    }
}

/// What one scanned template file asks for: when it cannot be loaded, only
/// that the user be told.
pub open spec fn file_actions(
    file: ScannedFileView,
    collections: Map<Seq<char>, CollectionView>,
    state: Map<Seq<char>, ValueView>,
    output: Seq<char>,
) -> Seq<ActionView> {
    match load_spec(file) {
        Ok(template) => template_actions(template, collections, state, output),
        Err(error) => seq![ActionView::Skip { path: file.path, error: error }],
    }
}

/// The actions of a pass over scanned template files, which are taken from
/// the last to the first.
pub open spec fn dispatch_spec(
    files: Seq<ScannedFileView>,
    collections: Map<Seq<char>, CollectionView>,
    state: Map<Seq<char>, ValueView>,
    output: Seq<char>,
) -> Seq<ActionView>
    decreases files.len(),
{
    if files.len() == 0 {
        Seq::empty()
    } else {
        file_actions(files.last(), collections, state, output) + dispatch_spec(
            files.drop_last(),
            collections,
            state,
            output,
        )
    }
}

/// The extensions of templates and documents are plain words.
proof fn lemma_extension_words()
    ensures
        "template"@.len() == 8,
        "md"@.len() == 2,
        !"template"@.contains('.'),
        !"template"@.contains('/'),
        !"md"@.contains('.'),
        !"md"@.contains('/'),
        ".template"@ == seq!['.'] + "template"@,
        ".md"@ == seq!['.'] + "md"@,
        ".html"@ == seq!['.'] + "html"@,
        "_"@ == seq!['_'],
{
    reveal_strlit("template");
    reveal_strlit(".template");
    reveal_strlit("md");
    reveal_strlit(".md");
    reveal_strlit("html");
    reveal_strlit(".html");
    reveal_strlit("_");
    assert(".template"@ =~= seq!['.'] + "template"@);
    assert(".md"@ =~= seq!['.'] + "md"@);
    assert(".html"@ =~= seq!['.'] + "html"@);
    assert("_"@ =~= seq!['_']);
}

/// A plain template `stem.template` asks for exactly one render: of its own
/// text, against the shared state, into the file `stem.html` of the output
/// root.
pub proof fn lemma_plain_template_renders_once(
    file: TemplateFileView,
    stem: Seq<char>,
    collections: Map<Seq<char>, CollectionView>,
    state: Map<Seq<char>, ValueView>,
    output: Seq<char>,
)
    requires
        file.name == stem + ".template"@,
        stem.len() > 0,
        stem[0] != '_',
        !stem.contains('/'),
    ensures
        template_actions(file, collections, state, output) == seq![
            ActionView::Render(
                RenderTaskView {
                    template: file.contents,
                    state: state,
                    output_folder: output,
                    file_name: stem + ".html"@,
                },
            ),
        ],
{
    lemma_extension_words();
    assert(file.name =~= stem + seq!['.'] + "template"@);
    assert(file.name[0] == stem[0]);
    lemma_replace_extension_of_name(stem, "template"@, "html"@);
    assert(stem + seq!['.'] + "html"@ =~= stem + ".html"@);
}

/// The name `_key.template` is that of the template that renders the
/// collection `key`.
pub proof fn lemma_collection_template_name(key: Seq<char>)
    requires
        !key.contains('/'),
    ensures
        is_collection_template("_"@ + key + ".template"@),
        collection_key("_"@ + key + ".template"@) == key,
{
    lemma_extension_words();
    let name = "_"@ + key + ".template"@;
    let stem = "_"@ + key;
    assert(name =~= stem + seq!['.'] + "template"@);
    assert(name[0] == '_');
    assert forall|j: int| 0 <= j < stem.len() implies stem[j] != '/' by {
        if j > 0 {
            assert(stem[j] == key[j - 1]);
            if stem[j] == '/' {
                assert(key.contains('/'));
            }
        }
    }
    assert(!stem.contains('/'));
    lemma_extension_of_name(stem, "template"@);
    assert(name.subrange(1, name.len() - ".template"@.len()) =~= key);
}

/// A template `_key.template` with a collection `key` of N documents asks
/// for the directory `output/key` and then for exactly N renders, one per
/// document and in the collection's order, each into that directory.
pub proof fn lemma_collection_template_renders_each(
    file: TemplateFileView,
    key: Seq<char>,
    collections: Map<Seq<char>, CollectionView>,
    state: Map<Seq<char>, ValueView>,
    output: Seq<char>,
)
    requires
        file.name == "_"@ + key + ".template"@,
        !key.contains('/'),
        collections.contains_key(key),
    ensures
        ({
            let actions = template_actions(file, collections, state, output);
            let docs = collections[key].collection;
            &&& actions.len() == docs.len() + 1
            &&& actions[0] == ActionView::CreateDir { path: join(output, key) }
            &&& forall|i: int|
                0 <= i < docs.len() ==> #[trigger] actions[i + 1] == ActionView::Render(
                    item_task(file.contents, state, join(output, key), docs[i]),
                )
        }),
{
    lemma_collection_template_name(key);
}

/// The render of a document `stem.md` writes the file `stem.html`.
pub proof fn lemma_item_output_name(stem: Seq<char>)
    requires
        stem.len() > 0,
        !stem.contains('/'),
    ensures
        item_output_name(stem + ".md"@) == stem + ".html"@,
{
    lemma_extension_words();
    assert(stem + ".md"@ =~= stem + seq!['.'] + "md"@);
    lemma_replace_extension_of_name(stem, "md"@, "html"@);
    assert(stem + seq!['.'] + "html"@ =~= stem + ".html"@);
}

/// A template `_key.template` without a collection `key` asks for nothing.
pub proof fn lemma_unreferenced_partial(
    file: TemplateFileView,
    key: Seq<char>,
    collections: Map<Seq<char>, CollectionView>,
    state: Map<Seq<char>, ValueView>,
    output: Seq<char>,
)
    requires
        file.name == "_"@ + key + ".template"@,
        !key.contains('/'),
        !collections.contains_key(key),
    ensures
        template_actions(file, collections, state, output) == Seq::<ActionView>::empty(),
{
    lemma_collection_template_name(key);
}

/// The render of one document of a collection sees its own variables under
/// `content` and the shared state under every other name, whatever the other
/// documents of the collection are.
pub proof fn lemma_item_states_isolated(
    template: Seq<char>,
    state: Map<Seq<char>, ValueView>,
    dir: Seq<char>,
    docs: Seq<DocumentView>,
    i: int,
    j: int,
    other: DocumentView,
)
    requires
        0 <= i < docs.len(),
        0 <= j < docs.len(),
        i != j,
    ensures
        item_actions(template, state, dir, docs)[i] == item_actions(
            template,
            state,
            dir,
            docs.update(j, other),
        )[i],
        match item_actions(template, state, dir, docs)[i] {
            ActionView::Render(task) => {
                &&& task.state["content"@] == ValueView::Object(document_state(docs[i]))
                &&& forall|name: Seq<char>|
                    name != "content"@ ==> (task.state.contains_key(name) <==> state.contains_key(
                        name,
                    )) && (state.contains_key(name) ==> task.state[name] == state[name])
            },
            _ => false,
        },
{
}

/// The name of the collection that a template renders, if the template's
/// name is marked.
pub fn collection_name(name: &str) -> (r: Option<String>)
    ensures
        match r {
            Some(key) => is_collection_template(name@) && key@ == collection_key(name@),
            None => !is_collection_template(name@),
        },
{
    let chars = to_chars(name);
    if chars.len() == 0 || chars[0] != '_' {
        return None;
    }
    let n: usize = chars.len();
    Some(if extension_is(name, "template") {
        proof {
            lemma_extension_is_suffix(name@);
            reveal_strlit("template");
            reveal_strlit(".template");
        }
        slice(name, 1, n - 9)
    } else {
        slice(name, 1, n)
    })
}

/// Turns templates into render tasks against one shared state.
#[derive(Debug)]
pub struct Builder {
    tinylang_state: State,
    output_folder: String,
}

impl Builder {
    /// The state that every task starts from.
    pub closed spec fn state(&self) -> Map<Seq<char>, ValueView> {
        self.tinylang_state@
    }

    /// The root of the output tree.
    pub closed spec fn output(&self) -> Seq<char> {
        self.output_folder@
    }

    /// A builder for the given state and output root.
    pub fn new(state: State, output_folder: String) -> (b: Builder)
        ensures
            b.state() == state@,
            b.output() == output_folder@,
    {
        Builder { tinylang_state: state, output_folder }
    }

    /// The render of a plain template.
    pub fn eval_template_to_output_file(&self, file: TemplateFile) -> (task: RenderTask)
        ensures
            task@ == plain_task(file@, self.state(), self.output()),
    {
        let file_name = with_extension(file.name.as_str(), "template", "html");
        RenderTask {
            template: file.contents,
            state: self.tinylang_state.clone(),
            output_folder: self.output_folder.clone(),
            file_name,
        }
    }

    /// The output directory of the collection called `name`.
    pub fn mk_collection_dir(&self, name: &str) -> (dir: String)
        ensures
            dir@ == join(self.output(), name@),
    {
        join_path(self.output_folder.as_str(), name)
    }

    /// The actions that render a collection with a template: its directory,
    /// then one render per document, each against its own copy of the state.
    pub fn eval_markdown_collection_to_output_file(
        &self,
        name: &str,
        collection: &MarkdownCollection,
        template: &TemplateFile,
    ) -> (actions: Vec<BuildAction>)
        ensures
            actions_view(actions@) == seq![
                ActionView::CreateDir { path: join(self.output(), name@) },
            ] + item_actions(
                template.contents@,
                self.state(),
                join(self.output(), name@),
                collection@.collection,
            ),
    {
        let output_folder = self.mk_collection_dir(name);
        let mut actions: Vec<BuildAction> = Vec::new();
        actions.push(BuildAction::CreateDir { path: output_folder.clone() });
        let ghost expected = seq![ActionView::CreateDir { path: join(self.output(), name@) }]
            + item_actions(
            template.contents@,
            self.state(),
            join(self.output(), name@),
            collection@.collection,
        );
        let mut i: usize = 0;
        while i < collection.collection.len()
            invariant
                i <= collection.collection.len(),
                output_folder@ == join(self.output(), name@),
                actions@.len() == i + 1,
                expected.len() == collection.collection@.len() + 1,
                expected == seq![ActionView::CreateDir { path: join(self.output(), name@) }]
                    + item_actions(
                    template.contents@,
                    self.state(),
                    join(self.output(), name@),
                    collection@.collection,
                ),
                forall|j: int| 0 <= j < i + 1 ==> #[trigger] actions@[j]@ == expected[j],
            decreases collection.collection.len() - i,
        {
            let item = &collection.collection[i];
            let mut state = self.tinylang_state.clone();
            proof {
                reveal_strlit("content");
            }
            state.insert("content".to_owned(), Value::Object(item.as_tinylang_state()));
            let file_name = with_extension(item.name.as_str(), "md", "html");
            let task = RenderTask {
                template: template.contents.clone(),
                state,
                output_folder: output_folder.clone(),
                file_name,
            };
            assert(task@ == item_task(
                template.contents@,
                self.state(),
                join(self.output(), name@),
                collection@.collection[i as int],
            ));
            actions.push(BuildAction::Render(task));
            i = i + 1;
        }
        assert(actions_view(actions@) =~= expected);
        actions
    }
}

impl Builder {
    /// The actions that one loaded template asks for.
    pub fn eval_file(&self, file: TemplateFile, collections: &Collections) -> (actions: Vec<
        BuildAction,
    >)
        ensures
            actions_view(actions@) == template_actions(
                file@,
                collections@,
                self.state(),
                self.output(),
            ),
    {
        if let Some(name) = collection_name(file.name.as_str()) {
            match collections.get(name.as_str()) {
                Some(collection) => self.eval_markdown_collection_to_output_file(
                    name.as_str(),
                    collection,
                    &file,
                ),
                None => {
                    let actions: Vec<BuildAction> = Vec::new();
                    assert(actions_view(actions@) =~= Seq::empty());
                    actions
                },
            }
        } else {
            let ghost view = file@;
            let task = self.eval_template_to_output_file(file);
            let mut actions: Vec<BuildAction> = Vec::new();
            actions.push(BuildAction::Render(task));
            assert(actions_view(actions@) =~= seq![
                ActionView::Render(plain_task(view, self.state(), self.output())),
            ]);
            actions
        }
    }

    /// The actions that one scanned template file asks for.
    pub fn eval_scanned(&self, file: ScannedFile, collections: &Collections) -> (actions: Vec<
        BuildAction,
    >)
        ensures
            actions_view(actions@) == file_actions(
                file@,
                collections@,
                self.state(),
                self.output(),
            ),
    {
        let path = file.path.clone();
        match TemplateFile::new(file) {
            Ok(template) => self.eval_file(template, collections),
            Err(error) => {
                let mut actions: Vec<BuildAction> = Vec::new();
                actions.push(BuildAction::Skip { path, error });
                assert(actions_view(actions@) =~= seq![
                    ActionView::Skip { path: path@, error: error },
                ]);
                actions
            },
        }
    }

    /// Takes every file out of the reader and lists what the templates among
    /// them ask for.
    pub fn process_folder(
        &self,
        template_folder_reader: &mut LazyFolderReader,
        collections: &Collections,
    ) -> (actions: Vec<BuildAction>)
        ensures
            final(template_folder_reader)@.len() == 0,
            actions_view(actions@) == dispatch_spec(
                old(template_folder_reader)@,
                collections@,
                self.state(),
                self.output(),
            ),
    {
        let mut actions: Vec<BuildAction> = Vec::new();
        let ghost all = template_folder_reader@;
        assert(actions_view(actions@) + dispatch_spec(
            all,
            collections@,
            self.state(),
            self.output(),
        ) =~= dispatch_spec(all, collections@, self.state(), self.output()));
        while template_folder_reader.len() > 0
            invariant
                actions_view(actions@) + dispatch_spec(
                    template_folder_reader@,
                    collections@,
                    self.state(),
                    self.output(),
                ) == dispatch_spec(all, collections@, self.state(), self.output()),
            decreases template_folder_reader@.len(),
        {
            let ghost before = actions@;
            let ghost files = template_folder_reader@;
            match template_folder_reader.next_file() {
                Some(file) => {
                    let mut found = self.eval_scanned(file, collections);
                    let ghost added = found@;
                    actions.append(&mut found);
                    assert(actions_view(actions@) =~= actions_view(before) + actions_view(added));
                },
                None => {},
            }
            assert(actions_view(actions@) =~= actions_view(before) + file_actions(
                files.last(),
                collections@,
                self.state(),
                self.output(),
            ));
            assert(actions_view(actions@) + dispatch_spec(
                template_folder_reader@,
                collections@,
                self.state(),
                self.output(),
            ) =~= actions_view(before) + dispatch_spec(
                files,
                collections@,
                self.state(),
                self.output(),
            ));
        }
        assert(actions_view(actions@) + Seq::<ActionView>::empty() =~= actions_view(actions@));
        actions
    }
}

/// Why a build pass could not start.
#[derive(Clone, Copy, Debug, PartialEq, Eq, Structural)]
pub enum BuildError {
    /// A root is no directory, or could not be listed.
    Scan,
    /// Templates were to be compiled again, but no full build came before.
    CacheMiss,
}

impl BuildError {
    /// The sentence that tells a person of the error.
    pub open spec fn text(self) -> Seq<char> {
        match self {
            BuildError::Scan => "could not read the folder"@,
            BuildError::CacheMiss => "templates cannot be compiled before a full build"@,
        }
    }

    /// A sentence for the person at the terminal.
    pub fn message(&self) -> (r: String)
        ensures
            r@ == self.text(),
    {
        match self {
            BuildError::Scan => "could not read the folder".to_owned(),
            BuildError::CacheMiss => "templates cannot be compiled before a full build".to_owned(),
        }
    }
}

/// The address of a document relative to the site: its path without the
/// content root in front, with the markdown extension replaced by the output
/// extension.
pub open spec fn partial_uri_spec(path: Seq<char>, root: Seq<char>) -> Seq<char> {
    replace_extension(strip_prefix(path, root), "md"@, "html"@)
}

/// The collections after one more scanned file. A file that cannot be
/// loaded or whose front matter cannot be read leaves them as they are; the
/// document of any other file is handed to the collections under its
/// directory.
pub open spec fn add_file(
    collections: Map<Seq<char>, CollectionView>,
    file: ScannedFileView,
    root: Seq<char>,
) -> Map<Seq<char>, CollectionView> {
    match load_spec(file) {
        Err(_) => collections,
        Ok(loaded) => match document_spec(
            loaded.contents,
            loaded.name,
            partial_uri_spec(loaded.path, root),
        ) {
            None => collections,
            Some(doc) => add_to_directory(collections, parent(loaded.path), doc, root),
        },
    }
}

/// The collections that scanned markdown files form. The files are taken
/// from the last to the first.
pub open spec fn collect_spec(files: Seq<ScannedFileView>, root: Seq<char>) -> Map<
    Seq<char>,
    CollectionView,
>
    decreases files.len(),
{
    if files.len() == 0 {
        Map::empty()
    } else {
        add_file(collect_spec(files.drop_first(), root), files[0], root)
    }
}

/// Why something was left out of the collections.
#[derive(Debug)]
pub enum SkipReason {
    /// The file could not be loaded.
    Load(LoadError),
    /// Its front matter is no mapping from strings to strings.
    Parse(ParseError),
    /// The directory that holds it has no name.
    NoDirectory,
    /// The name of its directory is held by the directory `by`.
    NameTaken { by: String },
    /// The file's directory is the content root's own subdirectory of its
    /// name and took the name over; the documents of `directory`, which held
    /// it, were left out.
    Displaced { directory: String },
}

/// What a `SkipReason` stands for: the reason without the parser's words.
pub enum SkipKind {
    Load(LoadError),
    Parse,
    NoDirectory,
    NameTaken { by: Seq<char> },
    Displaced { directory: Seq<char> },
}

impl SkipReason {
    /// The reason without the parser's words.
    pub open spec fn kind(self) -> SkipKind {
        match self {
            SkipReason::Load(error) => SkipKind::Load(error),
            SkipReason::Parse(_) => SkipKind::Parse,
            SkipReason::NoDirectory => SkipKind::NoDirectory,
            SkipReason::NameTaken { by } => SkipKind::NameTaken { by: by@ },
            SkipReason::Displaced { directory } => SkipKind::Displaced { directory: directory@ },
        }
    }

    /// The sentence that tells a person of the reason.
    pub open spec fn text(self) -> Seq<char> {
        match self {
            SkipReason::Load(error) => error.text(),
            SkipReason::Parse(error) => error.message@,
            SkipReason::NoDirectory => "could not get the name of the directory"@,
            SkipReason::NameTaken { by } => "the name of the directory is taken by "@ + by@,
            SkipReason::Displaced { directory } => "took the name over from "@ + directory@,
        }
    }

    /// A sentence for the person at the terminal.
    pub fn message(&self) -> (r: String)
        ensures
            r@ == self.text(),
    {
        match self {
            SkipReason::Load(error) => error.message(),
            SkipReason::Parse(error) => error.message.clone(),
            SkipReason::NoDirectory => "could not get the name of the directory".to_owned(),
            SkipReason::NameTaken { by } => catenate(
                "the name of the directory is taken by ",
                by.as_str(),
            ),
            SkipReason::Displaced { directory } => catenate(
                "took the name over from ",
                directory.as_str(),
            ),
        }
    }
}

/// A scanned file at which something was left out, and why.
#[derive(Debug)]
pub struct Skipped {
    pub path: String,
    pub reason: SkipReason,
}

/// What a `Skipped` stands for.
pub struct SkippedView {
    pub path: Seq<char>,
    pub reason: SkipKind,
}

impl View for Skipped {
    type V = SkippedView;

    open spec fn view(&self) -> SkippedView {
        SkippedView { path: self.path@, reason: self.reason.kind() }
    }
}

/// The views of a sequence of skipped files, in order.
pub open spec fn skipped_view(skipped: Seq<Skipped>) -> Seq<SkippedView> {
    skipped.map_values(|s: Skipped| s@)
}

/// What is left out at a scanned file, given the collections so far: the
/// file itself where it cannot be loaded, its front matter cannot be read,
/// its directory has no name or the name is taken; the documents of another
/// directory where the file's directory takes its name over.
pub open spec fn skip_spec(
    collections: Map<Seq<char>, CollectionView>,
    file: ScannedFileView,
    root: Seq<char>,
) -> Option<SkipKind> {
    match load_spec(file) {
        Err(error) => Some(SkipKind::Load(error)),
        Ok(loaded) => match document_spec(
            loaded.contents,
            loaded.name,
            partial_uri_spec(loaded.path, root),
        ) {
            None => Some(SkipKind::Parse),
            Some(_) => match placement_spec(collections, parent(loaded.path), root) {
                PlacementView::Joined => None,
                PlacementView::TookOver { from } => Some(SkipKind::Displaced { directory: from }),
                PlacementView::NoDirectory => Some(SkipKind::NoDirectory),
                PlacementView::NameTaken { by } => Some(SkipKind::NameTaken { by: by }),
            },
        },
    }
}

/// What a pass over scanned files leaves out, file by file with the reason,
/// the last file's first.
pub open spec fn skipped_spec(files: Seq<ScannedFileView>, root: Seq<char>) -> Seq<SkippedView>
    decreases files.len(),
{
    if files.len() == 0 {
        Seq::empty()
    } else {
        let rest = skipped_spec(files.drop_first(), root);
        match skip_spec(collect_spec(files.drop_first(), root), files[0], root) {
            Some(reason) => rest.push(SkippedView { path: files[0].path, reason: reason }),
            None => rest,
        }
    }
}

/// The files that a scan of the content skips, given where the content lies
/// and a snapshot of that tree.
pub open spec fn skipped_in(posts_folder: Option<Seq<char>>, content: Option<FsEntry>) -> Seq<
    SkippedView,
> {
    match (posts_folder, content) {
        (Some(root), Some(entry)) => match read_folder_spec(entry, "md"@) {
            Ok(files) => skipped_spec(files, root),
            Err(_) => Seq::empty(),
        },
        _ => Seq::empty(),
    }
}

/// The directory of a scanned file and the document that the file makes, if
/// it makes one and its directory has a name.
pub open spec fn placed_document(file: ScannedFileView, root: Seq<char>) -> Option<
    (Seq<char>, DocumentView),
> {
    match load_spec(file) {
        Err(_) => None,
        Ok(loaded) => match document_spec(
            loaded.contents,
            loaded.name,
            partial_uri_spec(loaded.path, root),
        ) {
            None => None,
            Some(doc) => if file_name(parent(loaded.path)) is Some {
                Some((parent(loaded.path), doc))
            } else {
                None
            },
        },
    }
}

/// The documents of the files that lie in the directory `dir`, the last
/// file's first.
pub open spec fn documents_in(files: Seq<ScannedFileView>, root: Seq<char>, dir: Seq<char>) -> Seq<
    DocumentView,
>
    decreases files.len(),
{
    if files.len() == 0 {
        Seq::empty()
    } else {
        let rest = documents_in(files.drop_first(), root, dir);
        match placed_document(files[0], root) {
            Some((at, doc)) => if at == dir {
                rest.push(doc)
            } else {
                rest
            },
            None => rest,
        }
    }
}

/// The documents of the files whose directory goes by the name `key`,
/// whichever directory that is, the last file's first.
pub open spec fn documents_under(files: Seq<ScannedFileView>, root: Seq<char>, key: Seq<char>) -> Seq<
    DocumentView,
>
    decreases files.len(),
{
    if files.len() == 0 {
        Seq::empty()
    } else {
        let rest = documents_under(files.drop_first(), root, key);
        match placed_document(files[0], root) {
            Some((at, doc)) => if file_name(at) == Some(key) {
                rest.push(doc)
            } else {
                rest
            },
            None => rest,
        }
    }
}

/// The documents of a directory are among those of its name.
proof fn lemma_documents_in_are_under(
    files: Seq<ScannedFileView>,
    root: Seq<char>,
    dir: Seq<char>,
    key: Seq<char>,
)
    requires
        file_name(dir) == Some(key),
    ensures
        documents_in(files, root, dir).len() <= documents_under(files, root, key).len(),
    decreases files.len(),
{
    if files.len() > 0 {
        lemma_documents_in_are_under(files.drop_first(), root, dir, key);
    }
}

/// The document of a file is among the documents of the file's directory.
proof fn lemma_documents_in_has(files: Seq<ScannedFileView>, root: Seq<char>, i: int)
    requires
        0 <= i < files.len(),
        placed_document(files[i], root) is Some,
    ensures
        ({
            let (dir, doc) = placed_document(files[i], root)->0;
            documents_in(files, root, dir).contains(doc)
        }),
    decreases files.len(),
{
    let (dir, doc) = placed_document(files[i], root)->0;
    let rest = documents_in(files.drop_first(), root, dir);
    if i == 0 {
        assert(rest.push(doc)[rest.len() as int] == doc);
    } else {
        assert(files.drop_first()[i - 1] == files[i]);
        lemma_documents_in_has(files.drop_first(), root, i - 1);
        let j = choose|j: int| 0 <= j < rest.len() && rest[j] == doc;
        match placed_document(files[0], root) {
            Some((at, other)) => {
                if at == dir {
                    assert(rest.push(other)[j] == doc);
                }
            },
            None => {},
        }
    }
}

/// What holds of the collections after every file: a name has a collection
/// exactly when a document lies in a directory of that name; the collection
/// holds the documents of its own directory and no others; and the content
/// root's own subdirectory of a name holds the name if it has a document.
proof fn lemma_collect_invariant(files: Seq<ScannedFileView>, root: Seq<char>, key: Seq<char>)
    ensures
        ({
            let c = collect_spec(files, root);
            let own = join(root, key);
            &&& c.contains_key(key) <==> documents_under(files, root, key).len() > 0
            &&& c.contains_key(key) ==> {
                &&& c[key].name == key
                &&& file_name(c[key].relative_path) == Some(key)
                &&& c[key].collection == documents_in(files, root, c[key].relative_path)
            }
            &&& documents_in(files, root, own).len() > 0 && file_name(own) == Some(key)
                ==> c.contains_key(key) && c[key].relative_path == own
        }),
    decreases files.len(),
{
    if files.len() > 0 {
        let rest = files.drop_first();
        let before = collect_spec(rest, root);
        let c = collect_spec(files, root);
        let own = join(root, key);
        lemma_collect_invariant(rest, root, key);
        if file_name(own) == Some(key) {
            lemma_documents_in_are_under(rest, root, own, key);
            lemma_documents_in_are_under(files, root, own, key);
        }
        match placed_document(files[0], root) {
            None => {
                assert(c == before);
            },
            Some((at, doc)) => {
                let k = file_name(at)->0;
                assert(c == add_to_directory(before, at, doc, root));
                lemma_documents_in_are_under(rest, root, at, k);
                if k == key {
                    if before.contains_key(key) && before[key].relative_path == at {
                        assert(c[key].collection =~= documents_in(files, root, at));
                    } else if !before.contains_key(key) || at == own {
                        assert(documents_in(rest, root, at).len() == 0);
                        assert(documents_in(rest, root, at) =~= Seq::<DocumentView>::empty());
                        assert(c[key].collection =~= documents_in(files, root, at));
                    } else {
                        assert(c == before);
                    }
                } else {
                    if before.contains_key(key) {
                        assert(c[key] == before[key]);
                        assert(before[key].relative_path != at);
                    }
                }
            },
        }
    }
}

/// There is a collection of a name exactly when a document lies in a
/// directory of that name.
pub proof fn lemma_collection_exists(files: Seq<ScannedFileView>, root: Seq<char>, key: Seq<char>)
    ensures
        collect_spec(files, root).contains_key(key) <==> documents_under(files, root, key).len()
            > 0,
{
    lemma_collect_invariant(files, root, key);
}

/// Every collection is that of one directory: it goes by the directory's
/// name, and it holds the documents of the files that lie in that directory,
/// in the order they were taken, and no other document.
pub proof fn lemma_collection_holds_one_directory(
    files: Seq<ScannedFileView>,
    root: Seq<char>,
    key: Seq<char>,
)
    requires
        collect_spec(files, root).contains_key(key),
    ensures
        collect_spec(files, root)[key].name == key,
        file_name(collect_spec(files, root)[key].relative_path) == Some(key),
        collect_spec(files, root)[key].collection == documents_in(
            files,
            root,
            collect_spec(files, root)[key].relative_path,
        ),
{
    lemma_collect_invariant(files, root, key);
}

/// The content root's own subdirectory of a name holds that name wherever
/// it has a document, whatever other directories of the name there are and
/// in whatever order the files come.
pub proof fn lemma_root_directory_holds_its_name(
    files: Seq<ScannedFileView>,
    root: Seq<char>,
    key: Seq<char>,
)
    requires
        file_name(join(root, key)) == Some(key),
        documents_in(files, root, join(root, key)).len() > 0,
    ensures
        collect_spec(files, root).contains_key(key),
        collect_spec(files, root)[key].relative_path == join(root, key),
{
    lemma_collect_invariant(files, root, key);
}

/// A document at `root/dir/name` belongs to the collection `dir`, which
/// lies at `root/dir` and holds the documents of that directory alone,
/// whatever else the tree holds.
pub proof fn lemma_collection_naming(
    files: Seq<ScannedFileView>,
    root: Seq<char>,
    i: int,
    dir: Seq<char>,
    name: Seq<char>,
)
    requires
        0 <= i < files.len(),
        root.len() > 0,
        root.last() != '/',
        files[i].path == root + seq!['/'] + dir + seq!['/'] + name,
        is_plain_name(dir),
        is_plain_name(name),
        files[i].contents is Some,
        document_spec(files[i].contents->0, name, partial_uri_spec(files[i].path, root)) is Some,
    ensures
        ({
            let doc = document_spec(
                files[i].contents->0,
                name,
                partial_uri_spec(files[i].path, root),
            )->0;
            let c = collect_spec(files, root);
            &&& doc.name == name
            &&& c.contains_key(dir)
            &&& c[dir].name == dir
            &&& c[dir].relative_path == root + seq!['/'] + dir
            &&& c[dir].collection == documents_in(files, root, root + seq!['/'] + dir)
            &&& c[dir].collection.contains(doc)
        }),
{
    lemma_parent_name(root, dir, name);
    lemma_entry_of_directory(root + seq!['/'] + dir, name);
    lemma_entry_of_directory(root, dir);
    assert(dir.len() > 0);
    if dir[0] == '/' {
        assert(dir.contains('/'));
    }
    assert(join(root, dir) == root + seq!['/'] + dir);
    lemma_documents_in_has(files, root, i);
    lemma_collect_invariant(files, root, dir);
}

/// A content tree with the one document `root/dir/name` makes the one
/// collection `dir`: it is named `dir`, lies at `root/dir`, and holds that
/// document, called `name`, and nothing else.
pub proof fn lemma_single_document(
    file: ScannedFileView,
    root: Seq<char>,
    dir: Seq<char>,
    name: Seq<char>,
)
    requires
        file.path == root + seq!['/'] + dir + seq!['/'] + name,
        is_plain_name(dir),
        is_plain_name(name),
        file.contents is Some,
        document_spec(file.contents->0, name, partial_uri_spec(file.path, root)) is Some,
    ensures
        ({
            let doc = document_spec(file.contents->0, name, partial_uri_spec(file.path, root))->0;
            &&& doc.name == name
            &&& collect_spec(seq![file], root) == Map::<Seq<char>, CollectionView>::empty().insert(
                dir,
                CollectionView {
                    name: dir,
                    relative_path: root + seq!['/'] + dir,
                    collection: seq![doc],
                },
            )
        }),
{
    lemma_parent_name(root, dir, name);
    lemma_entry_of_directory(root + seq!['/'] + dir, name);
    let rest = seq![file].drop_first();
    assert(rest.len() == 0);
    assert(collect_spec(rest, root) == Map::<Seq<char>, CollectionView>::empty());
    assert(seq![file][0] == file);
    assert(collect_spec(seq![file], root) == add_file(Map::empty(), file, root));
    assert(collect_spec(seq![file], root) =~= Map::<Seq<char>, CollectionView>::empty().insert(
        dir,
        add_file(Map::empty(), file, root)[dir],
    ));
}

/// The collections of a site, given where its content lies and a snapshot of
/// that tree: none without a content root, an error where the root cannot be
/// listed.
pub open spec fn collections_spec(posts_folder: Option<Seq<char>>, content: Option<FsEntry>) -> Result<
    Map<Seq<char>, CollectionView>,
    BuildError,
> {
    match posts_folder {
        None => Ok(Map::empty()),
        Some(root) => match content {
            None => Err(BuildError::Scan),
            Some(entry) => match read_folder_spec(entry, "md"@) {
                Err(_) => Err(BuildError::Scan),
                Ok(files) => Ok(collect_spec(files, root)),
            },
        },
    }
}

/// The variables that every site has: its name and address, then its custom
/// keys, then the built-in operations. A later one replaces an earlier one of
/// the same name.
pub open spec fn default_state(configuration: Option<ConfigurationView>) -> Map<Seq<char>, ValueView> {
    let configured = match configuration {
        None => Map::<Seq<char>, ValueView>::empty(),
        Some(c) => Map::<Seq<char>, ValueView>::empty().insert(
            "website_name"@,
            ValueView::Text(c.website_name),
        ).insert("uri"@, ValueView::Text(c.uri)).union_prefer_right(text_values(c.custom_keys)),
    };
    configured.insert(Builtin::Render.name_spec(), ValueView::Callable(Builtin::Render)).insert(
        Builtin::SortByKey.name_spec(),
        ValueView::Callable(Builtin::SortByKey),
    ).insert(Builtin::Reverse.name_spec(), ValueView::Callable(Builtin::Reverse))
}

/// Each collection's variables as an object under the collection's name.
pub open spec fn collections_state(collections: Map<Seq<char>, CollectionView>) -> Map<
    Seq<char>,
    ValueView,
> {
    Map::new(
        |k: Seq<char>| collections.contains_key(k),
        |k: Seq<char>| ValueView::Object(collection_state(collections[k])),
    )
}

/// The state that every template of a site is evaluated against: the
/// default variables, then the collections, which replace default variables
/// of the same name.
pub open spec fn site_state(
    configuration: Option<ConfigurationView>,
    collections: Map<Seq<char>, CollectionView>,
) -> Map<Seq<char>, ValueView> {
    default_state(configuration).union_prefer_right(collections_state(collections))
}

/// What the last full build left for later passes.
#[derive(Debug)]
pub struct WebsiteCachedState {
    collections: Option<Collections>,
    state: Option<State>,
    builder: Option<Builder>,
    skipped: Vec<Skipped>,
}

/// A site: where its templates and its content lie, its settings, and what
/// the last full build computed.
#[derive(Debug)]
pub struct Website {
    template_folder: String,
    posts_folder: Option<String>,
    configuration: Option<Configuration>,
    cache: WebsiteCachedState,
}

impl Website {
    /// Where the templates lie.
    pub closed spec fn template_root(&self) -> Seq<char> {
        self.template_folder@
    }

    /// Where the content lies, if the site has any.
    pub closed spec fn content_root(&self) -> Option<Seq<char>> {
        match self.posts_folder {
            Some(folder) => Some(folder@),
            None => None,
        }
    }

    /// The site's settings, if it has any.
    pub closed spec fn settings(&self) -> Option<ConfigurationView> {
        match self.configuration {
            Some(c) => Some(c@),
            None => None,
        }
    }

    /// The collections that the last scan of the content left.
    pub closed spec fn cached_collections(&self) -> Option<Map<Seq<char>, CollectionView>> {
        match self.cache.collections {
            Some(c) => Some(c@),
            None => None,
        }
    }

    /// The state that the last full build left.
    pub closed spec fn cached_state(&self) -> Option<Map<Seq<char>, ValueView>> {
        match self.cache.state {
            Some(s) => Some(s@),
            None => None,
        }
    }

    /// The state and the output root that the last full build left for
    /// compiling templates.
    pub closed spec fn cached_builder(&self) -> Option<(Map<Seq<char>, ValueView>, Seq<char>)> {
        match self.cache.builder {
            Some(b) => Some((b.state(), b.output())),
            None => None,
        }
    }

    /// The files that the last scan of the content skipped, with the
    /// reasons.
    pub closed spec fn skipped_documents(&self) -> Seq<SkippedView> {
        skipped_view(self.cache.skipped@)
    }

    /// Whether two sites lie in the same places with the same settings.
    pub open spec fn same_site(&self, other: &Website) -> bool {
        &&& self.template_root() == other.template_root()
        &&& self.content_root() == other.content_root()
        &&& self.settings() == other.settings()
    }

    /// Whether two sites have the same cache.
    pub open spec fn same_cache(&self, other: &Website) -> bool {
        &&& self.cached_collections() == other.cached_collections()
        &&& self.cached_state() == other.cached_state()
        &&& self.cached_builder() == other.cached_builder()
        &&& self.skipped_documents() == other.skipped_documents()
    }

    /// A site that has not been built yet.
    pub fn new(
        configuration: Option<Configuration>,
        template_folder: String,
        posts_folder: Option<String>,
    ) -> (site: Website)
        ensures
            site.template_root() == template_folder@,
            site.content_root() == match posts_folder {
                Some(folder) => Some(folder@),
                None => None,
            },
            site.settings() == match configuration {
                Some(c) => Some(c@),
                None => None,
            },
            site.cached_collections() is None,
            site.cached_state() is None,
            site.cached_builder() is None,
            site.skipped_documents() == Seq::<SkippedView>::empty(),
    {
        proof {
            assert(skipped_view(Seq::<Skipped>::empty()) =~= Seq::<SkippedView>::empty());
        }
        Website {
            template_folder,
            posts_folder,
            configuration,
            cache: WebsiteCachedState {
                collections: None,
                state: None,
                builder: None,
                skipped: Vec::new(),
            },
        }
    }

    /// The address of the document at `path`, relative to the content root.
    pub fn partial_uri(path: &str, root: &str) -> (uri: String)
        ensures
            uri@ == partial_uri_spec(path@, root@),
    {
        let relative = without_prefix(path, root);
        with_extension(relative.as_str(), "md", "html")
    }

    /// Each collection's variables as an object under the collection's name.
    pub fn build_collection_state(&self, collections: &Collections) -> (state: State)
        ensures
            state@ == collections_state(collections@),
    {
        let mut state = State::new();
        let entries = collections.entries();
        let mut i: usize = 0;
        assert(entries@.take(0) =~= Seq::empty());
        assert(state@ =~= collections_state(assoc_view(entries@.take(0), collection_model())));
        while i < entries.len()
            invariant
                i <= entries.len(),
                keys_distinct(entries@),
                state@ == collections_state(
                    assoc_view(entries@.take(i as int), collection_model()),
                ),
            decreases entries.len() - i,
        {
            proof {
                let before = entries@.take(i as int);
                lemma_key_index_is(before, entries@[i as int].0@, -1);
                lemma_assoc_view_push(
                    before,
                    collection_model(),
                    entries@[i as int].0,
                    entries@[i as int].1,
                );
                assert(before.push(entries@[i as int]) =~= entries@.take(i + 1));
                assert(collections_state(assoc_view(entries@.take(i + 1), collection_model()))
                    =~= collections_state(assoc_view(before, collection_model())).insert(
                    entries@[i as int].0@,
                    ValueView::Object(collection_state(entries@[i as int].1@)),
                ));
            }
            state.insert(entries[i].0.clone(), Value::Object(entries[i].1.as_tinylang_state()));
            i = i + 1;
        }
        assert(entries@.take(entries@.len() as int) =~= entries@);
        state
    }

    /// The variables that the site has whatever its content.
    pub fn build_default_state(&self) -> (state: State)
        ensures
            state@ == default_state(self.settings()),
    {
        let mut state = State::new();
        match &self.configuration {
            Some(c) => {
                state.insert("website_name".to_owned(), Value::Text(c.website_name.clone()));
                state.insert("uri".to_owned(), Value::Text(c.uri.clone()));
                state.insert_texts(&c.custom_keys);
            },
            None => {},
        }
        state.insert(Builtin::Render.name().to_owned(), Value::Callable(Builtin::Render));
        state.insert(Builtin::SortByKey.name().to_owned(), Value::Callable(Builtin::SortByKey));
        state.insert(Builtin::Reverse.name().to_owned(), Value::Callable(Builtin::Reverse));
        state
    }

    /// The state that every template is evaluated against, which is also
    /// kept for later passes.
    pub fn build_state(&mut self, collections: &Collections) -> (state: State)
        ensures
            state@ == site_state(old(self).settings(), collections@),
            final(self).same_site(old(self)),
            final(self).cached_state() == Some(state@),
            final(self).cached_collections() == old(self).cached_collections(),
            final(self).cached_builder() == old(self).cached_builder(),
            final(self).skipped_documents() == old(self).skipped_documents(),
    {
        let mut state = self.build_default_state();
        let collection_state = self.build_collection_state(collections);
        state.extend(&collection_state);
        self.cache.state = Some(state.clone());
        state
    }
}

/// What compiling the templates gives, given what the last full build left
/// and a snapshot of the template tree: an error where the tree cannot be
/// listed, else an error where no full build came before, else what the
/// templates ask for.
pub open spec fn compile_spec(
    templates: FsEntry,
    collections: Option<Map<Seq<char>, CollectionView>>,
    builder: Option<(Map<Seq<char>, ValueView>, Seq<char>)>,
) -> Result<Seq<ActionView>, BuildError> {
    match read_folder_spec(templates, "template"@) {
        Err(_) => Err(BuildError::Scan),
        Ok(files) => match (builder, collections) {
            (Some((state, output)), Some(known)) => Ok(dispatch_spec(files, known, state, output)),
            _ => Err(BuildError::CacheMiss),
        },
    }
}

/// What a full build gives, given where the site's content lies, its
/// settings, snapshots of the content tree and of the template tree, and the
/// output root. Nothing else goes into it.
pub open spec fn full_build_spec(
    content_root: Option<Seq<char>>,
    settings: Option<ConfigurationView>,
    content: Option<FsEntry>,
    templates: FsEntry,
    output: Seq<char>,
) -> Result<Seq<ActionView>, BuildError> {
    match collections_spec(content_root, content) {
        Err(e) => Err(e),
        Ok(collections) => compile_spec(
            templates,
            Some(collections),
            Some((site_state(settings, collections), output)),
        ),
    }
}

/// The files of an output tree, by path, after the actions were carried out
/// in order on the tree `tree` with the evaluator `eval`. A render whose
/// evaluation fails writes nothing, and only renders write.
pub open spec fn perform(
    actions: Seq<ActionView>,
    eval: spec_fn(Seq<char>, Map<Seq<char>, ValueView>) -> Result<Seq<char>, Seq<char>>,
    tree: Map<Seq<char>, Seq<char>>,
) -> Map<Seq<char>, Seq<char>>
    decreases actions.len(),
{
    if actions.len() == 0 {
        tree
    } else {
        let before = perform(actions.drop_last(), eval, tree);
        match actions.last() {
            ActionView::Render(task) => match eval(task.template, task.state) {
                Ok(text) => before.insert(join(task.output_folder, task.file_name), text),
                Err(_) => before,
            },
            _ => before,
        }
    }
}

/// Carrying out actions on a tree lays what they write over the tree.
pub proof fn lemma_perform_overlays(
    actions: Seq<ActionView>,
    eval: spec_fn(Seq<char>, Map<Seq<char>, ValueView>) -> Result<Seq<char>, Seq<char>>,
    tree: Map<Seq<char>, Seq<char>>,
)
    ensures
        perform(actions, eval, tree) == tree.union_prefer_right(
            perform(actions, eval, Map::empty()),
        ),
    decreases actions.len(),
{
    if actions.len() == 0 {
        assert(tree =~= tree.union_prefer_right(Map::<Seq<char>, Seq<char>>::empty()));
    } else {
        lemma_perform_overlays(actions.drop_last(), eval, tree);
        assert(perform(actions, eval, tree) =~= tree.union_prefer_right(
            perform(actions, eval, Map::empty()),
        ));
    }
}

/// Building twice changes nothing: with unchanged inputs the second full
/// build plans what the first one planned, and carrying that out again with
/// an evaluator that gives the same output for the same input leaves the
/// output tree as the first build left it.
pub proof fn lemma_rebuild_is_idempotent(
    content_root: Option<Seq<char>>,
    settings: Option<ConfigurationView>,
    content: Option<FsEntry>,
    templates: FsEntry,
    output: Seq<char>,
    eval: spec_fn(Seq<char>, Map<Seq<char>, ValueView>) -> Result<Seq<char>, Seq<char>>,
    tree: Map<Seq<char>, Seq<char>>,
)
    ensures
        match full_build_spec(content_root, settings, content, templates, output) {
            Ok(actions) => perform(actions, eval, perform(actions, eval, tree)) == perform(
                actions,
                eval,
                tree,
            ),
            Err(_) => true,
        },
{
    match full_build_spec(content_root, settings, content, templates, output) {
        Ok(actions) => {
            let once = perform(actions, eval, tree);
            lemma_perform_overlays(actions, eval, tree);
            lemma_perform_overlays(actions, eval, once);
            assert(once.union_prefer_right(perform(actions, eval, Map::empty())) =~= once);
        },
        Err(_) => {},
    }
}

/// Every render goes into the output root or into a directory that an
/// earlier action of the pass makes sure of.
pub proof fn lemma_directories_come_first(
    files: Seq<ScannedFileView>,
    collections: Map<Seq<char>, CollectionView>,
    state: Map<Seq<char>, ValueView>,
    output: Seq<char>,
    i: int,
)
    requires
        0 <= i < dispatch_spec(files, collections, state, output).len(),
    ensures
        match dispatch_spec(files, collections, state, output)[i] {
            ActionView::Render(task) => task.output_folder == output || exists|j: int|
                0 <= j < i && #[trigger] dispatch_spec(files, collections, state, output)[j]
                    == (ActionView::CreateDir { path: task.output_folder }),
            _ => true,
        },
    decreases files.len(),
{
    let all = dispatch_spec(files, collections, state, output);
    let first = file_actions(files.last(), collections, state, output);
    let later = dispatch_spec(files.drop_last(), collections, state, output);
    if i < first.len() {
        assert(all[i] == first[i]);
        match all[i] {
            ActionView::Render(task) => {
                if task.output_folder != output {
                    assert(all[0] == first[0]);
                    assert(i > 0);
                }
            },
            _ => {},
        }
    } else {
        assert(all[i] == later[i - first.len()]);
        lemma_directories_come_first(files.drop_last(), collections, state, output, i - first.len());
        match all[i] {
            ActionView::Render(task) => {
                if task.output_folder != output {
                    let j = choose|j: int|
                        0 <= j < i - first.len() && #[trigger] later[j] == (ActionView::CreateDir {
                            path: task.output_folder,
                        });
                    assert(all[first.len() + j] == later[j]);
                }
            },
            _ => {},
        }
    }
}

/// A pass over plain templates that all load asks for one render each, each
/// of its own template alone.
pub proof fn lemma_plain_templates_render_independently(
    files: Seq<ScannedFileView>,
    collections: Map<Seq<char>, CollectionView>,
    state: Map<Seq<char>, ValueView>,
    output: Seq<char>,
)
    requires
        forall|i: int|
            0 <= i < files.len() ==> match #[trigger] load_spec(files[i]) {
                Ok(template) => !is_collection_template(template.name),
                Err(_) => false,
            },
    ensures
        dispatch_spec(files, collections, state, output).len() == files.len(),
        forall|i: int|
            0 <= i < files.len() ==> #[trigger] dispatch_spec(files, collections, state, output)[i]
                == ActionView::Render(
                plain_task(load_spec(files[files.len() - 1 - i])->Ok_0, state, output),
            ),
    decreases files.len(),
{
    if files.len() > 0 {
        let rest = files.drop_last();
        assert forall|i: int| 0 <= i < rest.len() implies match #[trigger] load_spec(rest[i]) {
            Ok(template) => !is_collection_template(template.name),
            Err(_) => false,
        } by {
            assert(rest[i] == files[i]);
        }
        lemma_plain_templates_render_independently(rest, collections, state, output);
        let first = file_actions(files.last(), collections, state, output);
        let later = dispatch_spec(rest, collections, state, output);
        assert(load_spec(files[files.len() - 1]) is Ok);
        assert(first.len() == 1);
        assert forall|i: int| 0 <= i < files.len() implies #[trigger] dispatch_spec(
            files,
            collections,
            state,
            output,
        )[i] == ActionView::Render(
            plain_task(load_spec(files[files.len() - 1 - i])->Ok_0, state, output),
        ) by {
            if i > 0 {
                assert((first + later)[i] == later[i - 1]);
                assert(rest[rest.len() - 1 - (i - 1)] == files[files.len() - 1 - i]);
            }
        }
    }
}

/// Whether an exec result of a pass stands for the given spec result.
pub open spec fn planned_as(
    r: Result<Vec<BuildAction>, BuildError>,
    expected: Result<Seq<ActionView>, BuildError>,
) -> bool {
    match (r, expected) {
        (Ok(actions), Ok(views)) => actions_view(actions@) == views,
        (Err(e), Err(x)) => e == x,
        _ => false,
    }
}

/// A snapshot handed over by reference, as a value.
pub open spec fn snapshot(content: Option<&FsEntry>) -> Option<FsEntry> {
    match content {
        Some(entry) => Some(*entry),
        None => None,
    }
}

/// The file at `path` with the text that was read for it, or without one.
pub open spec fn file_with(path: Seq<char>, contents: Option<String>) -> ScannedFileView {
    ScannedFileView {
        path: path,
        contents: match contents {
            Some(text) => Some(text@),
            None => None,
        },
    }
}

/// The actions of a pass that takes one more file first are what that file
/// asks for, behind those of the pass.
proof fn lemma_dispatch_front(
    file: ScannedFileView,
    files: Seq<ScannedFileView>,
    collections: Map<Seq<char>, CollectionView>,
    state: Map<Seq<char>, ValueView>,
    output: Seq<char>,
)
    ensures
        dispatch_spec(seq![file] + files, collections, state, output) == dispatch_spec(
            files,
            collections,
            state,
            output,
        ) + file_actions(file, collections, state, output),
    decreases files.len(),
{
    let all = seq![file] + files;
    if files.len() == 0 {
        assert(all.drop_last() =~= Seq::<ScannedFileView>::empty());
        assert(all.last() == file);
        assert(all.len() == 1);
        assert(dispatch_spec(all.drop_last(), collections, state, output) =~= Seq::<
            ActionView,
        >::empty());
        assert(dispatch_spec(all, collections, state, output) =~= file_actions(
            file,
            collections,
            state,
            output,
        ));
        assert(dispatch_spec(files, collections, state, output) + file_actions(
            file,
            collections,
            state,
            output,
        ) =~= file_actions(file, collections, state, output));
    } else {
        assert(all.last() == files.last());
        assert(all.drop_last() =~= seq![file] + files.drop_last());
        lemma_dispatch_front(file, files.drop_last(), collections, state, output);
        assert(dispatch_spec(all, collections, state, output) =~= dispatch_spec(
            files,
            collections,
            state,
            output,
        ) + file_actions(file, collections, state, output));
    }
}

/// A pass over the content that is under way: the files still to be taken,
/// and the collections that the files taken so far have made.
pub struct Collecting {
    reader: LazyFolderReader,
    root: String,
    collections: Collections,
    skipped: Vec<Skipped>,
    taken: Ghost<Seq<ScannedFileView>>,
}

impl Collecting {
    #[verifier::type_invariant]
    spec fn inv(&self) -> bool {
        &&& self.collections@ == collect_spec(self.taken@, self.root@)
        &&& skipped_view(self.skipped@) == skipped_spec(self.taken@, self.root@)
    }

    /// The files still to be taken; the last is taken next.
    pub closed spec fn remaining(&self) -> Seq<ScannedFileView> {
        self.reader@
    }

    /// The files taken so far, each with the text it was taken with, in the
    /// order of the scan.
    pub closed spec fn taken(&self) -> Seq<ScannedFileView> {
        self.taken@
    }

    /// The content root.
    pub closed spec fn root(&self) -> Seq<char> {
        self.root@
    }

    /// A pass over the given files of the content root `root`.
    fn new(reader: LazyFolderReader, root: String) -> (pass: Collecting)
        ensures
            pass.remaining() == reader@,
            pass.root() == root@,
            pass.taken() == Seq::<ScannedFileView>::empty(),
    {
        let collections = Collections::new();
        let skipped: Vec<Skipped> = Vec::new();
        assert(skipped_view(skipped@) =~= Seq::<SkippedView>::empty());
        Collecting { reader, root, collections, skipped, taken: Ghost(Seq::empty()) }
    }

    /// The path of the file that is taken next, for the caller to read it;
    /// `None` when every file was taken.
    pub fn next_path(&self) -> (r: Option<String>)
        ensures
            match r {
                Some(path) => self.remaining().len() > 0 && path@ == self.remaining().last().path,
                None => self.remaining().len() == 0,
            },
    {
        self.reader.peek_path()
    }

    /// Takes the next file, with the text given or, where none is given,
    /// with the text that the snapshot holds.
    fn step(&mut self, supplied: Option<Option<String>>) -> (left_out: bool)
        ensures
            final(self).root() == old(self).root(),
            if old(self).remaining().len() == 0 {
                &&& final(self).remaining() == old(self).remaining()
                &&& final(self).taken() == old(self).taken()
                &&& !left_out
            } else {
                let file = match supplied {
                    Some(contents) => file_with(old(self).remaining().last().path, contents),
                    None => old(self).remaining().last(),
                };
                &&& final(self).remaining() == old(self).remaining().drop_last()
                &&& final(self).taken() == seq![file] + old(self).taken()
                &&& left_out == skip_spec(
                    collect_spec(old(self).taken(), old(self).root()),
                    file,
                    old(self).root(),
                ) is Some
            },
    {
        proof {
            use_type_invariant(&*self);
        }
        let mut pass = Collecting::new(LazyFolderReader::empty(), String::new());
        core::mem::swap(self, &mut pass);
        let Collecting { reader, root, collections, skipped, taken } = pass;
        let mut reader = reader;
        let mut collections = collections;
        let mut skipped = skipped;
        let ghost later = taken@;
        let ghost before = skipped@;
        let mut left_out = false;
        let ghost mut now = later;
        match reader.next_file() {
            None => {},
            Some(scanned) => {
                let file = match supplied {
                    Some(contents) => ScannedFile { path: scanned.path, contents },
                    None => scanned,
                };
                let path = file.path.clone();
                let ghost view = file@;
                proof {
                    now = seq![view] + later;
                    assert(now.drop_first() =~= later);
                    assert(now[0] == view);
                }
                match Website::add_markdown_file(&mut collections, file, root.as_str()) {
                    Some(reason) => {
                        let entry = Skipped { path, reason };
                        skipped.push(entry);
                        assert(skipped_view(skipped@) =~= skipped_view(before).push(entry@));
                        left_out = true;
                    },
                    None => {},
                }
            },
        }
        *self = Collecting { reader, root, collections, skipped, taken: Ghost(now) };
        left_out
    }

    /// Takes the next file with the text that the caller read for it, or
    /// with none where it could not be read. Says whether something was left
    /// out at this file. Does nothing when every file was taken.
    pub fn supply(&mut self, contents: Option<String>) -> (left_out: bool)
        ensures
            final(self).root() == old(self).root(),
            if old(self).remaining().len() == 0 {
                &&& final(self).remaining() == old(self).remaining()
                &&& final(self).taken() == old(self).taken()
                &&& !left_out
            } else {
                let file = file_with(old(self).remaining().last().path, contents);
                &&& final(self).remaining() == old(self).remaining().drop_last()
                &&& final(self).taken() == seq![file] + old(self).taken()
                &&& left_out == skip_spec(
                    collect_spec(old(self).taken(), old(self).root()),
                    file,
                    old(self).root(),
                ) is Some
            },
    {
        self.step(Some(contents))
    }

    /// Takes the next file with the text that the snapshot holds for it.
    /// Says whether something was left out at this file. Does nothing when
    /// every file was taken.
    pub fn take(&mut self) -> (left_out: bool)
        ensures
            final(self).root() == old(self).root(),
            if old(self).remaining().len() == 0 {
                &&& final(self).remaining() == old(self).remaining()
                &&& final(self).taken() == old(self).taken()
                &&& !left_out
            } else {
                let file = old(self).remaining().last();
                &&& final(self).remaining() == old(self).remaining().drop_last()
                &&& final(self).taken() == seq![file] + old(self).taken()
                &&& left_out == skip_spec(
                    collect_spec(old(self).taken(), old(self).root()),
                    file,
                    old(self).root(),
                ) is Some
            },
    {
        self.step(None)
    }

    /// Ends the pass: the collections that the files taken have made, and
    /// what was left out.
    pub fn finish(self) -> (r: (Collections, Vec<Skipped>))
        ensures
            r.0@ == collect_spec(self.taken(), self.root()),
            skipped_view(r.1@) == skipped_spec(self.taken(), self.root()),
    {
        proof {
            use_type_invariant(&self);
        }
        (self.collections, self.skipped)
    }
}

/// A pass over the templates that is under way: the files still to be
/// taken, and what the files taken so far ask for.
pub struct Compiling<'a> {
    reader: LazyFolderReader,
    builder: &'a Builder,
    collections: &'a Collections,
    actions: Vec<BuildAction>,
    taken: Ghost<Seq<ScannedFileView>>,
}

impl<'a> Compiling<'a> {
    #[verifier::type_invariant]
    spec fn inv(&self) -> bool {
        actions_view(self.actions@) == dispatch_spec(
            self.taken@,
            self.collections@,
            self.builder.state(),
            self.builder.output(),
        )
    }

    /// The files still to be taken; the last is taken next.
    pub closed spec fn remaining(&self) -> Seq<ScannedFileView> {
        self.reader@
    }

    /// The files taken so far, each with the text it was taken with, in the
    /// order of the scan.
    pub closed spec fn taken(&self) -> Seq<ScannedFileView> {
        self.taken@
    }

    /// The collections that the templates are compiled against.
    pub closed spec fn known(&self) -> Map<Seq<char>, CollectionView> {
        self.collections@
    }

    /// The state that every render starts from, and the output root.
    pub closed spec fn builder(&self) -> (Map<Seq<char>, ValueView>, Seq<char>) {
        (self.builder.state(), self.builder.output())
    }

    /// What the files taken so far ask for.
    pub open spec fn planned(&self) -> Seq<ActionView> {
        dispatch_spec(self.taken(), self.known(), self.builder().0, self.builder().1)
    }

    /// A pass over the given files against the given collections and state.
    fn new(reader: LazyFolderReader, builder: &'a Builder, collections: &'a Collections) -> (pass:
        Compiling<'a>)
        ensures
            pass.remaining() == reader@,
            pass.taken() == Seq::<ScannedFileView>::empty(),
            pass.known() == collections@,
            pass.builder() == (builder.state(), builder.output()),
    {
        let actions: Vec<BuildAction> = Vec::new();
        assert(actions_view(actions@) =~= Seq::<ActionView>::empty());
        Compiling { reader, builder, collections, actions, taken: Ghost(Seq::empty()) }
    }

    /// The path of the file that is taken next, for the caller to read it;
    /// `None` when every file was taken.
    pub fn next_path(&self) -> (r: Option<String>)
        ensures
            match r {
                Some(path) => self.remaining().len() > 0 && path@ == self.remaining().last().path,
                None => self.remaining().len() == 0,
            },
    {
        self.reader.peek_path()
    }

    /// Takes the next file, with the text given or, where none is given,
    /// with the text that the snapshot holds.
    fn step(&mut self, supplied: Option<Option<String>>)
        ensures
            final(self).known() == old(self).known(),
            final(self).builder() == old(self).builder(),
            if old(self).remaining().len() == 0 {
                &&& final(self).remaining() == old(self).remaining()
                &&& final(self).taken() == old(self).taken()
            } else {
                let file = match supplied {
                    Some(contents) => file_with(old(self).remaining().last().path, contents),
                    None => old(self).remaining().last(),
                };
                &&& final(self).remaining() == old(self).remaining().drop_last()
                &&& final(self).taken() == seq![file] + old(self).taken()
            },
    {
        proof {
            use_type_invariant(&*self);
        }
        let mut pass = Compiling::new(LazyFolderReader::empty(), self.builder, self.collections);
        core::mem::swap(self, &mut pass);
        let Compiling { reader, builder, collections, actions, taken } = pass;
        let mut reader = reader;
        let mut actions = actions;
        let ghost later = taken@;
        let ghost before = actions@;
        let ghost mut now = later;
        match reader.next_file() {
            None => {},
            Some(scanned) => {
                let file = match supplied {
                    Some(contents) => ScannedFile { path: scanned.path, contents },
                    None => scanned,
                };
                proof {
                    now = seq![file@] + later;
                    lemma_dispatch_front(
                        file@,
                        later,
                        collections@,
                        builder.state(),
                        builder.output(),
                    );
                }
                let mut found = builder.eval_scanned(file, collections);
                let ghost added = found@;
                actions.append(&mut found);
                assert(actions_view(actions@) =~= actions_view(before) + actions_view(added));
            },
        }
        *self = Compiling { reader, builder, collections, actions, taken: Ghost(now) };
    }

    /// Takes the next file with the text that the caller read for it, or
    /// with none where it could not be read. Does nothing when every file
    /// was taken.
    pub fn supply(&mut self, contents: Option<String>)
        ensures
            final(self).known() == old(self).known(),
            final(self).builder() == old(self).builder(),
            if old(self).remaining().len() == 0 {
                &&& final(self).remaining() == old(self).remaining()
                &&& final(self).taken() == old(self).taken()
            } else {
                &&& final(self).remaining() == old(self).remaining().drop_last()
                &&& final(self).taken() == seq![
                    file_with(old(self).remaining().last().path, contents),
                ] + old(self).taken()
            },
    {
        self.step(Some(contents))
    }

    /// Takes the next file with the text that the snapshot holds for it.
    /// Does nothing when every file was taken.
    pub fn take(&mut self)
        ensures
            final(self).known() == old(self).known(),
            final(self).builder() == old(self).builder(),
            if old(self).remaining().len() == 0 {
                &&& final(self).remaining() == old(self).remaining()
                &&& final(self).taken() == old(self).taken()
            } else {
                &&& final(self).remaining() == old(self).remaining().drop_last()
                &&& final(self).taken() == seq![old(self).remaining().last()] + old(self).taken()
            },
    {
        self.step(None)
    }

    /// Ends the pass: what the files taken ask for.
    pub fn finish(self) -> (actions: Vec<BuildAction>)
        ensures
            actions_view(actions@) == self.planned(),
    {
        proof {
            use_type_invariant(&self);
        }
        self.actions
    }
}

impl Website {
    /// Takes one scanned file of the content. Its document is handed to the
    /// collections under its directory; what is left out at this file comes
    /// back with the reason.
    pub fn add_markdown_file(collections: &mut Collections, file: ScannedFile, root: &str) -> (skipped:
        Option<SkipReason>)
        ensures
            final(collections)@ == add_file(old(collections)@, file@, root@),
            match skipped {
                Some(reason) => skip_spec(old(collections)@, file@, root@) == Some(reason.kind()),
                None => skip_spec(old(collections)@, file@, root@) is None,
            },
    {
        match TemplateFile::new(file) {
            Err(error) => Some(SkipReason::Load(error)),
            Ok(loaded) => {
                let TemplateFile { name, contents, path } = loaded;
                let uri = Website::partial_uri(path.as_str(), root);
                match MarkdownDocument::new(contents.as_str(), name, uri) {
                    Err(error) => Some(SkipReason::Parse(error)),
                    Ok(doc) => {
                        let dir = parent_dir(path.as_str());
                        match collections.add(dir, doc, root) {
                            Placement::Joined => None,
                            Placement::TookOver { from } => Some(
                                SkipReason::Displaced { directory: from },
                            ),
                            Placement::NoDirectory => Some(SkipReason::NoDirectory),
                            Placement::NameTaken { by } => Some(SkipReason::NameTaken { by }),
                        }
                    },
                }
            },
        }
    }

    /// Begins a pass over the content: scans the tree for markdown files.
    /// A site without content root has no file to take.
    pub fn begin_collect(&self, content: Option<&FsEntry>) -> (r: Result<Collecting, BuildError>)
        ensures
            match r {
                Ok(pass) => {
                    &&& pass.taken() == Seq::<ScannedFileView>::empty()
                    &&& match self.content_root() {
                        None => pass.remaining() == Seq::<ScannedFileView>::empty(),
                        Some(root) => {
                            &&& pass.root() == root
                            &&& snapshot(content) is Some
                            &&& read_folder_spec(snapshot(content)->0, "md"@) == Ok::<
                                Seq<ScannedFileView>,
                                ScanError,
                            >(pass.remaining())
                        },
                    }
                },
                Err(e) => {
                    &&& e == BuildError::Scan
                    &&& self.content_root() is Some
                    &&& match snapshot(content) {
                        None => true,
                        Some(entry) => read_folder_spec(entry, "md"@) is Err,
                    }
                },
            },
    {
        let (reader, root) = match &self.posts_folder {
            None => (LazyFolderReader::empty(), String::new()),
            Some(folder) => {
                let entry = match content {
                    Some(entry) => entry,
                    None => {
                        return Err(BuildError::Scan);
                    },
                };
                match LazyFolderReader::new(entry, "md") {
                    Ok(reader) => (reader, folder.clone()),
                    Err(_) => {
                        return Err(BuildError::Scan);
                    },
                }
            },
        };
        Ok(Collecting::new(reader, root))
    }

    /// Ends a pass over the content: keeps the collections that it made, and
    /// what it left out, for later passes.
    pub fn keep_collections(&mut self, pass: Collecting) -> (collections: Collections)
        ensures
            collections@ == collect_spec(pass.taken(), pass.root()),
            final(self).same_site(old(self)),
            final(self).cached_collections() == Some(collections@),
            final(self).skipped_documents() == skipped_spec(pass.taken(), pass.root()),
            final(self).cached_state() == old(self).cached_state(),
            final(self).cached_builder() == old(self).cached_builder(),
    {
        let (collections, skipped) = pass.finish();
        self.cache.collections = Some(collections.clone());
        self.cache.skipped = skipped;
        collections
    }

    /// Begins a pass over the templates: scans the tree for template files,
    /// unless it cannot be listed or no full build came before.
    pub fn begin_compile(&self, templates: &FsEntry) -> (r: Result<Compiling<'_>, BuildError>)
        ensures
            match read_folder_spec(*templates, "template"@) {
                Err(_) => r matches Err(BuildError::Scan),
                Ok(files) => match (self.cached_builder(), self.cached_collections()) {
                    (Some(builder), Some(known)) => {
                        &&& r matches Ok(pass)
                        &&& pass.remaining() == files
                        &&& pass.taken() == Seq::<ScannedFileView>::empty()
                        &&& pass.known() == known
                        &&& pass.builder() == builder
                    },
                    _ => r matches Err(BuildError::CacheMiss),
                },
            },
    {
        let reader = match LazyFolderReader::new(templates, "template") {
            Ok(reader) => reader,
            Err(_) => {
                return Err(BuildError::Scan);
            },
        };
        let builder = match &self.cache.builder {
            Some(builder) => builder,
            None => {
                return Err(BuildError::CacheMiss);
            },
        };
        let collections = match &self.cache.collections {
            Some(collections) => collections,
            None => {
                return Err(BuildError::CacheMiss);
            },
        };
        Ok(Compiling::new(reader, builder, collections))
    }

    /// The files that the last scan of the content skipped, with the
    /// reasons.
    pub fn skipped(&self) -> (r: &Vec<Skipped>)
        ensures
            skipped_view(r@) == self.skipped_documents(),
    {
        &self.cache.skipped
    }

    /// Scans the content tree, groups its documents into collections and
    /// keeps them for later passes, together with the files it skipped.
    pub fn build_markdown_collections(&mut self, content: Option<&FsEntry>) -> (r: Result<
        Collections,
        BuildError,
    >)
        ensures
            final(self).same_site(old(self)),
            final(self).cached_state() == old(self).cached_state(),
            final(self).cached_builder() == old(self).cached_builder(),
            match collections_spec(old(self).content_root(), snapshot(content)) {
                Ok(collections) => {
                    &&& r is Ok
                    &&& r->Ok_0@ == collections
                    &&& final(self).cached_collections() == Some(collections)
                    &&& final(self).skipped_documents() == skipped_in(
                        old(self).content_root(),
                        snapshot(content),
                    )
                },
                Err(e) => {
                    &&& r == Err::<Collections, BuildError>(e)
                    &&& final(self).cached_collections() == old(self).cached_collections()
                    &&& final(self).skipped_documents() == old(self).skipped_documents()
                },
            },
    {
        let mut pass = match self.begin_collect(content) {
            Ok(pass) => pass,
            Err(e) => {
                return Err(e);
            },
        };
        let ghost all = pass.remaining();
        assert(all.subrange(all.len() as int, all.len() as int) =~= Seq::empty());
        assert(all.take(all.len() as int) =~= all);
        loop
            invariant
                pass.remaining().len() <= all.len(),
                pass.remaining() == all.take(pass.remaining().len() as int),
                pass.taken() == all.subrange(pass.remaining().len() as int, all.len() as int),
                pass.root() == old(self).content_root().unwrap_or(pass.root()),
            ensures
                pass.remaining().len() == 0,
                pass.taken() == all,
                pass.root() == old(self).content_root().unwrap_or(pass.root()),
            decreases pass.remaining().len(),
        {
            let ghost n = pass.remaining().len() as int;
            if pass.next_path().is_none() {
                assert(all.subrange(0, all.len() as int) =~= all);
                break;
            }
            assert(all.take(n).last() == all[n - 1]);
            assert(all.take(n).drop_last() =~= all.take(n - 1));
            assert(seq![all[n - 1]] + all.subrange(n, all.len() as int) =~= all.subrange(
                n - 1,
                all.len() as int,
            ));
            pass.take();
        }
        Ok(self.keep_collections(pass))
    }

    /// Keeps the collections, builds the state that every template is
    /// evaluated against, and makes both ready for compiling templates into
    /// the output root `output`.
    pub fn prepare(&mut self, collections: &Collections, output: &str)
        ensures
            final(self).same_site(old(self)),
            final(self).cached_collections() == Some(collections@),
            final(self).cached_state() == Some(site_state(old(self).settings(), collections@)),
            final(self).cached_builder() == Some(
                (site_state(old(self).settings(), collections@), output@),
            ),
            final(self).skipped_documents() == old(self).skipped_documents(),
    {
        self.cache.collections = Some(collections.clone());
        let state = self.build_state(collections);
        self.cache.builder = Some(Builder::new(state, output.to_owned()));
    }

    /// Scans the template tree and lists what the templates ask for, against
    /// the collections and the state that the last full build left.
    pub fn compile_templates(&self, templates: &FsEntry) -> (r: Result<Vec<BuildAction>, BuildError>)
        ensures
            planned_as(
                r,
                compile_spec(*templates, self.cached_collections(), self.cached_builder()),
            ),
    {
        let mut pass = match self.begin_compile(templates) {
            Ok(pass) => pass,
            Err(e) => {
                return Err(e);
            },
        };
        let ghost all = pass.remaining();
        assert(all.subrange(all.len() as int, all.len() as int) =~= Seq::empty());
        assert(all.take(all.len() as int) =~= all);
        loop
            invariant
                pass.known() == self.cached_collections()->0,
                pass.builder() == self.cached_builder()->0,
                pass.remaining().len() <= all.len(),
                pass.remaining() == all.take(pass.remaining().len() as int),
                pass.taken() == all.subrange(pass.remaining().len() as int, all.len() as int),
            ensures
                pass.known() == self.cached_collections()->0,
                pass.builder() == self.cached_builder()->0,
                pass.taken() == all,
            decreases pass.remaining().len(),
        {
            let ghost n = pass.remaining().len() as int;
            if pass.next_path().is_none() {
                assert(all.subrange(0, all.len() as int) =~= all);
                break;
            }
            assert(all.take(n).last() == all[n - 1]);
            assert(all.take(n).drop_last() =~= all.take(n - 1));
            assert(seq![all[n - 1]] + all.subrange(n, all.len() as int) =~= all.subrange(
                n - 1,
                all.len() as int,
            ));
            pass.take();
        }
        Ok(pass.finish())
    }

    /// Runs a full pass: scans the content, builds the state, keeps both for
    /// later passes, and lists what the templates ask for.
    pub fn build_from_scratch(
        &mut self,
        content: Option<&FsEntry>,
        templates: &FsEntry,
        output: &str,
    ) -> (r: Result<Vec<BuildAction>, BuildError>)
        ensures
            final(self).same_site(old(self)),
            match collections_spec(old(self).content_root(), snapshot(content)) {
                Err(e) => r == Err::<Vec<BuildAction>, BuildError>(e) && final(self).same_cache(
                    old(self),
                ),
                Ok(collections) => {
                    let state = site_state(old(self).settings(), collections);
                    &&& final(self).cached_collections() == Some(collections)
                    &&& final(self).cached_state() == Some(state)
                    &&& final(self).cached_builder() == Some((state, output@))
                    &&& final(self).skipped_documents() == skipped_in(
                        old(self).content_root(),
                        snapshot(content),
                    )
                },
            },
            planned_as(
                r,
                full_build_spec(
                    old(self).content_root(),
                    old(self).settings(),
                    snapshot(content),
                    *templates,
                    output@,
                ),
            ),
    {
        let collections = match self.build_markdown_collections(content) {
            Ok(collections) => collections,
            Err(e) => {
                return Err(e);
            },
        };
        self.prepare(&collections, output);
        self.compile_templates(templates)
    }
}

} // verus!
