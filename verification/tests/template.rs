use squid::assoc::StringMap;
use squid::config::Configuration;
use squid::io::{FsEntry, FsNode, LazyFolderReader, ScannedFile, TemplateFile};
use squid::md::{Collections, MarkdownDocument};
use squid::template::{
    collection_name, BuildAction, BuildError, Builder, RenderTask, SkipReason, Website,
};
use squid::tinylang::{Builtin, State, Value};

fn file(path: &str, contents: &str) -> FsEntry {
    FsEntry {
        path: path.to_string(),
        node: FsNode::File {
            contents: Some(contents.to_string()),
        },
    }
}

fn directory(path: &str, entries: Vec<FsEntry>) -> FsEntry {
    FsEntry {
        path: path.to_string(),
        node: FsNode::Directory {
            entries: Some(entries),
        },
    }
}

fn unreadable(path: &str) -> FsEntry {
    FsEntry {
        path: path.to_string(),
        node: FsNode::Directory { entries: None },
    }
}

fn content_tree() -> FsEntry {
    directory(
        "site/markdown",
        vec![
            directory(
                "site/markdown/posts",
                vec![
                    file(
                        "site/markdown/posts/first.md",
                        "---\ntitle: First\n---\n# One",
                    ),
                    file(
                        "site/markdown/posts/second.md",
                        "---\ntitle: Second\n---\n# Two",
                    ),
                    file("site/markdown/posts/notes.txt", "not markdown"),
                ],
            ),
            directory(
                "site/markdown/pages",
                vec![file("site/markdown/pages/about.md", "About us")],
            ),
        ],
    )
}

fn template_tree() -> FsEntry {
    directory(
        "site/templates",
        vec![
            file("site/templates/index.template", "INDEX"),
            file("site/templates/_posts.template", "POST"),
            file("site/templates/_missing.template", "PARTIAL"),
            file("site/templates/style.css", "css"),
        ],
    )
}

fn configuration() -> Configuration {
    let mut custom_keys = StringMap::new();
    custom_keys.insert("something".to_string(), "nice".to_string());
    Configuration::new(
        "my website".to_string(),
        "https://my_website.com".to_string(),
        custom_keys,
    )
}

fn website() -> Website {
    Website::new(
        Some(configuration()),
        "site/templates".to_string(),
        Some("site/markdown".to_string()),
    )
}

fn renders(actions: &[BuildAction]) -> Vec<&RenderTask> {
    actions
        .iter()
        .filter_map(|a| match a {
            BuildAction::Render(task) => Some(task),
            _ => None,
        })
        .collect()
}

fn outline(actions: &[BuildAction]) -> Vec<String> {
    actions
        .iter()
        .map(|a| match a {
            BuildAction::CreateDir { path } => format!("dir {}", path),
            BuildAction::Render(task) => format!(
                "render {} to {} in {}",
                task.template, task.file_name, task.output_folder
            ),
            BuildAction::Skip { path, error } => format!("skip {}: {}", path, error.message()),
        })
        .collect()
}

fn text_of(value: Option<&Value>) -> String {
    match value {
        Some(Value::Text(text)) => text.clone(),
        other => panic!("expected a text, found {:?}", other),
    }
}

fn object_of(value: Option<&Value>) -> &State {
    match value {
        Some(Value::Object(fields)) => fields,
        other => panic!("expected an object, found {:?}", other),
    }
}

#[test]
fn full_build_plans_one_render_per_output_file() {
    let mut site = website();
    let actions = site
        .build_from_scratch(Some(&content_tree()), &template_tree(), "out")
        .unwrap();
    assert_eq!(
        vec![
            "dir out/posts",
            "render POST to second.html in out/posts",
            "render POST to first.html in out/posts",
            "render INDEX to index.html in out",
        ],
        outline(&actions)
    );
}

#[test]
fn plain_template_maps_to_one_html_file_in_the_output_root() {
    let mut site = Website::new(None, "t".to_string(), None);
    let templates = directory("t", vec![file("t/page.template", "PAGE")]);
    let actions = site.build_from_scratch(None, &templates, "output_root").unwrap();
    assert_eq!(1, actions.len());
    let tasks = renders(&actions);
    assert_eq!("page.html", tasks[0].file_name);
    assert_eq!("output_root", tasks[0].output_folder);
    assert_eq!("PAGE", tasks[0].template);
}

#[test]
fn collection_template_expands_to_one_file_per_document() {
    let mut site = website();
    let actions = site
        .build_from_scratch(Some(&content_tree()), &template_tree(), "output_root")
        .unwrap();
    let in_posts: Vec<&str> = renders(&actions)
        .into_iter()
        .filter(|t| t.output_folder == "output_root/posts")
        .map(|t| t.file_name.as_str())
        .collect();
    assert_eq!(vec!["second.html", "first.html"], in_posts);
}

#[test]
fn collection_directory_comes_before_its_renders() {
    let mut site = website();
    let actions = site
        .build_from_scratch(Some(&content_tree()), &template_tree(), "out")
        .unwrap();
    let created = actions
        .iter()
        .position(|a| matches!(a, BuildAction::CreateDir { path } if path == "out/posts"))
        .unwrap();
    for (i, action) in actions.iter().enumerate() {
        if let BuildAction::Render(task) = action {
            if task.output_folder == "out/posts" {
                assert!(created < i);
            }
        }
    }
}

#[test]
fn unreferenced_partial_produces_nothing() {
    let mut site = Website::new(None, "t".to_string(), None);
    let templates = directory("t", vec![file("t/_missing.template", "PARTIAL")]);
    let actions = site.build_from_scratch(None, &templates, "out").unwrap();
    assert!(actions.is_empty());
}

#[test]
fn collection_without_template_produces_nothing() {
    let mut site = website();
    let actions = site
        .build_from_scratch(Some(&content_tree()), &template_tree(), "out")
        .unwrap();
    assert!(renders(&actions)
        .iter()
        .all(|t| t.output_folder != "out/pages"));
    assert!(!actions
        .iter()
        .any(|a| matches!(a, BuildAction::CreateDir { path } if path == "out/pages")));
}

#[test]
fn every_render_sees_settings_builtins_and_collections() {
    let mut site = website();
    let actions = site
        .build_from_scratch(Some(&content_tree()), &template_tree(), "out")
        .unwrap();
    for task in renders(&actions) {
        let state = &task.state;
        assert_eq!("my website", text_of(state.get("website_name")));
        assert_eq!("https://my_website.com", text_of(state.get("uri")));
        assert_eq!("nice", text_of(state.get("something")));
        assert!(matches!(
            state.get("render"),
            Some(Value::Callable(Builtin::Render))
        ));
        assert!(matches!(
            state.get("sort_by_key"),
            Some(Value::Callable(Builtin::SortByKey))
        ));
        assert!(matches!(
            state.get("reverse"),
            Some(Value::Callable(Builtin::Reverse))
        ));
        let posts = object_of(state.get("posts"));
        assert!(matches!(posts.get("size"), Some(Value::Numeric(2))));
        let pages = object_of(state.get("pages"));
        assert!(matches!(pages.get("size"), Some(Value::Numeric(1))));
    }
}

#[test]
fn plain_render_has_no_content_variable() {
    let mut site = website();
    let actions = site
        .build_from_scratch(Some(&content_tree()), &template_tree(), "out")
        .unwrap();
    let tasks = renders(&actions);
    let index = tasks.iter().find(|t| t.file_name == "index.html").unwrap();
    assert!(index.state.get("content").is_none());
    assert_eq!(8, index.state.len());
}

#[test]
fn each_item_render_sees_only_its_own_content() {
    let mut site = website();
    let actions = site
        .build_from_scratch(Some(&content_tree()), &template_tree(), "out")
        .unwrap();
    let tasks = renders(&actions);
    let first = tasks.iter().find(|t| t.file_name == "first.html").unwrap();
    let second = tasks.iter().find(|t| t.file_name == "second.html").unwrap();
    let first_content = object_of(first.state.get("content"));
    let second_content = object_of(second.state.get("content"));
    assert_eq!("First", text_of(first_content.get("title")));
    assert_eq!("<h1>One</h1>", text_of(first_content.get("content")));
    assert_eq!("/posts/first.html", text_of(first_content.get("partial_uri")));
    assert_eq!("Second", text_of(second_content.get("title")));
    assert_eq!("<h1>Two</h1>", text_of(second_content.get("content")));
    assert_eq!(
        "/posts/second.html",
        text_of(second_content.get("partial_uri"))
    );
    assert_eq!(9, first.state.len());
}

#[test]
fn building_twice_plans_the_same() {
    let mut site = website();
    let first = site
        .build_from_scratch(Some(&content_tree()), &template_tree(), "out")
        .unwrap();
    let second = site
        .build_from_scratch(Some(&content_tree()), &template_tree(), "out")
        .unwrap();
    assert_eq!(outline(&first), outline(&second));
    let mut fresh = website();
    let third = fresh
        .build_from_scratch(Some(&content_tree()), &template_tree(), "out")
        .unwrap();
    assert_eq!(outline(&first), outline(&third));
}

#[test]
fn compile_templates_needs_a_full_build_first() {
    let site = website();
    assert_eq!(
        Err(BuildError::CacheMiss),
        site.compile_templates(&template_tree()).map(|a| a.len())
    );
}

#[test]
fn compile_templates_reports_an_unreadable_root_first() {
    let site = website();
    assert_eq!(
        Err(BuildError::Scan),
        site.compile_templates(&unreadable("site/templates"))
            .map(|a| a.len())
    );
}

#[test]
fn compile_templates_needs_a_builder_too() {
    let mut site = website();
    site.build_markdown_collections(Some(&content_tree())).unwrap();
    assert_eq!(
        Err(BuildError::CacheMiss),
        site.compile_templates(&template_tree()).map(|a| a.len())
    );
}

#[test]
fn compile_templates_reuses_collections_and_state() {
    let mut site = website();
    let first = site
        .build_from_scratch(Some(&content_tree()), &template_tree(), "out")
        .unwrap();
    let changed = directory(
        "site/templates",
        vec![
            file("site/templates/index.template", "INDEX"),
            file("site/templates/_posts.template", "NEW POST"),
            file("site/templates/extra.template", "EXTRA"),
        ],
    );
    let again = site.compile_templates(&changed).unwrap();
    assert_eq!(4, first.len());
    assert_eq!(
        vec![
            "render EXTRA to extra.html in out",
            "dir out/posts",
            "render NEW POST to second.html in out/posts",
            "render NEW POST to first.html in out/posts",
            "render INDEX to index.html in out",
        ],
        outline(&again)
    );
}

#[test]
fn full_build_fails_when_a_root_cannot_be_read() {
    let mut site = website();
    assert_eq!(
        Err(BuildError::Scan),
        site.build_from_scratch(Some(&unreadable("site/markdown")), &template_tree(), "out")
            .map(|a| a.len())
    );
    assert_eq!(
        Err(BuildError::Scan),
        site.build_from_scratch(None, &template_tree(), "out")
            .map(|a| a.len())
    );
    assert_eq!(
        Err(BuildError::Scan),
        site.build_from_scratch(Some(&content_tree()), &unreadable("site/templates"), "out")
            .map(|a| a.len())
    );
}

#[test]
fn a_failed_content_scan_leaves_the_cache_alone() {
    let mut site = website();
    assert!(site
        .build_from_scratch(Some(&unreadable("site/markdown")), &template_tree(), "out")
        .is_err());
    assert_eq!(
        Err(BuildError::CacheMiss),
        site.compile_templates(&template_tree()).map(|a| a.len())
    );
}

#[test]
fn site_without_content_builds_its_plain_templates() {
    let mut site = Website::new(None, "site/templates".to_string(), None);
    let actions = site
        .build_from_scratch(None, &template_tree(), "out")
        .unwrap();
    assert_eq!(vec!["render INDEX to index.html in out"], outline(&actions));
    let tasks = renders(&actions);
    assert_eq!(3, tasks[0].state.len());
    assert!(site.compile_templates(&template_tree()).is_ok());
}

#[test]
fn bad_documents_are_skipped() {
    let content = directory(
        "c",
        vec![directory(
            "c/posts",
            vec![
                file("c/posts/good.md", "fine"),
                file("c/posts/bad.md", "---\ntags:\n  - a\n---\ntext"),
                FsEntry {
                    path: "c/posts/unread.md".to_string(),
                    node: FsNode::File { contents: None },
                },
            ],
        )],
    );
    let mut site = Website::new(None, "t".to_string(), Some("c".to_string()));
    let collections = site.build_markdown_collections(Some(&content)).unwrap();
    assert_eq!(1, collections.len());
    let posts = collections.get("posts").unwrap();
    assert_eq!(1, posts.collection.len());
    assert_eq!("good.md", posts.collection[0].name);
}

#[test]
fn documents_join_the_collection_of_their_directory() {
    let mut site = website();
    let collections = site
        .build_markdown_collections(Some(&content_tree()))
        .unwrap();
    assert_eq!(2, collections.len());
    let posts = collections.get("posts").unwrap();
    assert_eq!("site/markdown/posts", posts.relative_path);
    assert_eq!("posts", posts.name);
    let names: Vec<&str> = posts.collection.iter().map(|d| d.name.as_str()).collect();
    // the reader hands out the last file first
    assert_eq!(vec!["second.md", "first.md"], names);
    let pages = collections.get("pages").unwrap();
    assert_eq!("about.md", pages.collection[0].name);
    assert_eq!("/pages/about.html", pages.collection[0].partial_uri);
}

#[test]
fn documents_at_the_content_root_form_its_collection() {
    let content = directory("site/markdown", vec![file("site/markdown/top.md", "x")]);
    let mut site = website();
    let collections = site.build_markdown_collections(Some(&content)).unwrap();
    assert_eq!(1, collections.len());
    assert_eq!(1, collections.get("markdown").unwrap().collection.len());
}

#[test]
fn partial_uri_strips_the_root_and_swaps_the_extension() {
    assert_eq!(
        "/posts/doc.html",
        Website::partial_uri("/home/me/my_site/posts/doc.md", "/home/me/my_site")
    );
    assert_eq!(
        "/cmd/md.html",
        Website::partial_uri("content/cmd/md.md", "content")
    );
    assert_eq!(
        "elsewhere/doc.html",
        Website::partial_uri("elsewhere/doc.md", "content")
    );
    assert_eq!("/posts/doc.txt", Website::partial_uri("c/posts/doc.txt", "c"));
}

#[test]
fn collection_name_strips_marker_and_extension() {
    assert_eq!(Some("posts".to_string()), collection_name("_posts.template"));
    assert_eq!(Some("".to_string()), collection_name("_.template"));
    assert_eq!(Some("my.posts".to_string()), collection_name("_my.posts.template"));
    assert_eq!(Some("posts.txt".to_string()), collection_name("_posts.txt"));
    assert_eq!(Some("".to_string()), collection_name("_"));
    assert_eq!(None, collection_name("posts.template"));
    assert_eq!(None, collection_name(""));
}

#[test]
fn builder_works_on_any_reader_and_collections() {
    let mut collections = Collections::new();
    collections.add(
        "c/posts".to_string(),
        MarkdownDocument::new("one", "a.md".to_string(), "/posts/a.html".to_string()).unwrap(),
        "c",
    );
    let mut state = State::new();
    state.insert("k".to_string(), Value::Text("v".to_string()));
    let builder = Builder::new(state, "out".to_string());
    let templates = directory(
        "t",
        vec![
            file("t/_posts.template", "P"),
            FsEntry {
                path: "t/broken.template".to_string(),
                node: FsNode::File { contents: None },
            },
        ],
    );
    let mut reader = LazyFolderReader::new(&templates, "template").unwrap();
    let actions = builder.process_folder(&mut reader, &collections);
    assert!(reader.is_empty());
    assert_eq!(
        vec![
            "skip t/broken.template: could not read file",
            "dir out/posts",
            "render P to a.html in out/posts"
        ],
        outline(&actions)
    );
    assert_eq!("out/posts", builder.mk_collection_dir("posts"));
    let task = builder.eval_template_to_output_file(
        TemplateFile::new(ScannedFile {
            path: "t/x.template".to_string(),
            contents: Some("X".to_string()),
        })
        .unwrap(),
    );
    assert_eq!("x.html", task.file_name);
    assert_eq!("out", task.output_folder);
    assert_eq!("v", text_of(task.state.get("k")));
}

#[test]
fn default_state_lets_builtins_win_over_custom_keys() {
    let mut custom_keys = StringMap::new();
    custom_keys.insert("render".to_string(), "mine".to_string());
    custom_keys.insert("uri".to_string(), "custom uri".to_string());
    let site = Website::new(
        Some(Configuration::new(
            "name".to_string(),
            "uri".to_string(),
            custom_keys,
        )),
        "t".to_string(),
        None,
    );
    let state = site.build_default_state();
    assert!(matches!(
        state.get("render"),
        Some(Value::Callable(Builtin::Render))
    ));
    assert_eq!("custom uri", text_of(state.get("uri")));
    assert_eq!("name", text_of(state.get("website_name")));
    assert_eq!(5, state.len());
}

#[test]
fn collections_win_over_default_variables() {
    let content = directory(
        "c",
        vec![directory("c/uri", vec![file("c/uri/a.md", "x")])],
    );
    let mut site = Website::new(Some(configuration()), "t".to_string(), Some("c".to_string()));
    let collections = site.build_markdown_collections(Some(&content)).unwrap();
    let state = site.build_state(&collections);
    assert!(matches!(state.get("uri"), Some(Value::Object(_))));
    let only = site.build_collection_state(&collections);
    assert_eq!(1, only.len());
}

fn bad_content() -> FsEntry {
    directory(
        "c",
        vec![
            directory(
                "c/posts",
                vec![
                    file("c/posts/good.md", "fine"),
                    file("c/posts/bad.md", "---\ntags:\n  - a\n---\ntext"),
                    FsEntry {
                        path: "c/posts/unread.md".to_string(),
                        node: FsNode::File { contents: None },
                    },
                ],
            ),
            file("../orphan.md", "x"),
        ],
    )
}

#[test]
fn skipped_documents_are_kept_with_their_reasons() {
    let mut site = Website::new(None, "t".to_string(), Some("c".to_string()));
    assert!(site.skipped().is_empty());
    site.build_markdown_collections(Some(&bad_content())).unwrap();
    let skipped: Vec<(String, String)> = site
        .skipped()
        .iter()
        .map(|s| {
            let kind = match &s.reason {
                SkipReason::Load(e) => e.message(),
                SkipReason::Parse(_) => "parse".to_string(),
                SkipReason::NoDirectory => "no directory".to_string(),
                other => other.message(),
            };
            (s.path.clone(), kind)
        })
        .collect();
    assert_eq!(
        vec![
            ("c/posts/unread.md".to_string(), "could not read file".to_string()),
            ("c/posts/bad.md".to_string(), "parse".to_string()),
            ("../orphan.md".to_string(), "no directory".to_string()),
        ],
        skipped
    );
    for s in site.skipped() {
        assert!(!s.reason.message().is_empty());
    }
    site.build_markdown_collections(Some(&content_tree())).unwrap();
    assert!(site.skipped().is_empty());
}

#[test]
fn a_failed_scan_keeps_the_skipped_documents() {
    let mut site = Website::new(None, "t".to_string(), Some("c".to_string()));
    site.build_markdown_collections(Some(&bad_content())).unwrap();
    assert!(site
        .build_markdown_collections(Some(&unreadable("c")))
        .is_err());
    assert_eq!(3, site.skipped().len());
}

fn texts(tree: &FsEntry, found: &mut Vec<(String, Option<String>)>) {
    match &tree.node {
        FsNode::File { contents } => found.push((tree.path.clone(), contents.clone())),
        FsNode::Directory {
            entries: Some(entries),
        } => {
            for entry in entries {
                texts(entry, found);
            }
        }
        _ => {}
    }
}

fn without_texts(tree: &FsEntry) -> FsEntry {
    FsEntry {
        path: tree.path.clone(),
        node: match &tree.node {
            FsNode::File { .. } => FsNode::File { contents: None },
            FsNode::Directory { entries } => FsNode::Directory {
                entries: entries
                    .as_ref()
                    .map(|entries| entries.iter().map(without_texts).collect()),
            },
            FsNode::Other => FsNode::Other,
        },
    }
}

fn read_from(found: &[(String, Option<String>)], path: &str) -> Option<String> {
    found
        .iter()
        .find(|(p, _)| p == path)
        .and_then(|(_, text)| text.clone())
}

#[test]
fn one_file_at_a_time_gives_what_the_whole_pass_gives() {
    let mut whole = website();
    let expected = whole
        .build_from_scratch(Some(&content_tree()), &template_tree(), "out")
        .unwrap();

    let mut disk = Vec::new();
    texts(&content_tree(), &mut disk);
    texts(&template_tree(), &mut disk);

    let mut site = website();
    let mut pass = site
        .begin_collect(Some(&without_texts(&content_tree())))
        .unwrap();
    let mut pulls = 0;
    while let Some(path) = pass.next_path() {
        assert!(!pass.supply(read_from(&disk, &path)));
        pulls += 1;
    }
    assert_eq!(3, pulls);
    let collections = site.keep_collections(pass);
    assert!(site.skipped().is_empty());
    site.prepare(&collections, "out");
    let mut pass = site
        .begin_compile(&without_texts(&template_tree()))
        .unwrap();
    while let Some(path) = pass.next_path() {
        pass.supply(read_from(&disk, &path));
    }
    assert_eq!(outline(&expected), outline(&pass.finish()));
}

#[test]
fn a_pass_takes_the_last_file_first_and_stops_at_the_end() {
    let listed = directory(
        "c",
        vec![directory(
            "c/posts",
            vec![
                FsEntry {
                    path: "c/posts/a.md".to_string(),
                    node: FsNode::File { contents: None },
                },
                FsEntry {
                    path: "c/posts/b.md".to_string(),
                    node: FsNode::File { contents: None },
                },
            ],
        )],
    );
    let mut site = Website::new(None, "t".to_string(), Some("c".to_string()));
    let mut pass = site.begin_collect(Some(&listed)).unwrap();
    assert_eq!(Some("c/posts/b.md".to_string()), pass.next_path());
    assert_eq!(Some("c/posts/b.md".to_string()), pass.next_path());
    assert!(!pass.supply(Some("text of b".to_string())));
    assert_eq!(Some("c/posts/a.md".to_string()), pass.next_path());
    assert!(pass.supply(None));
    assert_eq!(None, pass.next_path());
    assert!(!pass.supply(Some("late".to_string())));
    assert!(!pass.take());
    let collections = site.keep_collections(pass);
    let posts = collections.get("posts").unwrap();
    assert_eq!(1, posts.collection.len());
    assert_eq!("<p>text of b</p>", posts.collection[0].html_content);
    assert_eq!(1, site.skipped().len());
    assert_eq!("c/posts/a.md", site.skipped()[0].path);
    assert_eq!("could not read file", site.skipped()[0].reason.message());
}

#[test]
fn add_markdown_file_says_why_it_skips() {
    let mut collections = Collections::new();
    let unread = ScannedFile {
        path: "c/p/a.md".to_string(),
        contents: None,
    };
    assert!(matches!(
        Website::add_markdown_file(&mut collections, unread, "c"),
        Some(SkipReason::Load(_))
    ));
    let bad = ScannedFile {
        path: "c/p/a.md".to_string(),
        contents: Some("---\nn: 1\n---\n".to_string()),
    };
    match Website::add_markdown_file(&mut collections, bad, "c") {
        Some(reason @ SkipReason::Parse(_)) => assert!(!reason.message().is_empty()),
        other => panic!("expected a parse error, found {:?}", other),
    }
    let orphan = ScannedFile {
        path: "a.md".to_string(),
        contents: Some("x".to_string()),
    };
    match Website::add_markdown_file(&mut collections, orphan, "c") {
        Some(reason @ SkipReason::NoDirectory) => {
            assert_eq!("could not get the name of the directory", reason.message())
        }
        other => panic!("expected no directory, found {:?}", other),
    }
    assert_eq!(0, collections.len());
}

#[test]
fn begin_collect_and_begin_compile_report_what_stops_them() {
    let site = website();
    assert!(matches!(site.begin_collect(None), Err(BuildError::Scan)));
    assert!(matches!(
        site.begin_collect(Some(&unreadable("site/markdown"))),
        Err(BuildError::Scan)
    ));
    assert!(matches!(
        site.begin_compile(&unreadable("site/templates")),
        Err(BuildError::Scan)
    ));
    assert!(matches!(
        site.begin_compile(&template_tree()),
        Err(BuildError::CacheMiss)
    ));
    let bare = Website::new(None, "t".to_string(), None);
    assert_eq!(None, bare.begin_collect(None).unwrap().next_path());
    assert_eq!(
        None,
        bare.begin_collect(Some(&content_tree()))
            .unwrap()
            .next_path()
    );
}

#[test]
fn an_unread_template_is_reported_not_rendered() {
    let mut site = Website::new(None, "t".to_string(), None);
    let templates = directory(
        "t",
        vec![
            FsEntry {
                path: "t/gone.template".to_string(),
                node: FsNode::File { contents: None },
            },
            file("t/page.template", "PAGE"),
        ],
    );
    let actions = site.build_from_scratch(None, &templates, "out").unwrap();
    assert_eq!(
        vec![
            "render PAGE to page.html in out",
            "skip t/gone.template: could not read file",
        ],
        outline(&actions)
    );
}

fn clash() -> FsEntry {
    directory(
        "root",
        vec![
            directory("root/X", vec![file("root/X/doc.md", "own")]),
            directory(
                "root/a",
                vec![
                    directory("root/a/X", vec![file("root/a/X/z.md", "other")]),
                    directory("root/a/posts", vec![file("root/a/posts/x.md", "first")]),
                ],
            ),
            directory(
                "root/b",
                vec![directory(
                    "root/b/posts",
                    vec![file("root/b/posts/y.md", "second")],
                )],
            ),
        ],
    )
}

fn clash_listed_the_other_way() -> FsEntry {
    directory(
        "root",
        vec![
            directory(
                "root/b",
                vec![directory(
                    "root/b/posts",
                    vec![file("root/b/posts/y.md", "second")],
                )],
            ),
            directory(
                "root/a",
                vec![
                    directory("root/a/posts", vec![file("root/a/posts/x.md", "first")]),
                    directory("root/a/X", vec![file("root/a/X/z.md", "other")]),
                ],
            ),
            directory("root/X", vec![file("root/X/doc.md", "own")]),
        ],
    )
}

fn members(site: &mut Website, tree: &FsEntry, key: &str) -> (String, Vec<String>) {
    let collections = site.build_markdown_collections(Some(tree)).unwrap();
    let collection = collections.get(key).unwrap();
    (
        collection.relative_path.clone(),
        collection
            .collection
            .iter()
            .map(|d| d.name.clone())
            .collect(),
    )
}

#[test]
fn the_collection_of_a_name_lies_at_the_content_roots_own_directory() {
    for tree in [clash(), clash_listed_the_other_way()] {
        let mut site = Website::new(None, "t".to_string(), Some("root".to_string()));
        assert_eq!(
            ("root/X".to_string(), vec!["doc.md".to_string()]),
            members(&mut site, &tree, "X")
        );
    }
}

#[test]
fn documents_of_two_directories_never_share_a_collection() {
    let mut site = Website::new(None, "t".to_string(), Some("root".to_string()));
    assert_eq!(
        ("root/b/posts".to_string(), vec!["y.md".to_string()]),
        members(&mut site, &clash(), "posts")
    );
    assert_eq!(
        ("root/a/posts".to_string(), vec!["x.md".to_string()]),
        members(&mut site, &clash_listed_the_other_way(), "posts")
    );
}

#[test]
fn what_a_clash_of_names_leaves_out_is_reported() {
    let mut site = Website::new(None, "t".to_string(), Some("root".to_string()));
    site.build_markdown_collections(Some(&clash())).unwrap();
    let notes: Vec<String> = site
        .skipped()
        .iter()
        .map(|s| format!("{}: {}", s.path, s.reason.message()))
        .collect();
    assert_eq!(
        vec![
            "root/a/posts/x.md: the name of the directory is taken by root/b/posts",
            "root/X/doc.md: took the name over from root/a/X",
        ],
        notes
    );
    site.build_markdown_collections(Some(&clash_listed_the_other_way()))
        .unwrap();
    let notes: Vec<String> = site
        .skipped()
        .iter()
        .map(|s| format!("{}: {}", s.path, s.reason.message()))
        .collect();
    assert_eq!(
        vec![
            "root/a/X/z.md: the name of the directory is taken by root/X",
            "root/b/posts/y.md: the name of the directory is taken by root/a/posts",
        ],
        notes
    );
}
