use squid::md::{Collections, MarkdownCollection, MarkdownDocument, Placement};
use squid::tinylang::Value;

fn text_of(value: Option<&Value>) -> String {
    match value {
        Some(Value::Text(text)) => text.clone(),
        other => panic!("expected a text, found {:?}", other),
    }
}

#[test]
fn test_create_markdown_document() {
    let content = r#"---
title: This is pretty cool
---
# This is an amazing content!"#;

    let markdown =
        MarkdownDocument::new(content, "my_file.md".into(), "/posts/".to_string()).unwrap();

    assert_eq!(
        "<h1>This is an amazing content!</h1>",
        markdown.html_content
    );

    assert_eq!(
        "This is pretty cool",
        markdown.header.get("title").unwrap().as_str()
    );
}

#[test]
fn document_keeps_name_and_address() {
    let markdown = MarkdownDocument::new(
        "---\ntitle: t\n---\nbody",
        "my_file.md".into(),
        "/posts/my_file.html".to_string(),
    )
    .unwrap();
    assert_eq!("my_file.md", markdown.name);
    assert_eq!("/posts/my_file.html", markdown.partial_uri);
    assert_eq!(1, markdown.header.len());
}

#[test]
fn document_without_front_matter_has_an_empty_header() {
    let markdown =
        MarkdownDocument::new("just *text*", "a.md".into(), "/a.html".to_string()).unwrap();
    assert!(markdown.header.is_empty());
    assert_eq!(0, markdown.header.len());
    assert_eq!("<p>just <em>text</em></p>", markdown.html_content);
}

#[test]
fn document_with_several_fields() {
    let markdown = MarkdownDocument::new(
        "---\ntitle: Hello\nauthor: Someone\ndate: \"2023-01-02\"\n---\ntext",
        "a.md".into(),
        "/a.html".to_string(),
    )
    .unwrap();
    assert_eq!(3, markdown.header.len());
    assert_eq!("Hello", markdown.header.get("title").unwrap());
    assert_eq!("Someone", markdown.header.get("author").unwrap());
    assert_eq!("2023-01-02", markdown.header.get("date").unwrap());
    assert!(markdown.header.get("missing").is_none());
    assert!(!markdown.header.contains_key("Title"));
    assert_eq!("<p>text</p>", markdown.html_content);
}

#[test]
fn front_matter_that_is_no_string_mapping_is_a_parse_error() {
    let nested = MarkdownDocument::new(
        "---\ntags:\n  - a\n  - b\n---\ntext",
        "a.md".into(),
        "/a.html".to_string(),
    );
    assert!(nested.is_err());
    assert!(!nested.unwrap_err().message.is_empty());

    let number = MarkdownDocument::new(
        "---\ncount: 3\n---\ntext",
        "a.md".into(),
        "/a.html".to_string(),
    );
    assert!(number.is_err());

    let scalar = MarkdownDocument::new("---\njust a line\n---\ntext", "a.md".into(), "".into());
    assert!(scalar.is_err());
}

#[test]
fn from_parts_takes_later_pairs_over_earlier_ones() {
    let doc = MarkdownDocument::from_parts(
        Some(Ok(vec![
            ("k".to_string(), "first".to_string()),
            ("other".to_string(), "x".to_string()),
            ("k".to_string(), "second".to_string()),
        ])),
        "<p>html</p>".to_string(),
        "n.md".to_string(),
        "/n.html".to_string(),
    )
    .unwrap();
    assert_eq!(2, doc.header.len());
    assert_eq!("second", doc.header.get("k").unwrap());
    assert_eq!("<p>html</p>", doc.html_content);
}

#[test]
fn from_parts_hands_on_the_error() {
    let error = MarkdownDocument::from_parts(
        Some(Err("bad front matter".to_string())),
        "<p>html</p>".to_string(),
        "n.md".to_string(),
        "/n.html".to_string(),
    )
    .unwrap_err();
    assert_eq!("bad front matter", error.message);
}

#[test]
fn document_state_holds_header_content_and_address() {
    let markdown = MarkdownDocument::new(
        "---\ntitle: Hello\n---\n# Head",
        "a.md".into(),
        "/posts/a.html".to_string(),
    )
    .unwrap();
    let state = markdown.as_tinylang_state();
    assert_eq!(3, state.len());
    assert_eq!("Hello", text_of(state.get("title")));
    assert_eq!("<h1>Head</h1>", text_of(state.get("content")));
    assert_eq!("/posts/a.html", text_of(state.get("partial_uri")));
}

#[test]
fn document_state_prefers_html_and_address_over_header_fields() {
    let markdown = MarkdownDocument::new(
        "---\ncontent: from header\npartial_uri: from header\n---\nbody",
        "a.md".into(),
        "/a.html".to_string(),
    )
    .unwrap();
    let state = markdown.as_tinylang_state();
    assert_eq!(2, state.len());
    assert_eq!("<p>body</p>", text_of(state.get("content")));
    assert_eq!("/a.html", text_of(state.get("partial_uri")));
}

#[test]
fn new_collection_is_named_by_its_directory() {
    let collection = MarkdownCollection::new("content/posts".to_string());
    assert_eq!("posts", collection.name);
    assert_eq!("content/posts", collection.relative_path);
    assert!(collection.collection.is_empty());
}

#[test]
fn new_collection_of_a_nameless_directory_is_named_by_its_path() {
    for path in ["", "/", "..", "content/.."] {
        let collection = MarkdownCollection::new(path.to_string());
        assert_eq!(path, collection.name);
        assert_eq!(path, collection.relative_path);
    }
    assert_eq!("posts", MarkdownCollection::new("posts".to_string()).name);
    assert_eq!("posts", MarkdownCollection::new("/posts".to_string()).name);
}

#[test]
fn collection_state_holds_size_and_items() {
    let mut collection = MarkdownCollection::new("content/posts".to_string());
    for name in ["one", "two", "three"] {
        collection.collection.push(
            MarkdownDocument::new(
                &format!("---\ntitle: {}\n---\ntext", name),
                format!("{}.md", name),
                format!("/posts/{}.html", name),
            )
            .unwrap(),
        );
    }
    let state = collection.as_tinylang_state();
    assert_eq!(2, state.len());
    match state.get("size") {
        Some(Value::Numeric(n)) => assert_eq!(3, *n),
        other => panic!("expected a number, found {:?}", other),
    }
    match state.get("items") {
        Some(Value::List(items)) => {
            assert_eq!(3, items.len());
            let titles: Vec<String> = items
                .iter()
                .map(|item| match item {
                    Value::Object(fields) => text_of(fields.get("title")),
                    other => panic!("expected an object, found {:?}", other),
                })
                .collect();
            assert_eq!(vec!["one", "two", "three"], titles);
        }
        other => panic!("expected a list, found {:?}", other),
    }
}

#[test]
fn empty_collection_has_size_zero() {
    let state = MarkdownCollection::new("p".to_string()).as_tinylang_state();
    assert!(matches!(state.get("size"), Some(Value::Numeric(0))));
    assert!(matches!(state.get("items"), Some(Value::List(items)) if items.is_empty()));
}

fn doc(name: &str) -> MarkdownDocument {
    MarkdownDocument::new("text", name.to_string(), format!("/{}", name)).unwrap()
}

#[test]
fn documents_are_grouped_by_directory_name() {
    let mut collections = Collections::new();
    for (dir, name) in [
        ("content/posts", "a.md"),
        ("content/notes", "b.md"),
        ("content/posts", "c.md"),
    ] {
        assert!(matches!(
            collections.add(dir.to_string(), doc(name), "content"),
            Placement::Joined
        ));
    }
    assert_eq!(2, collections.len());
    let posts = collections.get("posts").unwrap();
    assert_eq!("posts", posts.name);
    assert_eq!("content/posts", posts.relative_path);
    assert_eq!("notes", collections.get("notes").unwrap().name);
    let names: Vec<&str> = posts.collection.iter().map(|d| d.name.as_str()).collect();
    assert_eq!(vec!["a.md", "c.md"], names);
    assert_eq!(1, collections.get("notes").unwrap().collection.len());
    assert!(collections.get("content").is_none());
    assert!(collections.contains_key("notes"));
    assert!(!collections.contains_key("content/posts"));
}

fn names_of(collections: &Collections, key: &str) -> Vec<String> {
    collections
        .get(key)
        .unwrap()
        .collection
        .iter()
        .map(|d| d.name.clone())
        .collect()
}

#[test]
fn a_second_directory_of_the_same_name_is_left_out() {
    let mut collections = Collections::new();
    assert!(matches!(
        collections.add("root/a/posts".to_string(), doc("x.md"), "root"),
        Placement::Joined
    ));
    match collections.add("root/b/posts".to_string(), doc("y.md"), "root") {
        Placement::NameTaken { by } => assert_eq!("root/a/posts", by),
        other => panic!("expected a taken name, found {:?}", other),
    }
    assert!(matches!(
        collections.add("root/a/posts".to_string(), doc("z.md"), "root"),
        Placement::Joined
    ));
    assert_eq!(1, collections.len());
    let posts = collections.get("posts").unwrap();
    assert_eq!("posts", posts.name);
    assert_eq!("root/a/posts", posts.relative_path);
    assert_eq!(vec!["x.md", "z.md"], names_of(&collections, "posts"));
}

#[test]
fn the_directory_of_the_content_root_takes_its_name_over() {
    let mut collections = Collections::new();
    collections.add("root/a/X".to_string(), doc("z.md"), "root");
    match collections.add("root/X".to_string(), doc("doc.md"), "root") {
        Placement::TookOver { from } => assert_eq!("root/a/X", from),
        other => panic!("expected a take-over, found {:?}", other),
    }
    match collections.add("root/a/X".to_string(), doc("late.md"), "root") {
        Placement::NameTaken { by } => assert_eq!("root/X", by),
        other => panic!("expected a taken name, found {:?}", other),
    }
    assert!(matches!(
        collections.add("root/X".to_string(), doc("more.md"), "root/"),
        Placement::Joined
    ));
    assert_eq!(1, collections.len());
    let x = collections.get("X").unwrap();
    assert_eq!("X", x.name);
    assert_eq!("root/X", x.relative_path);
    assert_eq!(vec!["doc.md", "more.md"], names_of(&collections, "X"));
}

#[test]
fn the_directory_of_the_content_root_keeps_its_name() {
    let mut collections = Collections::new();
    collections.add("root/X".to_string(), doc("doc.md"), "root");
    assert!(matches!(
        collections.add("root/a/X".to_string(), doc("z.md"), "root"),
        Placement::NameTaken { .. }
    ));
    let x = collections.get("X").unwrap();
    assert_eq!("root/X", x.relative_path);
    assert_eq!(vec!["doc.md"], names_of(&collections, "X"));
}

#[test]
fn a_directory_without_a_name_takes_no_document() {
    let mut collections = Collections::new();
    for dir in ["", "/", ".."] {
        assert!(matches!(
            collections.add(dir.to_string(), doc("one.md"), "root"),
            Placement::NoDirectory
        ));
    }
    assert_eq!(0, collections.len());
}
