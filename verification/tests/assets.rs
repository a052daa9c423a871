use squid::assets::{copy_dir, CopyAction, CopyError};
use squid::io::{FsEntry, FsNode};

fn file(path: &str) -> FsEntry {
    FsEntry {
        path: path.to_string(),
        node: FsNode::File { contents: None },
    }
}

fn directory(path: &str, entries: Vec<FsEntry>) -> FsEntry {
    FsEntry {
        path: path.to_string(),
        node: FsNode::Directory {
            entries: Some(entries),
        },
    }
}

fn outline(actions: &[CopyAction]) -> Vec<String> {
    actions
        .iter()
        .map(|a| match a {
            CopyAction::CreateDir { path } => format!("dir {}", path),
            CopyAction::CopyFile { from, to } => format!("copy {} to {}", from, to),
        })
        .collect()
}

#[test]
fn copy_mirrors_the_tree() {
    let tree = directory(
        "static",
        vec![
            directory(
                "static/css",
                vec![
                    file("static/css/site.css"),
                    directory("static/css/fonts", vec![file("static/css/fonts/a.woff")]),
                ],
            ),
            file("static/logo.png"),
            directory("static/js", vec![file("static/js/app.js")]),
            FsEntry {
                path: "static/link".to_string(),
                node: FsNode::Other,
            },
        ],
    );
    let plan = copy_dir(&tree, "out");
    assert_eq!(None, plan.error);
    assert_eq!(
        vec![
            "dir out",
            "copy static/logo.png to out/logo.png",
            "copy static/link to out/link",
            "dir out/js",
            "copy static/js/app.js to out/js/app.js",
            "dir out/css",
            "copy static/css/site.css to out/css/site.css",
            "dir out/css/fonts",
            "copy static/css/fonts/a.woff to out/css/fonts/a.woff",
        ],
        outline(&plan.actions)
    );
}

#[test]
fn copy_of_an_empty_directory_makes_the_destination() {
    let plan = copy_dir(&directory("static", vec![]), "out");
    assert_eq!(None, plan.error);
    assert_eq!(vec!["dir out"], outline(&plan.actions));
}

#[test]
fn copy_stops_at_a_directory_that_cannot_be_listed() {
    let tree = directory(
        "static",
        vec![
            directory("static/first", vec![file("static/first/a.txt")]),
            FsEntry {
                path: "static/locked".to_string(),
                node: FsNode::Directory { entries: None },
            },
            file("static/top.txt"),
        ],
    );
    let plan = copy_dir(&tree, "out");
    assert_eq!(Some(CopyError::Unreadable), plan.error);
    assert_eq!(
        vec![
            "dir out",
            "copy static/top.txt to out/top.txt",
            "dir out/locked",
        ],
        outline(&plan.actions)
    );
}

#[test]
fn copy_of_what_is_no_directory_fails() {
    let plan = copy_dir(&file("static"), "out");
    assert_eq!(Some(CopyError::Unreadable), plan.error);
    assert_eq!(vec!["dir out"], outline(&plan.actions));
}

#[test]
fn copy_stops_at_an_entry_without_a_name() {
    let tree = directory("static", vec![file("static/a.txt"), file("static/..")]);
    let plan = copy_dir(&tree, "out");
    assert_eq!(Some(CopyError::NoFileName), plan.error);
    assert_eq!(
        vec!["dir out", "copy static/a.txt to out/a.txt"],
        outline(&plan.actions)
    );
}
