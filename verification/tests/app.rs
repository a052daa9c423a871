use squid::app::{first_build_status, App, Args, RunMode};
use squid::watch::{reaction, FolderModified, Reaction, WatchCoordinator, WatchEvent, WatchState};

fn args() -> Args {
    Args {
        template_folder: "templates".to_string(),
        markdown_folder: None,
        static_resources: None,
        template_variables: None,
        output_folder: "out".to_string(),
        watch: false,
        serve: None,
    }
}

#[test]
fn run_mode_follows_the_flags() {
    assert_eq!(RunMode::BuildOnce, App::new(args()).run_mode());
    assert_eq!(
        RunMode::Watch,
        App::new(Args {
            watch: true,
            ..args()
        })
        .run_mode()
    );
    assert_eq!(
        RunMode::Serve { port: 8181 },
        App::new(Args {
            serve: Some(8181),
            ..args()
        })
        .run_mode()
    );
    assert_eq!(
        RunMode::Serve { port: 80 },
        App::new(Args {
            serve: Some(80),
            watch: true,
            ..args()
        })
        .run_mode()
    );
}

#[test]
fn templates_are_always_watched() {
    let targets = App::new(args()).watch_website_files();
    assert_eq!(1, targets.len());
    assert_eq!("templates", targets[0].path);
    assert_eq!(FolderModified::TemplatesFolder, targets[0].folder);
}

#[test]
fn every_named_root_is_watched() {
    let app = App::new(Args {
        markdown_folder: Some("markdown".to_string()),
        static_resources: Some("static".to_string()),
        template_variables: Some("config.toml".to_string()),
        ..args()
    });
    let targets: Vec<(String, FolderModified)> = app
        .watch_website_files()
        .into_iter()
        .map(|t| (t.path, t.folder))
        .collect();
    assert_eq!(
        vec![
            ("templates".to_string(), FolderModified::TemplatesFolder),
            ("markdown".to_string(), FolderModified::MarkdownFolder),
            ("config.toml".to_string(), FolderModified::TemplateVariables),
            ("static".to_string(), FolderModified::StaticFolder),
        ],
        targets
    );
    assert_eq!("out", app.args().output_folder);
}

#[test]
fn outcomes_are_sorted_into_written_and_failed() {
    let report = App::process_website_files(vec![
        Ok("a.html".to_string()),
        Err("task failed".to_string()),
        Ok("b.html".to_string()),
    ]);
    assert_eq!(vec!["a.html", "b.html"], report.processed);
    assert_eq!(vec!["task failed"], report.failures);
    assert!(report.failed());
    assert_eq!(1, report.exit_code());
}

#[test]
fn one_failure_among_many_leaves_the_others_written() {
    let mut outcomes = Vec::new();
    for i in 0..7 {
        if i == 4 {
            outcomes.push(Err("evaluation failed".to_string()));
        } else {
            outcomes.push(Ok(format!("page{}.html", i)));
        }
    }
    let report = App::process_website_files(outcomes);
    assert_eq!(6, report.processed.len());
    assert_eq!(1, report.failures.len());
    assert!(report.failed());
}

#[test]
fn a_pass_without_failures_succeeds() {
    let report = App::process_website_files(vec![Ok("a.html".to_string())]);
    assert!(!report.failed());
    assert_eq!(0, report.exit_code());
    let empty = App::process_website_files(vec![]);
    assert!(!empty.failed());
    assert!(empty.processed.is_empty());
}

#[test]
fn each_root_has_its_reaction() {
    assert_eq!(Reaction::CopyStatic, reaction(FolderModified::StaticFolder));
    assert_eq!(
        Reaction::CompileTemplates,
        reaction(FolderModified::MarkdownFolder)
    );
    assert_eq!(
        Reaction::BuildFromScratch,
        reaction(FolderModified::TemplatesFolder)
    );
    assert_eq!(
        Reaction::BuildFromScratch,
        reaction(FolderModified::TemplateVariables)
    );
}

#[test]
fn coordinator_goes_back_to_watching_after_every_reaction() {
    let mut coordinator = WatchCoordinator::new();
    assert_eq!(WatchState::Idle, coordinator.state());
    assert_eq!(None, coordinator.handle(WatchEvent::Started));
    assert_eq!(WatchState::Watching, coordinator.state());
    assert_eq!(
        Some(Reaction::BuildFromScratch),
        coordinator.handle(WatchEvent::Changed(FolderModified::TemplatesFolder))
    );
    assert_eq!(WatchState::Rebuilding, coordinator.state());
    assert_eq!(
        None,
        coordinator.handle(WatchEvent::Finished { succeeded: false })
    );
    assert_eq!(WatchState::Watching, coordinator.state());
    assert_eq!(
        Some(Reaction::CopyStatic),
        coordinator.handle(WatchEvent::Changed(FolderModified::StaticFolder))
    );
    assert_eq!(
        None,
        coordinator.handle(WatchEvent::Finished { succeeded: true })
    );
    assert_eq!(WatchState::Watching, coordinator.state());
}

#[test]
fn coordinator_ignores_what_it_does_not_expect() {
    let mut coordinator = WatchCoordinator::new();
    assert_eq!(
        None,
        coordinator.handle(WatchEvent::Changed(FolderModified::StaticFolder))
    );
    assert_eq!(WatchState::Idle, coordinator.state());
    assert_eq!(
        None,
        coordinator.handle(WatchEvent::Finished { succeeded: true })
    );
    assert_eq!(WatchState::Idle, coordinator.state());
    coordinator.handle(WatchEvent::Started);
    assert_eq!(None, coordinator.handle(WatchEvent::Started));
    assert_eq!(
        None,
        coordinator.handle(WatchEvent::Finished { succeeded: true })
    );
    assert_eq!(WatchState::Watching, coordinator.state());
    coordinator.handle(WatchEvent::Changed(FolderModified::MarkdownFolder));
    assert_eq!(
        None,
        coordinator.handle(WatchEvent::Changed(FolderModified::MarkdownFolder))
    );
    assert_eq!(WatchState::Rebuilding, coordinator.state());
}

#[test]
fn first_build_fails_on_a_failed_render_or_a_failed_static_copy() {
    let clean = App::process_website_files(vec![Ok("a.html".to_string())]);
    let broken = App::process_website_files(vec![
        Ok("a.html".to_string()),
        Err("task failed".to_string()),
    ]);
    assert_eq!(0, first_build_status(&clean, false));
    assert_eq!(1, first_build_status(&clean, true));
    assert_eq!(1, first_build_status(&broken, false));
    assert_eq!(1, first_build_status(&broken, true));
    let nothing = App::process_website_files(vec![]);
    assert_eq!(0, first_build_status(&nothing, false));
    assert_eq!(1, first_build_status(&nothing, true));
}
