//! The decisions of the command-line program: what to build, what to watch,
//! and how a pass ended.

use crate::config::Configuration;
use crate::template::Website;
use crate::text::strings_view;
use crate::watch::FolderModified;
use vstd::prelude::*;

verus! {

/// What the user asked for.
#[derive(Debug)]
pub struct Args {
    pub template_folder: String,
    pub markdown_folder: Option<String>,
    pub static_resources: Option<String>,
    pub template_variables: Option<String>,
    pub output_folder: String,
    pub watch: bool,
    pub serve: Option<u16>,
}

/// What the program does once the first build is through.
#[derive(Clone, Copy, Debug, PartialEq, Eq, Structural)]
pub enum RunMode {
    /// Nothing more.
    BuildOnce,
    /// Rebuild on changes.
    Watch,
    /// Serve the output on the port and rebuild on changes.
    Serve { port: u16 },
}

/// A root to subscribe to, and what a change under it is reported as.
#[derive(Debug)]
pub struct WatchTarget {
    pub path: String,
    pub folder: FolderModified,
}

/// What a `WatchTarget` stands for.
pub struct WatchTargetView {
    pub path: Seq<char>,
    pub folder: FolderModified,
}

impl View for WatchTarget {
    type V = WatchTargetView;

    open spec fn view(&self) -> WatchTargetView {
        WatchTargetView { path: self.path@, folder: self.folder }
    }
}

/// The views of a sequence of targets, in order.
pub open spec fn targets_view(targets: Seq<WatchTarget>) -> Seq<WatchTargetView> {
    targets.map_values(|t: WatchTarget| t@)
}

/// The target for an optional root, or none.
pub open spec fn optional_target(path: Option<String>, folder: FolderModified) -> Seq<
    WatchTargetView,
> {
    match path {
        Some(p) => seq![WatchTargetView { path: p@, folder: folder }],
        None => Seq::empty(),
    }
}

/// The roots to watch: the templates always, then the content, the template
/// variables and the static assets, each if the user named it.
pub open spec fn watch_targets_spec(args: Args) -> Seq<WatchTargetView> {
    seq![WatchTargetView { path: args.template_folder@, folder: FolderModified::TemplatesFolder }]
        + optional_target(args.markdown_folder, FolderModified::MarkdownFolder) + optional_target(
        args.template_variables,
        FolderModified::TemplateVariables,
    ) + optional_target(args.static_resources, FolderModified::StaticFolder)
}

/// How one render ended: the name of the file it wrote, or why it failed.
pub type Outcome = Result<String, String>;

/// An outcome seen as text.
pub open spec fn outcome_view(outcome: Outcome) -> Result<Seq<char>, Seq<char>> {
    match outcome {
        Ok(file) => Ok(file@),
        Err(reason) => Err(reason@),
    }
}

/// The files of the outcomes that went well, in order.
pub open spec fn processed_spec(outcomes: Seq<Outcome>) -> Seq<Seq<char>>
    decreases outcomes.len(),
{
    if outcomes.len() == 0 {
        Seq::empty()
    } else {
        match outcomes.last() {
            Ok(file) => processed_spec(outcomes.drop_last()).push(file@),
            Err(_) => processed_spec(outcomes.drop_last()),
        }
    }
}

/// The reasons of the outcomes that failed, in order.
pub open spec fn failures_spec(outcomes: Seq<Outcome>) -> Seq<Seq<char>>
    decreases outcomes.len(),
{
    if outcomes.len() == 0 {
        Seq::empty()
    } else {
        match outcomes.last() {
            Ok(_) => failures_spec(outcomes.drop_last()),
            Err(reason) => failures_spec(outcomes.drop_last()).push(reason@),
        }
    }
}

/// Every outcome is counted once: as a file that was written or as a
/// failure.
pub proof fn lemma_every_outcome_counts(outcomes: Seq<Outcome>)
    ensures
        processed_spec(outcomes).len() + failures_spec(outcomes).len() == outcomes.len(),
    decreases outcomes.len(),
{
    if outcomes.len() > 0 {
        lemma_every_outcome_counts(outcomes.drop_last());
    }
}

/// The files of outcomes that all went well, one per outcome.
pub proof fn lemma_all_processed(outcomes: Seq<Outcome>)
    requires
        forall|i: int| 0 <= i < outcomes.len() ==> outcomes[i] is Ok,
    ensures
        failures_spec(outcomes).len() == 0,
        processed_spec(outcomes).len() == outcomes.len(),
        forall|i: int|
            0 <= i < outcomes.len() ==> #[trigger] processed_spec(outcomes)[i]
                == outcomes[i]->Ok_0@,
    decreases outcomes.len(),
{
    if outcomes.len() > 0 {
        let rest = outcomes.drop_last();
        assert forall|i: int| 0 <= i < rest.len() implies rest[i] is Ok by {
            assert(rest[i] == outcomes[i]);
        }
        lemma_all_processed(rest);
    }
}

/// Where exactly one of M renders fails, the other M - 1 files are reported
/// as written, in order, and the pass is reported as failed.
pub proof fn lemma_one_failure_is_isolated(outcomes: Seq<Outcome>, k: int)
    requires
        0 <= k < outcomes.len(),
        outcomes[k] is Err,
        forall|i: int| 0 <= i < outcomes.len() && i != k ==> outcomes[i] is Ok,
    ensures
        failures_spec(outcomes) == seq![outcomes[k]->Err_0@],
        processed_spec(outcomes).len() == outcomes.len() - 1,
        processed_spec(outcomes) == processed_spec(outcomes.remove(k)),
        forall|i: int|
            0 <= i < outcomes.len() - 1 ==> #[trigger] processed_spec(outcomes)[i]
                == outcomes.remove(k)[i]->Ok_0@,
    decreases outcomes.len(),
{
    let rest = outcomes.drop_last();
    if k == outcomes.len() - 1 {
        assert(outcomes.remove(k) =~= rest);
        assert forall|i: int| 0 <= i < rest.len() implies rest[i] is Ok by {
            assert(rest[i] == outcomes[i]);
        }
        lemma_all_processed(rest);
        assert(failures_spec(outcomes) =~= seq![outcomes[k]->Err_0@]);
    } else {
        assert(rest[k] == outcomes[k]);
        assert forall|i: int| 0 <= i < rest.len() && i != k implies rest[i] is Ok by {
            assert(rest[i] == outcomes[i]);
        }
        lemma_one_failure_is_isolated(rest, k);
        assert(outcomes.remove(k).drop_last() =~= rest.remove(k));
        assert(outcomes.remove(k).last() == outcomes.last());
        assert forall|i: int| 0 <= i < outcomes.remove(k).len() implies outcomes.remove(k)[i] is Ok by {
            if i < k {
                assert(outcomes.remove(k)[i] == outcomes[i]);
            } else {
                assert(outcomes.remove(k)[i] == outcomes[i + 1]);
            }
        }
        lemma_all_processed(outcomes.remove(k));
    }
}

/// How a pass ended, once every render has reported.
#[derive(Debug)]
pub struct BuildReport {
    /// The files that were written.
    pub processed: Vec<String>,
    /// Why the others were not.
    pub failures: Vec<String>,
}

impl BuildReport {
    /// Whether any render failed.
    pub fn failed(&self) -> (r: bool)
        ensures
            r == (self.failures@.len() > 0),
    {
        self.failures.len() > 0
    }

    /// The status that the program ends with.
    pub fn exit_code(&self) -> (code: i32)
        ensures
            code == if self.failures@.len() > 0 {
                1i32
            } else {
                0i32
            },
    {
        if self.failed() {
            1
        } else {
            0
        }
    }
}

/// The status that the first build ends with: 1 where a render failed or the
/// static assets could not be copied, else 0.
pub open spec fn first_build_status_spec(failures: nat, static_copy_failed: bool) -> i32 {
    if failures > 0 || static_copy_failed {
        1i32
    } else {
        0i32
    }
}

/// The status that the first build ends with, once every render has reported
/// and the static assets were copied or could not be.
pub fn first_build_status(report: &BuildReport, static_copy_failed: bool) -> (code: i32)
    ensures
        code == first_build_status_spec(report.failures@.len(), static_copy_failed),
{
    if report.failed() || static_copy_failed {
        1
    } else {
        0
    }
}

/// The command-line program.
#[derive(Debug)]
pub struct App {
    args: Args,
}

impl App {
    /// What the user asked for.
    pub closed spec fn arguments(&self) -> Args {
        self.args
    }

    /// The program for the given arguments.
    pub fn new(args: Args) -> (app: App)
        ensures
            app.arguments() == args,
    {
        App { args }
    }

    /// What the user asked for.
    pub fn args(&self) -> (r: &Args)
        ensures
            *r == self.arguments(),
    {
        &self.args
    }

    /// What the program does after the first build: with a port it serves
    /// and watches, whether or not watching was asked for; else it watches
    /// if asked to.
    pub fn run_mode(&self) -> (mode: RunMode)
        ensures
            mode == match self.arguments().serve {
                Some(port) => RunMode::Serve { port },
                None => if self.arguments().watch {
                    RunMode::Watch
                } else {
                    RunMode::BuildOnce
                },
            },
    {
        match self.args.serve {
            Some(port) => RunMode::Serve { port },
            None => if self.args.watch {
                RunMode::Watch
            } else {
                RunMode::BuildOnce
            },
        }
    }

    /// The site that the arguments describe, with the settings that were
    /// read for it.
    pub fn build_website(&self, configuration: Option<Configuration>) -> (site: Website)
        ensures
            site.template_root() == self.arguments().template_folder@,
            site.content_root() == match self.arguments().markdown_folder {
                Some(folder) => Some(folder@),
                None => None,
            },
            site.settings() == match configuration {
                Some(c) => Some(c@),
                None => None,
            },
            site.cached_collections() is None,
            site.cached_state() is None,
            site.cached_builder() is None,
            site.skipped_documents().len() == 0,
    {
        let markdown_folder = match &self.args.markdown_folder {
            Some(folder) => Some(folder.clone()),
            None => None,
        };
        Website::new(configuration, self.args.template_folder.clone(), markdown_folder)
    }

    /// The roots to subscribe to.
    pub fn watch_website_files(&self) -> (targets: Vec<WatchTarget>)
        ensures
            targets_view(targets@) == watch_targets_spec(self.arguments()),
    {
        let mut targets: Vec<WatchTarget> = Vec::new();
        targets.push(
            WatchTarget {
                path: self.args.template_folder.clone(),
                folder: FolderModified::TemplatesFolder,
            },
        );
        if let Some(markdown_folder) = &self.args.markdown_folder {
            targets.push(
                WatchTarget { path: markdown_folder.clone(), folder: FolderModified::MarkdownFolder },
            );
        }
        if let Some(template_var) = &self.args.template_variables {
            targets.push(
                WatchTarget { path: template_var.clone(), folder: FolderModified::TemplateVariables },
            );
        }
        if let Some(static_resources) = &self.args.static_resources {
            targets.push(
                WatchTarget { path: static_resources.clone(), folder: FolderModified::StaticFolder },
            );
        }
        assert(targets_view(targets@) =~= watch_targets_spec(self.args));
        targets
    }

    /// Sorts the outcomes of a pass into what was written and what failed.
    /// Every outcome is looked at: a failure never hides a later success.
    pub fn process_website_files(outcomes: Vec<Outcome>) -> (report: BuildReport)
        ensures
            strings_view(report.processed@) == processed_spec(outcomes@),
            strings_view(report.failures@) == failures_spec(outcomes@),
    {
        let mut processed: Vec<String> = Vec::new();
        let mut failures: Vec<String> = Vec::new();
        let mut i: usize = 0;
        assert(outcomes@.take(0) =~= Seq::empty());
        assert(strings_view(processed@) =~= Seq::empty());
        assert(strings_view(failures@) =~= Seq::empty());
        while i < outcomes.len()
            invariant
                i <= outcomes.len(),
                strings_view(processed@) == processed_spec(outcomes@.take(i as int)),
                strings_view(failures@) == failures_spec(outcomes@.take(i as int)),
            decreases outcomes.len() - i,
        {
            assert(outcomes@.take(i + 1).drop_last() =~= outcomes@.take(i as int));
            let ghost p = processed@;
            let ghost f = failures@;
            match &outcomes[i] {
                Ok(file) => {
                    processed.push(file.clone());
                    assert(strings_view(processed@) =~= strings_view(p).push(file@));
                },
                Err(reason) => {
                    failures.push(reason.clone());
                    assert(strings_view(failures@) =~= strings_view(f).push(reason@));
                },
            }
            i = i + 1;
        }
        assert(outcomes@.take(outcomes@.len() as int) =~= outcomes@);
        BuildReport { processed, failures }
    }
}

} // verus!
