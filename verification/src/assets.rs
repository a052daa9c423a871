//! Static assets: the plan that mirrors a directory tree into the output
//! tree.

use crate::io::{FsEntry, FsNode};
use crate::paths::{base_name, file_name, join, join_path};
use vstd::prelude::*;

verus! {

/// One step of a copy, to be carried out in the order given.
#[derive(Debug)]
pub enum CopyAction {
    /// Make sure that the directory exists.
    CreateDir { path: String },
    /// Copy the file `from` to `to`.
    CopyFile { from: String, to: String },
}

/// What a `CopyAction` stands for.
pub enum CopyActionView {
    CreateDir { path: Seq<char> },
    CopyFile { from: Seq<char>, to: Seq<char> },
}

impl View for CopyAction {
    type V = CopyActionView;

    open spec fn view(&self) -> CopyActionView {
        match self {
            CopyAction::CreateDir { path } => CopyActionView::CreateDir { path: path@ },
            CopyAction::CopyFile { from, to } => CopyActionView::CopyFile { from: from@, to: to@ },
        }
    }
}

/// Why a copy cannot go on.
#[derive(Clone, Copy, Debug, PartialEq, Eq, Structural)]
pub enum CopyError {
    /// What was to be listed is no directory, or could not be listed.
    Unreadable,
    /// An entry has no file name.
    NoFileName,
}

impl CopyError {
    /// The sentence that tells a person of the error.
    pub open spec fn text(self) -> Seq<char> {
        match self {
            CopyError::Unreadable => "could not read the folder"@,
            CopyError::NoFileName => "could not get the file name"@,
        }
    }

    /// A sentence for the person at the terminal.
    pub fn message(&self) -> (r: String)
        ensures
            r@ == self.text(),
    {
        match self {
            CopyError::Unreadable => "could not read the folder".to_owned(),
            CopyError::NoFileName => "could not get the file name".to_owned(),
        }
    }
}

/// The steps of a copy up to where it has to stop, and why it has to stop
/// there, if it has to.
#[derive(Debug)]
pub struct CopyPlan {
    pub actions: Vec<CopyAction>,
    pub error: Option<CopyError>,
}

/// What a `CopyPlan` stands for.
pub struct CopyPlanView {
    pub actions: Seq<CopyActionView>,
    pub error: Option<CopyError>,
}

impl View for CopyPlan {
    type V = CopyPlanView;

    open spec fn view(&self) -> CopyPlanView {
        CopyPlanView {
            actions: self.actions@.map_values(|a: CopyAction| a@),
            error: self.error,
        }
    }
}

/// The plan that takes the given steps and goes on.
pub open spec fn steps(actions: Seq<CopyActionView>) -> CopyPlanView {
    CopyPlanView { actions: actions, error: None }
}

/// The plan that stops at once.
pub open spec fn stop(error: CopyError) -> CopyPlanView {
    CopyPlanView { actions: Seq::empty(), error: Some(error) }
}

/// One plan after another: where the first stops, the second is not begun.
pub open spec fn then(first: CopyPlanView, second: CopyPlanView) -> CopyPlanView {
    if first.error is Some {
        first
    } else {
        CopyPlanView { actions: first.actions + second.actions, error: second.error }
    }
}

/// The copy of one entry that is no directory into the directory `dest`,
/// under its own name. A directory is not copied here.
pub open spec fn copy_file(entry: FsEntry, dest: Seq<char>) -> CopyPlanView {
    if entry.node is Directory {
        steps(Seq::empty())
    } else {
        match file_name(entry.path@) {
            Some(name) => steps(
                seq![CopyActionView::CopyFile { from: entry.path@, to: join(dest, name) }],
            ),
            None => stop(CopyError::NoFileName),
        }
    }
}

/// The copies of the entries that are no directories, in listing order.
pub open spec fn copy_files(entries: Seq<FsEntry>, dest: Seq<char>) -> CopyPlanView
    decreases entries.len(),
{
    if entries.len() == 0 {
        steps(Seq::empty())
    } else {
        then(copy_files(entries.drop_last(), dest), copy_file(entries.last(), dest))
    }
}

/// The copy of one entry that is a directory into the directory `dest`: the
/// directory of its own name there, then what it holds. Another entry is not
/// copied here.
pub open spec fn copy_subdir(entry: FsEntry, dest: Seq<char>) -> CopyPlanView
    decreases entry, 2int,
{
    match entry.node {
        FsNode::Directory { entries } => match file_name(entry.path@) {
            None => stop(CopyError::NoFileName),
            Some(name) => then(
                steps(seq![CopyActionView::CreateDir { path: join(dest, name) }]),
                match entries {
                    Some(listing) => copy_listing(listing@, join(dest, name)),
                    None => stop(CopyError::Unreadable),
                },
            ),
        },
        _ => steps(Seq::empty()),
    }
}

/// The copies of the entries that are directories, the last listed first.
pub open spec fn copy_subdirs(entries: Seq<FsEntry>, dest: Seq<char>) -> CopyPlanView
    decreases entries, 0int,
{
    if entries.len() == 0 {
        steps(Seq::empty())
    } else {
        then(copy_subdir(entries.last(), dest), copy_subdirs(entries.drop_last(), dest))
    }
}

/// The copy of a listing into the directory `dest`: first the files, then
/// the directories with all that they hold.
pub open spec fn copy_listing(entries: Seq<FsEntry>, dest: Seq<char>) -> CopyPlanView
    decreases entries, 1int,
{
    then(copy_files(entries, dest), copy_subdirs(entries, dest))
}

/// The copy of the tree below `from` into the directory `to`: the directory
/// `to` itself, then the listing of `from`. The copy stops at the first
/// directory that could not be listed and at the first entry without a file
/// name.
pub open spec fn copy_tree(from: FsEntry, to: Seq<char>) -> CopyPlanView {
    then(
        steps(seq![CopyActionView::CreateDir { path: to }]),
        match from.node {
            FsNode::Directory { entries: Some(listing) } => copy_listing(listing@, to),
            _ => stop(CopyError::Unreadable),
        },
    )
}

/// Adds the steps of `second` to `first`, unless `first` has stopped.
fn append(first: &mut CopyPlan, second: CopyPlan)
    ensures
        final(first)@ == then(old(first)@, second@),
{
    if first.error.is_none() {
        let ghost before = first.actions@;
        let CopyPlan { actions, error } = second;
        let mut actions = actions;
        let ghost added = actions@;
        first.actions.append(&mut actions);
        first.error = error;
        assert(first.actions@.map_values(|a: CopyAction| a@) =~= before.map_values(
            |a: CopyAction| a@,
        ) + added.map_values(|a: CopyAction| a@));
    }
}

/// The plan of one step.
fn single(action: CopyAction) -> (plan: CopyPlan)
    ensures
        plan@ == steps(seq![action@]),
{
    let mut actions: Vec<CopyAction> = Vec::new();
    actions.push(action);
    let plan = CopyPlan { actions, error: None };
    assert(plan@.actions =~= seq![action@]);
    plan
}

/// The plan without steps.
fn nothing() -> (plan: CopyPlan)
    ensures
        plan@ == steps(Seq::empty()),
{
    let plan = CopyPlan { actions: Vec::new(), error: None };
    assert(plan@.actions =~= Seq::empty());
    plan
}

/// The plan that stops at once.
fn stopped(error: CopyError) -> (plan: CopyPlan)
    ensures
        plan@ == stop(error),
{
    let plan = CopyPlan { actions: Vec::new(), error: Some(error) };
    assert(plan@.actions =~= Seq::empty());
    plan
}

/// Plans the copy of a listing into the directory `dest`.
fn plan_listing(entries: &Vec<FsEntry>, dest: &str) -> (plan: CopyPlan)
    ensures
        plan@ == copy_listing(entries@, dest@),
    decreases entries,
{
    let mut plan = nothing();
    let mut i: usize = 0;
    assert(entries@.take(0) =~= Seq::empty());
    while i < entries.len()
        invariant
            i <= entries.len(),
            plan@ == copy_files(entries@.take(i as int), dest@),
        decreases entries.len() - i,
    {
        assert(entries@.take(i + 1).drop_last() =~= entries@.take(i as int));
        let entry = &entries[i];
        let step = match &entry.node {
            FsNode::Directory { .. } => nothing(),
            _ => match base_name(entry.path.as_str()) {
                Some(name) => single(
                    CopyAction::CopyFile {
                        from: entry.path.clone(),
                        to: join_path(dest, name.as_str()),
                    },
                ),
                None => stopped(CopyError::NoFileName),
            },
        };
        append(&mut plan, step);
        i = i + 1;
    }
    assert(entries@.take(entries@.len() as int) =~= entries@);
    let mut dirs = nothing();
    let mut k: usize = entries.len();
    assert(entries@.skip(entries@.len() as int) =~= Seq::empty());
    assert(then(copy_subdirs(Seq::empty(), dest@), dirs@) == copy_subdirs(Seq::empty(), dest@));
    while k > 0
        invariant
            k <= entries.len(),
            copy_subdirs(entries@, dest@) == then(dirs@, copy_subdirs(entries@.take(k as int), dest@)),
        decreases k,
    {
        let entry = &entries[k - 1];
        let ghost before = dirs@;
        let step = match &entry.node {
            FsNode::Directory { entries: listing } => match base_name(entry.path.as_str()) {
                None => stopped(CopyError::NoFileName),
                Some(name) => {
                    let inner = join_path(dest, name.as_str());
                    let mut step = single(CopyAction::CreateDir { path: inner.clone() });
                    match listing {
                        Some(sub) => append(&mut step, plan_listing(sub, inner.as_str())),
                        None => append(&mut step, stopped(CopyError::Unreadable)),
                    }
                    step
                },
            },
            _ => nothing(),
        };
        assert(step@ == copy_subdir(*entry, dest@));
        append(&mut dirs, step);
        proof {
            let shorter = entries@.take(k as int);
            assert(shorter.last() == entries@[k - 1]);
            assert(shorter.drop_last() =~= entries@.take(k - 1));
            let rest = copy_subdirs(entries@.take(k - 1), dest@);
            assert(then(before, then(step@, rest)).actions =~= then(then(before, step@), rest).actions);
        }
        k = k - 1;
    }
    assert(entries@.take(0) =~= Seq::empty());
    assert(then(dirs@, steps(Seq::empty())).actions =~= dirs@.actions);
    append(&mut plan, dirs);
    plan
}

/// Plans the copy of the tree below `from` into the directory `to`.
pub fn copy_dir(from: &FsEntry, to: &str) -> (plan: CopyPlan)
    ensures
        plan@ == copy_tree(*from, to@),
{
    let mut plan = single(CopyAction::CreateDir { path: to.to_owned() });
    match &from.node {
        FsNode::Directory { entries: Some(listing) } => append(&mut plan, plan_listing(listing, to)),
        _ => append(&mut plan, stopped(CopyError::Unreadable)),
    }
    plan
}

} // verus!
