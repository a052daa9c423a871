//! Content discovery over a snapshot of a directory tree, and the loading of
//! the files it finds.
//!
//! The caller takes the snapshot: it lists a directory and classifies each
//! entry. It may read the files at once and put their text into the
//! snapshot, or read each file when the reader hands out its path.
//! Everything else happens here.

use crate::paths::{base_name, extension_is, file_name, has_extension};
use vstd::prelude::*;

verus! {

/// What a directory entry turned out to be.
#[derive(Debug)]
pub enum FsNode {
    /// A regular file, with its text unless it was not read or could not
    /// be.
    File { contents: Option<String> },
    /// A directory, with its entries unless it could not be listed.
    Directory { entries: Option<Vec<FsEntry>> },
    /// Neither, or an entry that vanished before it could be classified.
    Other,
}

/// One entry of a directory tree, by its full path.
#[derive(Debug)]
pub struct FsEntry {
    pub path: String,
    pub node: FsNode,
}

/// A file that a scan found.
#[derive(Debug)]
pub struct ScannedFile {
    pub path: String,
    pub contents: Option<String>,
}

/// What a `ScannedFile` stands for.
pub struct ScannedFileView {
    pub path: Seq<char>,
    pub contents: Option<Seq<char>>,
}

impl View for ScannedFile {
    type V = ScannedFileView;

    open spec fn view(&self) -> ScannedFileView {
        ScannedFileView {
            path: self.path@,
            contents: match self.contents {
                Some(text) => Some(text@),
                None => None,
            },
        }
    }
}

/// The views of a sequence of scanned files, in order.
pub open spec fn files_view(files: Seq<ScannedFile>) -> Seq<ScannedFileView> {
    files.map_values(|f: ScannedFile| f@)
}

/// A file entry as a scanned file.
pub open spec fn scanned(entry: FsEntry) -> ScannedFileView {
    ScannedFileView {
        path: entry.path@,
        contents: match entry.node {
            FsNode::File { contents: Some(text) } => Some(text@),
            _ => None,
        },
    }
}

/// Whether an entry is a file with the extension `ext`.
pub open spec fn is_match(entry: FsEntry, ext: Seq<char>) -> bool {
    entry.node is File && has_extension(entry.path@, ext)
}

/// The files with extension `ext` that are direct entries, in listing order.
pub open spec fn direct_files(entries: Seq<FsEntry>, ext: Seq<char>) -> Seq<ScannedFileView>
    decreases entries.len(),
{
    if entries.len() == 0 {
        Seq::empty()
    } else if is_match(entries.last(), ext) {
        direct_files(entries.drop_last(), ext).push(scanned(entries.last()))
    } else {
        direct_files(entries.drop_last(), ext)
    }
}

/// What a scan of one entry's subdirectory adds: the scan of its listing when
/// the entry is a directory that could be listed, else nothing.
pub open spec fn below(entry: FsEntry, ext: Seq<char>) -> Seq<ScannedFileView>
    decreases entry, 2int,
{
    match entry.node {
        FsNode::Directory { entries: Some(sub) } => scan_spec(sub@, ext),
        _ => Seq::empty(),
    }
}

/// The files with extension `ext` below the subdirectories among `entries`,
/// subdirectory by subdirectory in listing order.
pub open spec fn nested_files(entries: Seq<FsEntry>, ext: Seq<char>) -> Seq<ScannedFileView>
    decreases entries, 0int,
{
    if entries.len() == 0 {
        Seq::empty()
    } else {
        nested_files(entries.drop_last(), ext) + below(entries.last(), ext)
    }
}

/// Every file with extension `ext` at any depth below a listing: first the
/// direct entries, then what lies below each subdirectory. Directories that
/// could not be listed and entries that are neither file nor directory add
/// nothing.
pub open spec fn scan_spec(entries: Seq<FsEntry>, ext: Seq<char>) -> Seq<ScannedFileView>
    decreases entries, 1int,
{
    direct_files(entries, ext) + nested_files(entries, ext)
}

/// The entry that a route leads to. The first index of the route picks an
/// entry of the listing; each further index picks an entry of the directory
/// reached so far, which must be one that could be listed.
pub open spec fn entry_at(entries: Seq<FsEntry>, route: Seq<int>) -> Option<FsEntry>
    decreases route.len(),
{
    if route.len() == 0 || !(0 <= route[0] < entries.len()) {
        None
    } else if route.len() == 1 {
        Some(entries[route[0]])
    } else {
        match entries[route[0]].node {
            FsNode::Directory { entries: Some(sub) } => entry_at(sub@, route.drop_first()),
            _ => None,
        }
    }
}

/// Whether a route leads to a file with extension `ext` that scans as `file`.
pub open spec fn leads_to(
    entries: Seq<FsEntry>,
    route: Seq<int>,
    ext: Seq<char>,
    file: ScannedFileView,
) -> bool {
    match entry_at(entries, route) {
        Some(entry) => is_match(entry, ext) && scanned(entry) == file,
        None => false,
    }
}

/// Whether the tree below a listing holds, at some depth, a file with
/// extension `ext` that scans as `file`.
pub open spec fn holds_file(entries: Seq<FsEntry>, ext: Seq<char>, file: ScannedFileView) -> bool {
    exists|route: Seq<int>| leads_to(entries, route, ext, file)
}

/// A direct file is the scan of a matching entry.
proof fn lemma_direct_file_index(entries: Seq<FsEntry>, ext: Seq<char>, file: ScannedFileView) -> (k:
    int)
    requires
        direct_files(entries, ext).contains(file),
    ensures
        0 <= k < entries.len(),
        is_match(entries[k], ext),
        scanned(entries[k]) == file,
    decreases entries.len(),
{
    if entries.len() == 0 {
        0
    } else {
        let rest = direct_files(entries.drop_last(), ext);
        if is_match(entries.last(), ext) && scanned(entries.last()) == file {
            entries.len() - 1
        } else {
            if is_match(entries.last(), ext) {
                let i = choose|i: int|
                    0 <= i < rest.push(scanned(entries.last())).len() && rest.push(
                        scanned(entries.last()),
                    )[i] == file;
                assert(rest[i] == file);
            }
            let k = lemma_direct_file_index(entries.drop_last(), ext, file);
            assert(entries.drop_last()[k] == entries[k]);
            k
        }
    }
}

/// The scan of a matching entry is a direct file.
proof fn lemma_direct_file_found(entries: Seq<FsEntry>, ext: Seq<char>, k: int)
    requires
        0 <= k < entries.len(),
        is_match(entries[k], ext),
    ensures
        direct_files(entries, ext).contains(scanned(entries[k])),
    decreases entries.len(),
{
    let rest = direct_files(entries.drop_last(), ext);
    if k == entries.len() - 1 {
        assert(rest.push(scanned(entries.last()))[rest.len() as int] == scanned(entries[k]));
    } else {
        assert(entries.drop_last()[k] == entries[k]);
        lemma_direct_file_found(entries.drop_last(), ext, k);
        let i = choose|i: int| 0 <= i < rest.len() && rest[i] == scanned(entries[k]);
        if is_match(entries.last(), ext) {
            assert(rest.push(scanned(entries.last()))[i] == scanned(entries[k]));
        }
    }
}

/// A nested file lies below one of the entries.
proof fn lemma_nested_file_index(entries: Seq<FsEntry>, ext: Seq<char>, file: ScannedFileView) -> (k:
    int)
    requires
        nested_files(entries, ext).contains(file),
    ensures
        0 <= k < entries.len(),
        below(entries[k], ext).contains(file),
    decreases entries.len(),
{
    if entries.len() == 0 {
        0
    } else {
        let rest = nested_files(entries.drop_last(), ext);
        let last = below(entries.last(), ext);
        let i = choose|i: int| 0 <= i < (rest + last).len() && (rest + last)[i] == file;
        if i < rest.len() {
            assert(rest[i] == file);
            let k = lemma_nested_file_index(entries.drop_last(), ext, file);
            assert(entries.drop_last()[k] == entries[k]);
            k
        } else {
            assert(last[i - rest.len()] == file);
            entries.len() - 1
        }
    }
}

/// What lies below an entry is among the nested files.
proof fn lemma_nested_file_found(
    entries: Seq<FsEntry>,
    ext: Seq<char>,
    k: int,
    file: ScannedFileView,
)
    requires
        0 <= k < entries.len(),
        below(entries[k], ext).contains(file),
    ensures
        nested_files(entries, ext).contains(file),
    decreases entries.len(),
{
    let rest = nested_files(entries.drop_last(), ext);
    let last = below(entries.last(), ext);
    if k == entries.len() - 1 {
        let i = choose|i: int| 0 <= i < last.len() && last[i] == file;
        assert((rest + last)[rest.len() + i] == file);
    } else {
        assert(entries.drop_last()[k] == entries[k]);
        lemma_nested_file_found(entries.drop_last(), ext, k, file);
        let i = choose|i: int| 0 <= i < rest.len() && rest[i] == file;
        assert((rest + last)[i] == file);
    }
}

/// Every file that a scan lists is reached by some route.
proof fn lemma_scanned_has_route(entries: Seq<FsEntry>, ext: Seq<char>, file: ScannedFileView) -> (route:
    Seq<int>)
    requires
        scan_spec(entries, ext).contains(file),
    ensures
        leads_to(entries, route, ext, file),
    decreases entries,
{
    let direct = direct_files(entries, ext);
    let nested = nested_files(entries, ext);
    let i = choose|i: int| 0 <= i < (direct + nested).len() && (direct + nested)[i] == file;
    if i < direct.len() {
        assert(direct[i] == file);
        let k = lemma_direct_file_index(entries, ext, file);
        seq![k]
    } else {
        assert(nested[i - direct.len()] == file);
        let k = lemma_nested_file_index(entries, ext, file);
        match entries[k].node {
            FsNode::Directory { entries: Some(sub) } => {
                let deeper = lemma_scanned_has_route(sub@, ext, file);
                let route = seq![k] + deeper;
                assert(route.drop_first() =~= deeper);
                route
            },
            _ => {
                assert(below(entries[k], ext).len() == 0);
                seq![k]
            },
        }
    }
}

/// Every matching file that a route reaches is listed by the scan.
proof fn lemma_route_is_scanned(
    entries: Seq<FsEntry>,
    ext: Seq<char>,
    route: Seq<int>,
    file: ScannedFileView,
)
    requires
        leads_to(entries, route, ext, file),
    ensures
        scan_spec(entries, ext).contains(file),
    decreases route.len(),
{
    let direct = direct_files(entries, ext);
    let nested = nested_files(entries, ext);
    let k = route[0];
    if route.len() == 1 {
        lemma_direct_file_found(entries, ext, k);
        let i = choose|i: int| 0 <= i < direct.len() && direct[i] == file;
        assert((direct + nested)[i] == file);
    } else {
        match entries[k].node {
            FsNode::Directory { entries: Some(sub) } => {
                lemma_route_is_scanned(sub@, ext, route.drop_first(), file);
                lemma_nested_file_found(entries, ext, k, file);
                let i = choose|i: int| 0 <= i < nested.len() && nested[i] == file;
                assert((direct + nested)[direct.len() + i] == file);
            },
            _ => {},
        }
    }
}

/// A scan lists exactly the files with the extension that the tree holds,
/// at whatever depth they lie: a file is listed if and only if some route
/// through directories that could be listed leads to it and its extension is
/// the one asked for.
pub proof fn lemma_scan_finds_exactly(entries: Seq<FsEntry>, ext: Seq<char>, file: ScannedFileView)
    ensures
        scan_spec(entries, ext).contains(file) <==> holds_file(entries, ext, file),
{
    if scan_spec(entries, ext).contains(file) {
        let route = lemma_scanned_has_route(entries, ext, file);
        assert(holds_file(entries, ext, file));
    }
    if holds_file(entries, ext, file) {
        let route = choose|route: Seq<int>| leads_to(entries, route, ext, file);
        lemma_route_is_scanned(entries, ext, route, file);
    }
}

/// Every file that a scan lists has the extension that was asked for.
pub proof fn lemma_scan_matches_extension(entries: Seq<FsEntry>, ext: Seq<char>, i: int)
    requires
        0 <= i < scan_spec(entries, ext).len(),
    ensures
        has_extension(scan_spec(entries, ext)[i].path, ext),
{
    let file = scan_spec(entries, ext)[i];
    let route = lemma_scanned_has_route(entries, ext, file);
}

/// The routes to the direct entries that are files with extension `ext`, in
/// listing order.
pub open spec fn direct_routes(entries: Seq<FsEntry>, ext: Seq<char>) -> Seq<Seq<int>>
    decreases entries.len(),
{
    if entries.len() == 0 {
        Seq::empty()
    } else if is_match(entries.last(), ext) {
        direct_routes(entries.drop_last(), ext).push(seq![entries.len() - 1])
    } else {
        direct_routes(entries.drop_last(), ext)
    }
}

/// The routes, from the listing that holds it at index `k`, to what a scan
/// finds below one entry.
pub open spec fn below_routes(entry: FsEntry, k: int, ext: Seq<char>) -> Seq<Seq<int>>
    decreases entry, 2int,
{
    match entry.node {
        FsNode::Directory { entries: Some(sub) } => scan_routes(sub@, ext).map_values(
            |route: Seq<int>| seq![k] + route,
        ),
        _ => Seq::empty(),
    }
}

/// The routes to what a scan finds below the subdirectories among `entries`.
pub open spec fn nested_routes(entries: Seq<FsEntry>, ext: Seq<char>) -> Seq<Seq<int>>
    decreases entries, 0int,
{
    if entries.len() == 0 {
        Seq::empty()
    } else {
        nested_routes(entries.drop_last(), ext) + below_routes(
            entries.last(),
            entries.len() - 1,
            ext,
        )
    }
}

/// The route to each file that a scan lists, in the order of the listing.
pub open spec fn scan_routes(entries: Seq<FsEntry>, ext: Seq<char>) -> Seq<Seq<int>>
    decreases entries, 1int,
{
    direct_routes(entries, ext) + nested_routes(entries, ext)
}

/// Whether no route occurs twice.
pub open spec fn routes_distinct(routes: Seq<Seq<int>>) -> bool {
    forall|i: int, j: int| 0 <= i < j < routes.len() ==> routes[i] != routes[j]
}

/// A route that starts within a shorter listing leads where it leads in the
/// whole listing.
proof fn lemma_entry_at_prefix(entries: Seq<FsEntry>, route: Seq<int>)
    requires
        entries.len() > 0,
        route.len() > 0,
        0 <= route[0] < entries.len() - 1,
    ensures
        entry_at(entries.drop_last(), route) == entry_at(entries, route),
{
    assert(entries.drop_last()[route[0]] == entries[route[0]]);
}

/// The direct routes are single steps to matching entries, each in step
/// with the direct file it leads to, and none twice.
proof fn lemma_direct_routes(entries: Seq<FsEntry>, ext: Seq<char>)
    ensures
        direct_routes(entries, ext).len() == direct_files(entries, ext).len(),
        forall|i: int|
            0 <= i < direct_routes(entries, ext).len() ==> {
                let route = #[trigger] direct_routes(entries, ext)[i];
                &&& route.len() == 1
                &&& 0 <= route[0] < entries.len()
                &&& leads_to(entries, route, ext, direct_files(entries, ext)[i])
            },
        routes_distinct(direct_routes(entries, ext)),
    decreases entries.len(),
{
    if entries.len() > 0 {
        let rest = entries.drop_last();
        lemma_direct_routes(rest, ext);
        let routes = direct_routes(entries, ext);
        let shorter = direct_routes(rest, ext);
        assert forall|i: int| 0 <= i < routes.len() implies {
            let route = #[trigger] routes[i];
            &&& route.len() == 1
            &&& 0 <= route[0] < entries.len()
            &&& leads_to(entries, route, ext, direct_files(entries, ext)[i])
        } by {
            if i < shorter.len() {
                assert(routes[i] == shorter[i]);
                lemma_entry_at_prefix(entries, shorter[i]);
            }
        }
        assert forall|i: int, j: int| 0 <= i < j < routes.len() implies routes[i] != routes[j] by {
            if j < shorter.len() {
                assert(routes[i] == shorter[i] && routes[j] == shorter[j]);
            } else {
                assert(routes[i] == shorter[i]);
                assert(shorter[i][0] < entries.len() - 1);
            }
        }
    }
}

/// The routes below one entry are longer than a step, start at the entry,
/// are in step with the files they lead to, and none occurs twice.
proof fn lemma_below_routes(entries: Seq<FsEntry>, k: int, ext: Seq<char>)
    requires
        0 <= k < entries.len(),
    ensures
        below_routes(entries[k], k, ext).len() == below(entries[k], ext).len(),
        forall|i: int|
            0 <= i < below_routes(entries[k], k, ext).len() ==> {
                let route = #[trigger] below_routes(entries[k], k, ext)[i];
                &&& route.len() >= 2
                &&& route[0] == k
                &&& leads_to(entries, route, ext, below(entries[k], ext)[i])
            },
        routes_distinct(below_routes(entries[k], k, ext)),
    decreases entries[k], 3int,
{
    match entries[k].node {
        FsNode::Directory { entries: Some(sub) } => {
            lemma_scan_routes(sub@, ext);
            let inner = scan_routes(sub@, ext);
            let routes = below_routes(entries[k], k, ext);
            assert forall|i: int| 0 <= i < routes.len() implies {
                let route = #[trigger] routes[i];
                &&& route.len() >= 2
                &&& route[0] == k
                &&& leads_to(entries, route, ext, below(entries[k], ext)[i])
            } by {
                assert(routes[i] == seq![k] + inner[i]);
                assert(routes[i].drop_first() =~= inner[i]);
                assert(inner[i].len() >= 1);
            }
            assert forall|i: int, j: int| 0 <= i < j < routes.len() implies routes[i]
                != routes[j] by {
                assert(routes[i].drop_first() =~= inner[i]);
                assert(routes[j].drop_first() =~= inner[j]);
            }
        },
        _ => {},
    }
}

/// The nested routes are longer than a step, are in step with the nested
/// files they lead to, and none occurs twice.
proof fn lemma_nested_routes(entries: Seq<FsEntry>, ext: Seq<char>)
    ensures
        nested_routes(entries, ext).len() == nested_files(entries, ext).len(),
        forall|i: int|
            0 <= i < nested_routes(entries, ext).len() ==> {
                let route = #[trigger] nested_routes(entries, ext)[i];
                &&& route.len() >= 2
                &&& 0 <= route[0] < entries.len()
                &&& leads_to(entries, route, ext, nested_files(entries, ext)[i])
            },
        routes_distinct(nested_routes(entries, ext)),
    decreases entries, 0int,
{
    if entries.len() > 0 {
        let rest = entries.drop_last();
        let k = entries.len() - 1;
        lemma_nested_routes(rest, ext);
        lemma_below_routes(entries, k, ext);
        let routes = nested_routes(entries, ext);
        let shorter = nested_routes(rest, ext);
        let last = below_routes(entries[k], k, ext);
        assert forall|i: int| 0 <= i < routes.len() implies {
            let route = #[trigger] routes[i];
            &&& route.len() >= 2
            &&& 0 <= route[0] < entries.len()
            &&& leads_to(entries, route, ext, nested_files(entries, ext)[i])
        } by {
            if i < shorter.len() {
                assert(routes[i] == shorter[i]);
                lemma_entry_at_prefix(entries, shorter[i]);
            } else {
                assert(routes[i] == last[i - shorter.len()]);
            }
        }
        assert forall|i: int, j: int| 0 <= i < j < routes.len() implies routes[i] != routes[j] by {
            if j < shorter.len() {
                assert(routes[i] == shorter[i] && routes[j] == shorter[j]);
            } else if i < shorter.len() {
                assert(routes[i] == shorter[i]);
                assert(routes[j] == last[j - shorter.len()]);
                assert(shorter[i][0] < k);
            } else {
                assert(routes[i] == last[i - shorter.len()]);
                assert(routes[j] == last[j - shorter.len()]);
            }
        }
    }
}

/// The routes of a scan are in step with the files it lists, and none
/// occurs twice.
proof fn lemma_scan_routes(entries: Seq<FsEntry>, ext: Seq<char>)
    ensures
        scan_routes(entries, ext).len() == scan_spec(entries, ext).len(),
        forall|i: int|
            0 <= i < scan_routes(entries, ext).len() ==> {
                let route = #[trigger] scan_routes(entries, ext)[i];
                &&& route.len() >= 1
                &&& leads_to(entries, route, ext, scan_spec(entries, ext)[i])
            },
        routes_distinct(scan_routes(entries, ext)),
    decreases entries, 1int,
{
    lemma_direct_routes(entries, ext);
    lemma_nested_routes(entries, ext);
    let direct = direct_routes(entries, ext);
    let nested = nested_routes(entries, ext);
    let routes = scan_routes(entries, ext);
    assert forall|i: int| 0 <= i < routes.len() implies {
        let route = #[trigger] routes[i];
        &&& route.len() >= 1
        &&& leads_to(entries, route, ext, scan_spec(entries, ext)[i])
    } by {
        if i < direct.len() {
            assert(routes[i] == direct[i]);
        } else {
            assert(routes[i] == nested[i - direct.len()]);
        }
    }
    assert forall|i: int, j: int| 0 <= i < j < routes.len() implies routes[i] != routes[j] by {
        if j < direct.len() {
            assert(routes[i] == direct[i] && routes[j] == direct[j]);
        } else if i < direct.len() {
            assert(routes[i] == direct[i]);
            assert(routes[j] == nested[j - direct.len()]);
        } else {
            assert(routes[i] == nested[i - direct.len()]);
            assert(routes[j] == nested[j - direct.len()]);
        }
    }
}

/// The step to a matching entry is among the direct routes.
proof fn lemma_direct_route_found(entries: Seq<FsEntry>, ext: Seq<char>, k: int)
    requires
        0 <= k < entries.len(),
        is_match(entries[k], ext),
    ensures
        direct_routes(entries, ext).contains(seq![k]),
    decreases entries.len(),
{
    let rest = direct_routes(entries.drop_last(), ext);
    if k == entries.len() - 1 {
        assert(rest.push(seq![k])[rest.len() as int] == seq![k]);
    } else {
        assert(entries.drop_last()[k] == entries[k]);
        lemma_direct_route_found(entries.drop_last(), ext, k);
        let i = choose|i: int| 0 <= i < rest.len() && rest[i] == seq![k];
        if is_match(entries.last(), ext) {
            assert(rest.push(seq![entries.len() - 1])[i] == seq![k]);
        }
    }
}

/// A route below an entry is among the nested routes.
proof fn lemma_nested_route_found(entries: Seq<FsEntry>, ext: Seq<char>, k: int, route: Seq<int>)
    requires
        0 <= k < entries.len(),
        below_routes(entries[k], k, ext).contains(route),
    ensures
        nested_routes(entries, ext).contains(route),
    decreases entries.len(),
{
    let rest = nested_routes(entries.drop_last(), ext);
    let last = below_routes(entries.last(), entries.len() - 1, ext);
    if k == entries.len() - 1 {
        let i = choose|i: int| 0 <= i < last.len() && last[i] == route;
        assert((rest + last)[rest.len() + i] == route);
    } else {
        assert(entries.drop_last()[k] == entries[k]);
        lemma_nested_route_found(entries.drop_last(), ext, k, route);
        let i = choose|i: int| 0 <= i < rest.len() && rest[i] == route;
        assert((rest + last)[i] == route);
    }
}

/// Every route to a matching file is among the routes of the scan.
proof fn lemma_route_is_listed(entries: Seq<FsEntry>, ext: Seq<char>, route: Seq<int>)
    requires
        match entry_at(entries, route) {
            Some(entry) => is_match(entry, ext),
            None => false,
        },
    ensures
        scan_routes(entries, ext).contains(route),
    decreases route.len(),
{
    let direct = direct_routes(entries, ext);
    let nested = nested_routes(entries, ext);
    let k = route[0];
    if route.len() == 1 {
        assert(route =~= seq![k]);
        lemma_direct_route_found(entries, ext, k);
        let i = choose|i: int| 0 <= i < direct.len() && direct[i] == seq![k];
        assert((direct + nested)[i] == route);
    } else {
        match entries[k].node {
            FsNode::Directory { entries: Some(sub) } => {
                let deeper = route.drop_first();
                lemma_route_is_listed(sub@, ext, deeper);
                let inner = scan_routes(sub@, ext);
                let i = choose|i: int| 0 <= i < inner.len() && inner[i] == deeper;
                let below = below_routes(entries[k], k, ext);
                assert(below[i] == seq![k] + deeper);
                assert(route =~= seq![k] + deeper);
                lemma_nested_route_found(entries, ext, k, route);
                let j = choose|j: int| 0 <= j < nested.len() && nested[j] == route;
                assert((direct + nested)[direct.len() + j] == route);
            },
            _ => {},
        }
    }
}

/// A scan lists every file with the extension once: each place of the
/// listing has the route to its own file, no two places share a route, and
/// every route to a file with the extension belongs to a place. So the
/// listing is as long as the tree has such files.
pub proof fn lemma_scan_lists_each_file_once(entries: Seq<FsEntry>, ext: Seq<char>)
    ensures
        scan_routes(entries, ext).len() == scan_spec(entries, ext).len(),
        forall|i: int|
            0 <= i < scan_spec(entries, ext).len() ==> leads_to(
                entries,
                #[trigger] scan_routes(entries, ext)[i],
                ext,
                scan_spec(entries, ext)[i],
            ),
        routes_distinct(scan_routes(entries, ext)),
        forall|route: Seq<int>|
            (match #[trigger] entry_at(entries, route) {
                Some(entry) => is_match(entry, ext),
                None => false,
            }) ==> scan_routes(entries, ext).contains(route),
{
    lemma_scan_routes(entries, ext);
    assert forall|route: Seq<int>|
        (match #[trigger] entry_at(entries, route) {
            Some(entry) => is_match(entry, ext),
            None => false,
        }) implies scan_routes(entries, ext).contains(route) by {
        lemma_route_is_listed(entries, ext, route);
    }
}

/// Where no two entries of the tree share a path, no path is listed twice.
pub proof fn lemma_scan_lists_no_path_twice(entries: Seq<FsEntry>, ext: Seq<char>)
    requires
        forall|a: Seq<int>, b: Seq<int>|
            a != b && #[trigger] entry_at(entries, a) is Some && #[trigger] entry_at(
                entries,
                b,
            ) is Some ==> entry_at(entries, a)->0.path@ != entry_at(entries, b)->0.path@,
    ensures
        forall|i: int, j: int|
            0 <= i < j < scan_spec(entries, ext).len() ==> (#[trigger] scan_spec(
                entries,
                ext,
            )[i]).path != (#[trigger] scan_spec(entries, ext)[j]).path,
{
    lemma_scan_routes(entries, ext);
    let routes = scan_routes(entries, ext);
    let files = scan_spec(entries, ext);
    assert forall|i: int, j: int| 0 <= i < j < files.len() implies (#[trigger] files[i]).path != (
    #[trigger] files[j]).path by {
        assert(leads_to(entries, routes[i], ext, files[i]));
        assert(leads_to(entries, routes[j], ext, files[j]));
        assert(routes[i] != routes[j]);
    }
}

/// One more entry adds its own file, if it matches, to the direct files.
proof fn lemma_direct_files_step(entries: Seq<FsEntry>, ext: Seq<char>, i: int)
    requires
        0 <= i < entries.len(),
    ensures
        direct_files(entries.take(i + 1), ext) == if is_match(entries[i], ext) {
            direct_files(entries.take(i), ext).push(scanned(entries[i]))
        } else {
            direct_files(entries.take(i), ext)
        },
{
    assert(entries.take(i + 1).drop_last() =~= entries.take(i));
}

/// One more entry adds what lies below it to the nested files.
proof fn lemma_nested_files_step(entries: Seq<FsEntry>, ext: Seq<char>, i: int)
    requires
        0 <= i < entries.len(),
    ensures
        nested_files(entries.take(i + 1), ext) == nested_files(entries.take(i), ext) + below(
            entries[i],
            ext,
        ),
{
    assert(entries.take(i + 1).drop_last() =~= entries.take(i));
}

/// A copy of a string, or of none.
fn copy_text(text: &Option<String>) -> (r: Option<String>)
    ensures
        match (*text, r) {
            (Some(a), Some(b)) => a@ == b@,
            (None, None) => true,
            _ => false,
        },
{
    match text {
        Some(t) => Some(t.clone()),
        None => None,
    }
}

/// Lists every file with extension `extension` at any depth below `entries`.
pub fn scan(entries: &Vec<FsEntry>, extension: &str) -> (files: Vec<ScannedFile>)
    ensures
        files_view(files@) == scan_spec(entries@, extension@),
    decreases entries,
{
    let mut files: Vec<ScannedFile> = Vec::new();
    let mut i: usize = 0;
    assert(entries@.take(0) =~= Seq::empty());
    assert(files_view(files@) =~= Seq::empty());
    while i < entries.len()
        invariant
            i <= entries.len(),
            files_view(files@) == direct_files(entries@.take(i as int), extension@),
        decreases entries.len() - i,
    {
        proof {
            lemma_direct_files_step(entries@, extension@, i as int);
        }
        let entry = &entries[i];
        match &entry.node {
            FsNode::File { contents } => {
                if extension_is(entry.path.as_str(), extension) {
                    let ghost before = files@;
                    let file = ScannedFile { path: entry.path.clone(), contents: copy_text(contents) };
                    assert(file@ == scanned(*entry));
                    files.push(file);
                    assert(files_view(files@) =~= files_view(before).push(file@));
                }
            },
            _ => {},
        }
        i = i + 1;
    }
    assert(entries@.take(entries@.len() as int) =~= entries@);
    let mut k: usize = 0;
    assert(files_view(files@) + Seq::<ScannedFileView>::empty() =~= files_view(files@));
    while k < entries.len()
        invariant
            k <= entries.len(),
            files_view(files@) == direct_files(entries@, extension@) + nested_files(
                entries@.take(k as int),
                extension@,
            ),
        decreases entries.len() - k,
    {
        proof {
            lemma_nested_files_step(entries@, extension@, k as int);
        }
        let entry = &entries[k];
        let ghost before = files@;
        match &entry.node {
            FsNode::Directory { entries: Some(sub) } => {
                let mut found = scan(sub, extension);
                let ghost added = found@;
                files.append(&mut found);
                assert(files_view(files@) =~= files_view(before) + files_view(added));
            },
            _ => {
                assert(below(*entry, extension@) =~= Seq::empty());
            },
        }
        assert(files_view(files@) =~= direct_files(entries@, extension@) + nested_files(
            entries@.take(k + 1),
            extension@,
        ));
        k = k + 1;
    }
    files
}

/// Why a scanned file could not be loaded.
#[derive(Clone, Copy, Debug, PartialEq, Eq, Structural)]
pub enum LoadError {
    /// The file could not be read.
    Read,
    /// The path has no file name.
    NoFileName,
}

impl LoadError {
    /// The sentence that tells a person of the error.
    pub open spec fn text(self) -> Seq<char> {
        match self {
            LoadError::Read => "could not read file"@,
            LoadError::NoFileName => "could not get the file name"@,
        }
    }

    /// A sentence for the person at the terminal.
    pub fn message(&self) -> (r: String)
        ensures
            r@ == self.text(),
    {
        match self {
            LoadError::Read => "could not read file".to_owned(),
            LoadError::NoFileName => "could not get the file name".to_owned(),
        }
    }
}

/// The root of a scan is no directory, or could not be listed.
#[derive(Clone, Copy, Debug, PartialEq, Eq, Structural)]
pub struct ScanError;

impl ScanError {
    /// A sentence for the person at the terminal.
    pub fn message(&self) -> (r: String)
        ensures
            r@ == "could not read the folder"@,
    {
        "could not read the folder".to_owned()
    }
}

/// A loaded source file: its base name, its text and where it came from.
#[derive(Debug)]
pub struct TemplateFile {
    pub name: String,
    pub contents: String,
    pub path: String,
}

/// What a `TemplateFile` stands for.
pub struct TemplateFileView {
    pub name: Seq<char>,
    pub contents: Seq<char>,
    pub path: Seq<char>,
}

impl View for TemplateFile {
    type V = TemplateFileView;

    open spec fn view(&self) -> TemplateFileView {
        TemplateFileView { name: self.name@, contents: self.contents@, path: self.path@ }
    }
}

impl Clone for TemplateFile {
    fn clone(&self) -> (r: TemplateFile)
        ensures
            r@ == self@,
    {
        TemplateFile {
            name: self.name.clone(),
            contents: self.contents.clone(),
            path: self.path.clone(),
        }
    }
}

/// What loading a scanned file gives: a read error when it has no text, an
/// error when its path has no file name, else the file under its base name.
pub open spec fn load_spec(file: ScannedFileView) -> Result<TemplateFileView, LoadError> {
    match file.contents {
        None => Err(LoadError::Read),
        Some(text) => match file_name(file.path) {
            None => Err(LoadError::NoFileName),
            Some(name) => Ok(TemplateFileView { name: name, contents: text, path: file.path }),
        },
    }
}

/// Whether an exec result of loading stands for the given spec result.
pub open spec fn loaded_as(
    r: Result<TemplateFile, LoadError>,
    expected: Result<TemplateFileView, LoadError>,
) -> bool {
    match (r, expected) {
        (Ok(file), Ok(view)) => file@ == view,
        (Err(e), Err(x)) => e == x,
        _ => false,
    }
}

impl TemplateFile {
    /// Loads a scanned file.
    pub fn new(file: ScannedFile) -> (r: Result<TemplateFile, LoadError>)
        ensures
            loaded_as(r, load_spec(file@)),
    {
        let ScannedFile { path, contents } = file;
        match contents {
            None => Err(LoadError::Read),
            Some(text) => match base_name(path.as_str()) {
                None => Err(LoadError::NoFileName),
                Some(name) => Ok(TemplateFile { name, contents: text, path }),
            },
        }
    }
}

impl Clone for ScannedFile {
    fn clone(&self) -> (r: ScannedFile)
        ensures
            r@ == self@,
    {
        ScannedFile { path: self.path.clone(), contents: copy_text(&self.contents) }
    }
}

/// The files that a scan found, handed out one at a time.
#[derive(Debug)]
pub struct LazyFolderReader {
    files: Vec<ScannedFile>,
}

impl View for LazyFolderReader {
    type V = Seq<ScannedFileView>;

    closed spec fn view(&self) -> Seq<ScannedFileView> {
        files_view(self.files@)
    }
}

/// What a scan from `root` gives: an error unless the root is a directory
/// that could be listed, else every matching file below it.
pub open spec fn read_folder_spec(root: FsEntry, ext: Seq<char>) -> Result<
    Seq<ScannedFileView>,
    ScanError,
> {
    match root.node {
        FsNode::Directory { entries: Some(entries) } => Ok(scan_spec(entries@, ext)),
        _ => Err(ScanError),
    }
}

impl LazyFolderReader {
    /// Scans the tree below `root` for files with extension `extension`.
    pub fn new(root: &FsEntry, extension: &str) -> (r: Result<LazyFolderReader, ScanError>)
        ensures
            match r {
                Ok(reader) => read_folder_spec(*root, extension@) == Ok::<
                    Seq<ScannedFileView>,
                    ScanError,
                >(reader@),
                Err(e) => read_folder_spec(*root, extension@) is Err,
            },
    {
        match &root.node {
            FsNode::Directory { entries: Some(entries) } => {
                let files = scan(entries, extension);
                Ok(LazyFolderReader { files })
            },
            _ => Err(ScanError),
        }
    }

    /// A reader that has no file to hand out.
    pub fn empty() -> (r: LazyFolderReader)
        ensures
            r@ == Seq::<ScannedFileView>::empty(),
    {
        let r = LazyFolderReader { files: Vec::new() };
        assert(files_view(r.files@) =~= Seq::<ScannedFileView>::empty());
        r
    }

    /// How many files are still to be handed out.
    pub fn len(&self) -> (n: usize)
        ensures
            n == self@.len(),
    {
        self.files.len()
    }

    /// Whether every file has been handed out.
    pub fn is_empty(&self) -> (r: bool)
        ensures
            r == (self@.len() == 0),
    {
        self.files.len() == 0
    }

    /// The paths of the files still to be handed out, in scan order.
    pub fn paths(&self) -> (r: Vec<String>)
        ensures
            r@.len() == self@.len(),
            forall|i: int| 0 <= i < r@.len() ==> #[trigger] r@[i]@ == self@[i].path,
    {
        let mut paths: Vec<String> = Vec::new();
        let mut i: usize = 0;
        while i < self.files.len()
            invariant
                i <= self.files.len(),
                paths@.len() == i,
                forall|j: int| 0 <= j < i ==> #[trigger] paths@[j]@ == self.files@[j].path@,
            decreases self.files.len() - i,
        {
            paths.push(self.files[i].path.clone());
            i = i + 1;
        }
        paths
    }

    /// The path of the file that is handed out next, if any is left. The
    /// reader stays as it is.
    pub fn peek_path(&self) -> (r: Option<String>)
        ensures
            match r {
                Some(path) => self@.len() > 0 && path@ == self@.last().path,
                None => self@.len() == 0,
            },
    {
        let n = self.files.len();
        if n == 0 {
            None
        } else {
            Some(self.files[n - 1].path.clone())
        }
    }

    /// Hands out the last remaining file as it was scanned; `None` when none
    /// is left.
    pub fn next_file(&mut self) -> (r: Option<ScannedFile>)
        ensures
            match r {
                Some(file) => {
                    &&& old(self)@.len() > 0
                    &&& final(self)@ == old(self)@.drop_last()
                    &&& file@ == old(self)@.last()
                },
                None => old(self)@.len() == 0 && final(self)@ == old(self)@,
            },
    {
        let ghost before = self.files@;
        match self.files.pop() {
            None => None,
            Some(file) => {
                assert(files_view(self.files@) =~= files_view(before).drop_last());
                Some(file)
            },
        }
    }

    /// Hands out the last remaining file, loaded; `None` when none is left.
    pub fn next(&mut self) -> (r: Option<Result<TemplateFile, LoadError>>)
        ensures
            match r {
                Some(loaded) => {
                    &&& old(self)@.len() > 0
                    &&& final(self)@ == old(self)@.drop_last()
                    &&& loaded_as(loaded, load_spec(old(self)@.last()))
                },
                None => old(self)@.len() == 0 && final(self)@ == old(self)@,
            },
    {
        let ghost before = self.files@;
        match self.files.pop() {
            None => None,
            Some(file) => {
                assert(files_view(self.files@) =~= files_view(before).drop_last());
                Some(TemplateFile::new(file))
            },
        }
    }

    /// A pass over the remaining files from first to last that leaves the
    /// reader as it is.
    pub fn iter(&self) -> (it: LazyFolderReaderIterator<'_>)
        ensures
            it.files() == self@,
            it.position() == 0,
    {
        LazyFolderReaderIterator { reader: self, current_position: 0 }
    }
}

/// A pass over a reader's files from first to last.
pub struct LazyFolderReaderIterator<'a> {
    reader: &'a LazyFolderReader,
    current_position: usize,
}

impl<'a> LazyFolderReaderIterator<'a> {
    /// The files that the pass goes over.
    pub closed spec fn files(&self) -> Seq<ScannedFileView> {
        self.reader@
    }

    /// How many files the pass has handed out.
    pub closed spec fn position(&self) -> int {
        self.current_position as int
    }

    #[verifier::type_invariant]
    spec fn inv(&self) -> bool {
        self.current_position <= self.reader.files@.len()
    }

    /// Hands out the next file, loaded; `None` at the end.
    pub fn next(&mut self) -> (r: Option<Result<TemplateFile, LoadError>>)
        ensures
            final(self).files() == old(self).files(),
            0 <= old(self).position() <= old(self).files().len(),
            match r {
                Some(loaded) => {
                    &&& old(self).position() < old(self).files().len()
                    &&& final(self).position() == old(self).position() + 1
                    &&& loaded_as(loaded, load_spec(old(self).files()[old(self).position()]))
                },
                None => {
                    &&& old(self).position() == old(self).files().len()
                    &&& final(self).position() == old(self).position()
                },
            },
    {
        proof {
            use_type_invariant(&*self);
        }
        if self.current_position == self.reader.files.len() {
            return None;
        }
        let file = self.reader.files[self.current_position].clone();
        self.current_position = self.current_position + 1;
        Some(TemplateFile::new(file))
    }
}

} // verus!
