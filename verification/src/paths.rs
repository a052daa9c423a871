//! Paths as `/`-separated text.
//!
//! A path is a string whose components are separated by `/`. Its last
//! component is the text after the final `/`; that component is a file name
//! unless it is empty, `.` or `..`.

use crate::text::{
    catenate, find_last, last_index_of, lemma_last_index_of, lemma_last_index_of_is, slice,
    starts_with, str_eq, to_chars,
};
use vstd::prelude::*;

verus! {

/// The text after the final `/` of `p`; all of `p` when it holds no `/`.
pub open spec fn last_component(p: Seq<char>) -> Seq<char> {
    p.subrange(last_index_of(p, '/') + 1, p.len() as int)
}

/// Whether a component names no file: it is empty, `.` or `..`.
pub open spec fn is_special(name: Seq<char>) -> bool {
    name.len() == 0 || name == seq!['.'] || name == seq!['.', '.']
}

/// The file name of `p`: its last component, unless that is special.
pub open spec fn file_name(p: Seq<char>) -> Option<Seq<char>> {
    if is_special(last_component(p)) {
        None
    } else {
        Some(last_component(p))
    }
}

/// The directory that holds `p`: the text before the final `/`, the root `/`
/// itself when that is the only one and leads the path, and nothing when `p`
/// holds no `/`.
pub open spec fn parent(p: Seq<char>) -> Seq<char> {
    let i = last_index_of(p, '/');
    if i < 0 {
        Seq::empty()
    } else if i == 0 {
        p.subrange(0, 1)
    } else {
        p.subrange(0, i)
    }
}

/// The name of the directory that holds `p`.
pub open spec fn parent_name(p: Seq<char>) -> Option<Seq<char>> {
    file_name(parent(p))
}

/// The extension of `p`: the text after the final `.` of its file name.
/// There is none when `p` has no file name, when the name holds no `.`, or
/// when its only `.` leads the name.
pub open spec fn extension(p: Seq<char>) -> Option<Seq<char>> {
    match file_name(p) {
        None => None,
        Some(name) => {
            let dot = last_index_of(name, '.');
            if dot <= 0 {
                None
            } else {
                Some(name.subrange(dot + 1, name.len() as int))
            }
        },
    }
}

/// Whether the extension of `p` is exactly `ext`.
pub open spec fn has_extension(p: Seq<char>, ext: Seq<char>) -> bool {
    extension(p) == Some(ext)
}

/// `p` with its extension `from` replaced by `to`; `p` itself when its
/// extension is not `from`.
pub open spec fn replace_extension(p: Seq<char>, from: Seq<char>, to: Seq<char>) -> Seq<char> {
    if has_extension(p, from) {
        p.subrange(0, p.len() - from.len()) + to
    } else {
        p
    }
}

/// `name` placed under `dir`. An empty `dir` or a `name` that starts at the
/// root gives `name`; otherwise the two are joined by exactly one `/`.
pub open spec fn join(dir: Seq<char>, name: Seq<char>) -> Seq<char> {
    if dir.len() == 0 || (name.len() > 0 && name[0] == '/') {
        name
    } else if dir.last() == '/' {
        dir + name
    } else {
        dir + seq!['/'] + name
    }
}

/// `p` without its leading `prefix`; `p` itself when it does not start with it.
pub open spec fn strip_prefix(p: Seq<char>, prefix: Seq<char>) -> Seq<char> {
    if prefix.is_prefix_of(p) {
        p.subrange(prefix.len() as int, p.len() as int)
    } else {
        p
    }
}

/// Where the last component of a path begins.
fn last_component_start(chars: &Vec<char>) -> (start: usize)
    ensures
        start == last_index_of(chars@, '/') + 1,
        start <= chars@.len(),
{
    proof {
        lemma_last_index_of(chars@, '/');
    }
    match find_last(chars, '/') {
        Some(i) => {
            assert(i < chars.len());
            i + 1
        },
        None => 0,
    }
}

/// Whether the characters from `start` on spell an empty name, `.` or `..`.
fn special_from(chars: &Vec<char>, start: usize) -> (r: bool)
    requires
        start <= chars@.len(),
    ensures
        r == is_special(chars@.subrange(start as int, chars@.len() as int)),
{
    let n: usize = chars.len() - start;
    let ghost name = chars@.subrange(start as int, chars@.len() as int);
    if n == 0 {
        true
    } else if n == 1 {
        assert(name[0] == chars@[start as int]);
        assert(seq!['.'][0] == '.');
        assert(chars@[start as int] == '.' ==> name =~= seq!['.']);
        assert(seq!['.', '.'].len() == 2);
        chars[start] == '.'
    } else if n == 2 {
        assert(name[0] == chars@[start as int]);
        assert(name[1] == chars@[start + 1]);
        assert(seq!['.', '.'][0] == '.' && seq!['.', '.'][1] == '.');
        assert(seq!['.'].len() == 1);
        assert(chars@[start as int] == '.' && chars@[start + 1] == '.' ==> name =~= seq!['.', '.']);
        chars[start] == '.' && chars[start + 1] == '.'
    } else {
        assert(seq!['.'].len() == 1);
        assert(seq!['.', '.'].len() == 2);
        false
    }
}

/// The file name of a path, when it has one.
pub fn base_name(path: &str) -> (r: Option<String>)
    ensures
        match r {
            Some(name) => file_name(path@) == Some(name@),
            None => file_name(path@) is None,
        },
{
    let chars = to_chars(path);
    let start = last_component_start(&chars);
    if special_from(&chars, start) {
        None
    } else {
        Some(slice(path, start, chars.len()))
    }
}

/// The directory that holds a path.
pub fn parent_dir(path: &str) -> (r: String)
    ensures
        r@ == parent(path@),
{
    let chars = to_chars(path);
    proof {
        lemma_last_index_of(path@, '/');
    }
    match find_last(&chars, '/') {
        None => {
            let r = String::new();
            assert(r@ =~= parent(path@));
            r
        },
        Some(i) => {
            if i == 0 {
                slice(path, 0, 1)
            } else {
                slice(path, 0, i)
            }
        },
    }
}

/// The extension of a path, when it has one.
pub fn extension_of(path: &str) -> (r: Option<String>)
    ensures
        match r {
            Some(ext) => extension(path@) == Some(ext@),
            None => extension(path@) is None,
        },
{
    match base_name(path) {
        None => None,
        Some(name) => {
            let chars = to_chars(name.as_str());
            proof {
                lemma_last_index_of(name@, '.');
            }
            match find_last(&chars, '.') {
                None => None,
                Some(dot) => {
                    if dot == 0 {
                        None
                    } else {
                        Some(slice(name.as_str(), dot + 1, chars.len()))
                    }
                },
            }
        },
    }
}

/// Whether the extension of `path` is exactly `ext`.
pub fn extension_is(path: &str, ext: &str) -> (r: bool)
    ensures
        r == has_extension(path@, ext@),
{
    match extension_of(path) {
        None => false,
        Some(found) => {
            str_eq(found.as_str(), ext)
        },
    }
}

/// A path's extension is what follows its final `.`: the path ends with a `.`
/// and then the extension.
pub proof fn lemma_extension_is_suffix(p: Seq<char>)
    ensures
        match extension(p) {
            Some(ext) => {
                &&& ext.len() < p.len()
                &&& p[p.len() - ext.len() - 1] == '.'
                &&& p.subrange(p.len() - ext.len(), p.len() as int) == ext
            },
            None => true,
        },
{
    lemma_last_index_of(p, '/');
    let name = last_component(p);
    lemma_last_index_of(name, '.');
    match extension(p) {
        Some(ext) => {
            let dot = last_index_of(name, '.');
            assert(name[dot] == '.');
            assert(p.subrange(p.len() - ext.len(), p.len() as int) =~= ext);
        },
        None => {},
    }
}

/// Whether a text can name a file or a directory: it is not empty, holds no
/// `/`, and is neither `.` nor `..`.
pub open spec fn is_plain_name(name: Seq<char>) -> bool {
    !is_special(name) && !name.contains('/')
}

/// The entry `name` of the directory `dir` has the file name `name` and,
/// unless `dir` is empty, the parent `dir`.
pub proof fn lemma_entry_of_directory(dir: Seq<char>, name: Seq<char>)
    requires
        is_plain_name(name),
    ensures
        file_name(dir + seq!['/'] + name) == Some(name),
        dir.len() > 0 ==> parent(dir + seq!['/'] + name) == dir,
{
    let p = dir + seq!['/'] + name;
    assert(p[dir.len() as int] == '/');
    assert forall|j: int| dir.len() < j < p.len() implies p[j] != '/' by {
        assert(p[j] == name[j - dir.len() - 1]);
        if p[j] == '/' {
            assert(name.contains('/'));
        }
    }
    lemma_last_index_of_is(p, '/', dir.len() as int);
    assert(last_component(p) =~= name);
    if dir.len() > 0 {
        assert(p.subrange(0, dir.len() as int) =~= dir);
    }
}

/// A document two levels below a root lies in the directory between them:
/// the file `root/dir/name` has the parent name `dir`.
pub proof fn lemma_parent_name(root: Seq<char>, dir: Seq<char>, name: Seq<char>)
    requires
        is_plain_name(dir),
        is_plain_name(name),
    ensures
        parent_name(root + seq!['/'] + dir + seq!['/'] + name) == Some(dir),
        parent(root + seq!['/'] + dir + seq!['/'] + name) == root + seq!['/'] + dir,
{
    lemma_entry_of_directory(root + seq!['/'] + dir, name);
    lemma_entry_of_directory(root, dir);
}

/// A name made of a stem, a `.` and an extension has that extension, where
/// the stem is not empty, neither holds a `/`, and the extension is not empty
/// and holds no `.`.
pub proof fn lemma_extension_of_name(stem: Seq<char>, ext: Seq<char>)
    requires
        stem.len() > 0,
        ext.len() > 0,
        !stem.contains('/'),
        !ext.contains('/'),
        !ext.contains('.'),
    ensures
        extension(stem + seq!['.'] + ext) == Some(ext),
{
    let name = stem + seq!['.'] + ext;
    assert forall|j: int| 0 <= j < name.len() implies name[j] != '/' by {
        if j < stem.len() {
            assert(name[j] == stem[j]);
            if name[j] == '/' {
                assert(stem.contains('/'));
            }
        } else if j > stem.len() {
            assert(name[j] == ext[j - stem.len() - 1]);
            if name[j] == '/' {
                assert(ext.contains('/'));
            }
        }
    }
    lemma_last_index_of_is(name, '/', -1);
    assert(last_component(name) =~= name);
    assert(seq!['.'].len() == 1);
    assert(seq!['.', '.'].len() == 2);
    assert(!is_special(name));
    assert(name[stem.len() as int] == '.');
    assert forall|j: int| stem.len() < j < name.len() implies name[j] != '.' by {
        assert(name[j] == ext[j - stem.len() - 1]);
        if name[j] == '.' {
            assert(ext.contains('.'));
        }
    }
    lemma_last_index_of_is(name, '.', stem.len() as int);
    assert(name.subrange(stem.len() as int + 1, name.len() as int) =~= ext);
}

/// Replacing the extension of `stem.from` by `to` gives `stem.to`.
pub proof fn lemma_replace_extension_of_name(stem: Seq<char>, from: Seq<char>, to: Seq<char>)
    requires
        stem.len() > 0,
        from.len() > 0,
        !stem.contains('/'),
        !from.contains('/'),
        !from.contains('.'),
    ensures
        replace_extension(stem + seq!['.'] + from, from, to) == stem + seq!['.'] + to,
{
    lemma_extension_of_name(stem, from);
    let name = stem + seq!['.'] + from;
    assert(name.subrange(0, name.len() - from.len()) =~= stem + seq!['.']);
}

/// Replaces the extension `from` of `path` by `to`; hands back `path`
/// unchanged when its extension is not `from`.
pub fn with_extension(path: &str, from: &str, to: &str) -> (r: String)
    ensures
        r@ == replace_extension(path@, from@, to@),
{
    if extension_is(path, from) {
        proof {
            lemma_extension_is_suffix(path@);
        }
        let n: usize = path.unicode_len();
        let k: usize = from.unicode_len();
        let stem = slice(path, 0, n - k);
        catenate(stem.as_str(), to)
    } else {
        path.to_owned()
    }
}

/// Places `name` under `dir`.
pub fn join_path(dir: &str, name: &str) -> (r: String)
    ensures
        r@ == join(dir@, name@),
{
    let d = to_chars(dir);
    let n = to_chars(name);
    if d.len() == 0 || (n.len() > 0 && n[0] == '/') {
        name.to_owned()
    } else if d[d.len() - 1] == '/' {
        catenate(dir, name)
    } else {
        proof {
            reveal_strlit("/");
            assert("/"@ =~= seq!['/']);
        }
        let with_slash = catenate(dir, "/");
        catenate(with_slash.as_str(), name)
    }
}

/// Removes the leading `prefix` from `path`; hands back `path` unchanged
/// when it does not start with it.
pub fn without_prefix(path: &str, prefix: &str) -> (r: String)
    ensures
        r@ == strip_prefix(path@, prefix@),
{
    let p = to_chars(path);
    let q = to_chars(prefix);
    if starts_with(&p, &q) {
        slice(path, q.len(), p.len())
    } else {
        path.to_owned()
    }
}

/// The name of the directory that holds `path`, when it has one.
pub fn parent_base_name(path: &str) -> (r: Option<String>)
    ensures
        match r {
            Some(name) => parent_name(path@) == Some(name@),
            None => parent_name(path@) is None,
        },
{
    let dir = parent_dir(path);
    base_name(dir.as_str())
}

} // verus!
