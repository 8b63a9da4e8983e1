//! Executable search and file selection on plain path strings.
//!
//! The file-system and environment reads stay with the caller: it hands
//! in the directory of the running executable, the value of `PATH`, the
//! names found in a directory and which candidate paths are files.

use vstd::prelude::*;
use crate::url::chars_of;

verus! {

/// The character contents of a sequence of strings.
pub open spec fn views(v: Seq<String>) -> Seq<Seq<char>> {
    Seq::new(v.len(), |i: int| v[i]@)
}

/// `s` cut at every `sep`, keeping empty pieces: `"a::b"` gives `a`, the
/// empty string and `b`, and the empty string gives one empty piece.
pub open spec fn split_on(s: Seq<char>, sep: char) -> Seq<Seq<char>>
    decreases s.len(),
{
    if s.len() == 0 {
        seq![Seq::<char>::empty()]
    } else {
        let rest = split_on(s.drop_last(), sep);
        if s.last() == sep {
            rest.push(Seq::<char>::empty())
        } else {
            rest.update(rest.len() - 1, rest.last().push(s.last()))
        }
    }
}

/// The pieces put back together with `sep` between each two.
pub open spec fn join_with(pieces: Seq<Seq<char>>, sep: char) -> Seq<char>
    decreases pieces.len(),
{
    if pieces.len() == 0 {
        Seq::<char>::empty()
    } else if pieces.len() == 1 {
        pieces[0]
    } else {
        join_with(pieces.drop_last(), sep) + seq![sep] + pieces.last()
    }
}

/// `dir` extended by `name` as a Unix path: an absolute `name` replaces
/// `dir`; otherwise a `/` goes between them unless `dir` is empty or
/// already ends in `/`.
pub open spec fn path_join(dir: Seq<char>, name: Seq<char>) -> Seq<char> {
    if name.len() > 0 && name[0] == '/' {
        name
    } else if dir.len() > 0 && dir.last() != '/' {
        dir + seq!['/'] + name
    } else {
        dir + name
    }
}

/// `p` is an absolute path: it starts with `/`.
pub open spec fn is_absolute(p: Seq<char>) -> bool {
    p.len() > 0 && p[0] == '/'
}

/// `p` names the file `name` in some directory: it ends with `/` and
/// then `name`.
pub open spec fn ends_in_file(p: Seq<char>, name: Seq<char>) -> bool {
    &&& p.len() > name.len()
    &&& p[p.len() - name.len() - 1] == '/'
    &&& p.subrange(p.len() - name.len(), p.len() as int) == name
}

/// `name` is a plain file name: not empty and without `/`.
pub open spec fn is_plain_name(name: Seq<char>) -> bool {
    name.len() > 0 && forall|i: int| 0 <= i < name.len() ==> name[i] != '/'
}

/// A directory taken from the working directory `cwd`: an absolute one
/// stays as it is, a relative or empty one is joined onto `cwd`, and
/// without a known working directory it stays as it is.
pub open spec fn anchor_dir(dir: Seq<char>, cwd: Option<Seq<char>>) -> Seq<char> {
    if is_absolute(dir) {
        dir
    } else {
        match cwd {
            Some(w) => path_join(w, dir),
            None => dir,
        }
    }
}

/// The paths of `name` in each directory, in order, with each directory
/// taken from `cwd`.
pub open spec fn paths_in(dirs: Seq<Seq<char>>, name: Seq<char>, cwd: Option<Seq<char>>) -> Seq<
    Seq<char>,
>
    decreases dirs.len(),
{
    if dirs.len() == 0 {
        Seq::<Seq<char>>::empty()
    } else {
        paths_in(dirs.drop_last(), name, cwd).push(path_join(anchor_dir(dirs.last(), cwd), name))
    }
}

/// The directories searched for an executable, in order: that of the
/// running executable (when known), then each entry of the search path
/// (when it is set).
pub open spec fn search_dirs(exe_dir: Option<Seq<char>>, path_var: Option<Seq<char>>) -> Seq<
    Seq<char>,
> {
    let first = match exe_dir {
        Some(d) => seq![d],
        None => Seq::<Seq<char>>::empty(),
    };
    let rest = match path_var {
        Some(p) => split_on(p, ':'),
        None => Seq::<Seq<char>>::empty(),
    };
    first + rest
}

/// Where an executable called `name` is looked for, in order, as absolute
/// paths against the working directory `cwd`.
pub open spec fn process_candidates(
    name: Seq<char>,
    cwd: Option<Seq<char>>,
    exe_dir: Option<Seq<char>>,
    path_var: Option<Seq<char>>,
) -> Seq<Seq<char>> {
    paths_in(search_dirs(exe_dir, path_var), name, cwd)
}

/// The first candidate that is a file, or the empty string when none is.
pub open spec fn first_file(candidates: Seq<Seq<char>>, is_file: Seq<bool>) -> Seq<char>
    decreases candidates.len(),
{
    if candidates.len() == 0 || is_file.len() == 0 {
        Seq::<char>::empty()
    } else if is_file[0] {
        candidates[0]
    } else {
        first_file(candidates.drop_first(), is_file.drop_first())
    }
}

/// The position of the last `.` in `s`, or -1 when it has none.
pub open spec fn last_dot(s: Seq<char>) -> int
    decreases s.len(),
{
    if s.len() == 0 {
        -1
    } else if s.last() == '.' {
        s.len() - 1
    } else {
        last_dot(s.drop_last())
    }
}

/// The extension of a file name: what follows its last `.`, when that
/// `.` is not the first character and the name is not `..`.
pub open spec fn file_extension(name: Seq<char>) -> Option<Seq<char>> {
    if name == seq!['.', '.'] || last_dot(name) <= 0 {
        None
    } else {
        Some(name.subrange(last_dot(name) + 1, name.len() as int))
    }
}

/// The names, in order, of the regular files (`is_file[i]` tells whether
/// `names[i]` is one) whose extension is `suffix`.
pub open spec fn files_with_extension(
    names: Seq<Seq<char>>,
    is_file: Seq<bool>,
    suffix: Seq<char>,
) -> Seq<Seq<char>>
    decreases names.len(),
{
    if names.len() == 0 || is_file.len() == 0 {
        Seq::<Seq<char>>::empty()
    } else {
        let rest = files_with_extension(names.drop_last(), is_file.drop_last(), suffix);
        if is_file.last() && file_extension(names.last()) == Some(suffix) {
            rest.push(names.last())
        } else {
            rest
        }
    }
}

/// The contents of an optional string slice.
pub open spec fn opt_view(o: Option<&str>) -> Option<Seq<char>> {
    match o {
        Some(x) => Some(x@),
        None => None,
    }
}

/// Cutting a string always yields at least one piece.
pub proof fn lemma_split_nonempty(s: Seq<char>, sep: char)
    ensures
        split_on(s, sep).len() >= 1,
    decreases s.len(),
{
    if s.len() > 0 {
        lemma_split_nonempty(s.drop_last(), sep);
    }
}

/// Law: putting the pieces of a cut string back together with the
/// separator gives back the string, and no piece holds the separator.
pub proof fn lemma_split_join(s: Seq<char>, sep: char)
    ensures
        join_with(split_on(s, sep), sep) == s,
        forall|i: int, j: int|
            0 <= i < split_on(s, sep).len() && 0 <= j < split_on(s, sep)[i].len() ==> split_on(
                s,
                sep,
            )[i][j] != sep,
    decreases s.len(),
{
    if s.len() == 0 {
        assert(split_on(s, sep) == seq![Seq::<char>::empty()]);
        assert(s == Seq::<char>::empty());
    } else {
        let rest = split_on(s.drop_last(), sep);
        lemma_split_nonempty(s.drop_last(), sep);
        lemma_split_join(s.drop_last(), sep);
        let pieces = split_on(s, sep);
        if s.last() == sep {
            assert(pieces.drop_last() == rest);
            assert(join_with(pieces, sep) == join_with(rest, sep) + seq![sep] + Seq::<char>::empty());
            assert(s == s.drop_last() + seq![sep]);
        } else {
            let last = rest.last().push(s.last());
            if rest.len() == 1 {
                assert(join_with(pieces, sep) == last);
                assert(s == s.drop_last().push(s.last()));
            } else {
                assert(pieces.drop_last() == rest.drop_last());
                assert(join_with(pieces, sep) == join_with(rest.drop_last(), sep) + seq![sep] + last);
                assert(join_with(rest, sep) == join_with(rest.drop_last(), sep) + seq![sep]
                    + rest.last());
                assert(join_with(pieces, sep) == join_with(rest, sep).push(s.last()));
                assert(s == s.drop_last().push(s.last()));
            }
            assert forall|i: int, j: int|
                0 <= i < pieces.len() && 0 <= j < pieces[i].len() implies pieces[i][j] != sep by {
                if i == pieces.len() - 1 && j < rest.last().len() {
                    assert(pieces[i][j] == rest[i][j]);
                }
            }
        }
    }
}

/// The views of a sequence of strings with one more string pushed.
proof fn lemma_views_push(v: Seq<String>, x: String)
    ensures
        views(v.push(x)) == views(v).push(x@),
{
    assert(views(v.push(x)) =~= views(v).push(x@));
}

/// Cuts a search-path value at every `:`, keeping empty entries.
pub fn split_search_path(value: &str) -> (r: Vec<String>)
    ensures
        views(r@) == split_on(value@, ':'),
{
    let v = chars_of(value);
    let mut pieces: Vec<String> = Vec::new();
    let mut start: usize = 0;
    let mut i: usize = 0;
    assert(v@.take(0) == Seq::<char>::empty());
    assert(views(pieces@) == Seq::<Seq<char>>::empty());
    while i < v.len()
        invariant
            v@ == value@,
            start <= i <= v.len(),
            split_on(v@.take(i as int), ':') == views(pieces@).push(
                v@.subrange(start as int, i as int),
            ),
        decreases v.len() - i,
    {
        let ghost before = views(pieces@);
        assert(v@.take(i + 1).drop_last() == v@.take(i as int));
        if v[i] == ':' {
            let piece = value.substring_char(start, i).to_owned();
            proof {
                lemma_views_push(pieces@, piece);
            }
            pieces.push(piece);
            start = i + 1;
            assert(v@.subrange(start as int, i + 1) == Seq::<char>::empty());
        } else {
            assert(v@.subrange(start as int, i + 1) == v@.subrange(start as int, i as int).push(
                v@[i as int],
            ));
            assert(before.push(v@.subrange(start as int, i as int)).update(
                before.len() as int,
                v@.subrange(start as int, i + 1),
            ) == before.push(v@.subrange(start as int, i + 1)));
        }
        i = i + 1;
    }
    assert(v@.take(v.len() as int) == v@);
    let last = value.substring_char(start, v.len()).to_owned();
    proof {
        lemma_views_push(pieces@, last);
    }
    pieces.push(last);
    pieces
}

/// Extends `dir` by `name` as a Unix path does.
pub fn join_path(dir: &str, name: &str) -> (r: String)
    ensures
        r@ == path_join(dir@, name@),
{
    let nv = chars_of(name);
    if nv.len() > 0 && nv[0] == '/' {
        return name.to_owned();
    }
    let dv = chars_of(dir);
    let mut r = dir.to_owned();
    if dv.len() > 0 && dv[dv.len() - 1] != '/' {
        r.append("/");
        proof {
            reveal_strlit("/");
        }
    }
    r.append(name);
    r
}

/// Joining onto an absolute directory gives an absolute path, which ends
/// in `/name` when `name` is a plain file name.
pub proof fn lemma_path_join_absolute(dir: Seq<char>, name: Seq<char>)
    requires
        is_absolute(dir),
    ensures
        is_absolute(path_join(dir, name)),
        is_plain_name(name) ==> ends_in_file(path_join(dir, name), name),
{
    let p = path_join(dir, name);
    if is_plain_name(name) {
        assert(name[0] != '/');
        if dir.last() != '/' {
            assert(p == dir + seq!['/'] + name);
            assert(p.subrange(p.len() - name.len(), p.len() as int) == name);
        } else {
            assert(p == dir + name);
            assert(p[p.len() - name.len() - 1] == dir.last());
            assert(p.subrange(p.len() - name.len(), p.len() as int) == name);
        }
    }
}

/// A directory taken from an absolute working directory is absolute.
pub proof fn lemma_anchor_absolute(dir: Seq<char>, cwd: Option<Seq<char>>)
    requires
        cwd matches Some(w) && is_absolute(w),
    ensures
        is_absolute(anchor_dir(dir, cwd)),
{
    if !is_absolute(dir) {
        if let Some(w) = cwd {
            lemma_path_join_absolute(w, dir);
        }
    }
}

/// With an absolute working directory, every searched path is absolute,
/// and names the file `name` when it is a plain file name.
pub proof fn lemma_paths_in_shape(dirs: Seq<Seq<char>>, name: Seq<char>, cwd: Option<Seq<char>>)
    requires
        cwd matches Some(w) && is_absolute(w),
    ensures
        forall|i: int|
            0 <= i < paths_in(dirs, name, cwd).len() ==> is_absolute(
                #[trigger] paths_in(dirs, name, cwd)[i],
            ),
        is_plain_name(name) ==> forall|i: int|
            0 <= i < paths_in(dirs, name, cwd).len() ==> ends_in_file(
                #[trigger] paths_in(dirs, name, cwd)[i],
                name,
            ),
    decreases dirs.len(),
{
    if dirs.len() > 0 {
        let rest = paths_in(dirs.drop_last(), name, cwd);
        let all = paths_in(dirs, name, cwd);
        lemma_paths_in_shape(dirs.drop_last(), name, cwd);
        lemma_anchor_absolute(dirs.last(), cwd);
        let d = anchor_dir(dirs.last(), cwd);
        lemma_path_join_absolute(d, name);
        assert(all == rest.push(path_join(d, name)));
        assert forall|i: int| 0 <= i < all.len() implies is_absolute(#[trigger] all[i]) && (
        is_plain_name(name) ==> ends_in_file(all[i], name)) by {
            if i < rest.len() {
                assert(all[i] == rest[i]);
            }
        }
    }
}

/// The first candidate that is a file is empty or one of the candidates
/// marked as a file.
pub proof fn lemma_first_file_member(candidates: Seq<Seq<char>>, is_file: Seq<bool>)
    ensures
        first_file(candidates, is_file).len() == 0 || exists|i: int|
            0 <= i < candidates.len() && 0 <= i < is_file.len() && is_file[i]
                && #[trigger] candidates[i] == first_file(candidates, is_file),
    decreases candidates.len(),
{
    if candidates.len() > 0 && is_file.len() > 0 && !is_file[0] {
        lemma_first_file_member(candidates.drop_first(), is_file.drop_first());
        let r = first_file(candidates, is_file);
        if r.len() > 0 {
            let j = choose|j: int|
                0 <= j < candidates.drop_first().len() && 0 <= j < is_file.drop_first().len()
                    && is_file.drop_first()[j] && #[trigger] candidates.drop_first()[j] == r;
            assert(candidates[j + 1] == r);
        }
    } else if candidates.len() > 0 && is_file.len() > 0 {
        assert(candidates[0] == first_file(candidates, is_file));
    }
}

/// Law: with a known (absolute) working directory, the executable that
/// the search finds is either none (the empty string) or an absolute
/// path, which names the file `name` when `name` is a plain file name,
/// whatever the search path holds.
pub proof fn lemma_found_process_is_absolute(
    name: Seq<char>,
    cwd: Option<Seq<char>>,
    exe_dir: Option<Seq<char>>,
    path_var: Option<Seq<char>>,
    is_file: Seq<bool>,
)
    requires
        cwd matches Some(w) && is_absolute(w),
    ensures
        ({
            let found = first_file(process_candidates(name, cwd, exe_dir, path_var), is_file);
            found.len() == 0 || (is_absolute(found) && (is_plain_name(name) ==> ends_in_file(
                found,
                name,
            )))
        }),
{
    let c = process_candidates(name, cwd, exe_dir, path_var);
    lemma_first_file_member(c, is_file);
    lemma_paths_in_shape(search_dirs(exe_dir, path_var), name, cwd);
    let found = first_file(c, is_file);
    if found.len() > 0 {
        let i = choose|i: int|
            0 <= i < c.len() && 0 <= i < is_file.len() && is_file[i] && #[trigger] c[i] == found;
        assert(is_absolute(c[i]));
    }
}


/// Law: the search finds the first candidate marked as a file: when
/// candidate `i` is marked and none before it is, the result is candidate
/// `i`; when none is marked, the result is the empty string.
pub proof fn lemma_first_file_is_first_marked(candidates: Seq<Seq<char>>, is_file: Seq<bool>)
    requires
        candidates.len() == is_file.len(),
    ensures
        forall|i: int|
            0 <= i < is_file.len() && #[trigger] is_file[i] && (forall|j: int|
                0 <= j < i ==> !is_file[j]) ==> first_file(candidates, is_file) == candidates[i],
        (forall|j: int| 0 <= j < is_file.len() ==> !is_file[j]) ==> first_file(
            candidates,
            is_file,
        ).len() == 0,
    decreases candidates.len(),
{
    if candidates.len() > 0 {
        let cs = candidates.drop_first();
        let fs = is_file.drop_first();
        lemma_first_file_is_first_marked(cs, fs);
        assert forall|i: int|
            0 <= i < is_file.len() && #[trigger] is_file[i] && (forall|j: int|
                0 <= j < i ==> !is_file[j]) implies first_file(candidates, is_file)
            == candidates[i] by {
            if i > 0 {
                assert(!is_file[0]);
                assert(fs[i - 1] == is_file[i]);
                assert forall|j: int| 0 <= j < i - 1 implies !fs[j] by {
                    assert(fs[j] == is_file[j + 1]);
                }
                assert(cs[i - 1] == candidates[i]);
            }
        }
        if forall|j: int| 0 <= j < is_file.len() ==> !is_file[j] {
            assert(!is_file[0]);
            assert forall|j: int| 0 <= j < fs.len() implies !fs[j] by {
                assert(fs[j] == is_file[j + 1]);
            }
        }
    }
}

/// Law: every directory searched gives one candidate, in order: the
/// candidate for the `i`-th directory is `name` joined onto that
/// directory taken from the working directory.
pub proof fn lemma_paths_in_each(dirs: Seq<Seq<char>>, name: Seq<char>, cwd: Option<Seq<char>>)
    ensures
        paths_in(dirs, name, cwd).len() == dirs.len(),
        forall|i: int|
            0 <= i < dirs.len() ==> #[trigger] paths_in(dirs, name, cwd)[i] == path_join(
                anchor_dir(dirs[i], cwd),
                name,
            ),
    decreases dirs.len(),
{
    if dirs.len() > 0 {
        lemma_paths_in_each(dirs.drop_last(), name, cwd);
        let all = paths_in(dirs, name, cwd);
        let rest = paths_in(dirs.drop_last(), name, cwd);
        assert forall|i: int| 0 <= i < dirs.len() implies #[trigger] all[i] == path_join(
            anchor_dir(dirs[i], cwd),
            name,
        ) by {
            if i < dirs.len() - 1 {
                assert(all[i] == rest[i]);
                assert(dirs.drop_last()[i] == dirs[i]);
            }
        }
    }
}

/// Law: the candidates are, in order, the executable's own directory
/// (when known) and then every entry of the search path, each joined
/// with `name` after being taken from the working directory; none is
/// left out.
pub proof fn lemma_process_candidates_each(
    name: Seq<char>,
    cwd: Option<Seq<char>>,
    exe_dir: Option<Seq<char>>,
    path_var: Option<Seq<char>>,
)
    ensures
        ({
            let c = process_candidates(name, cwd, exe_dir, path_var);
            let off: int = if exe_dir is Some { 1 } else { 0 };
            let entries = match path_var {
                Some(p) => split_on(p, ':'),
                None => Seq::<Seq<char>>::empty(),
            };
            &&& c.len() == off + entries.len()
            &&& exe_dir matches Some(d) ==> c[0] == path_join(anchor_dir(d, cwd), name)
            &&& forall|i: int|
                0 <= i < entries.len() ==> #[trigger] c[off + i] == path_join(
                    anchor_dir(entries[i], cwd),
                    name,
                )
        }),
{
    let dirs = search_dirs(exe_dir, path_var);
    lemma_paths_in_each(dirs, name, cwd);
    let off: int = if exe_dir is Some { 1 } else { 0 };
    let entries = match path_var {
        Some(p) => split_on(p, ':'),
        None => Seq::<Seq<char>>::empty(),
    };
    assert forall|i: int| 0 <= i < entries.len() implies dirs[off + i] == entries[i] by {}
    let c = process_candidates(name, cwd, exe_dir, path_var);
    assert forall|i: int| 0 <= i < entries.len() implies #[trigger] c[off + i] == path_join(
        anchor_dir(entries[i], cwd),
        name,
    ) by {
        assert(c[off + i] == path_join(anchor_dir(dirs[off + i], cwd), name));
    }
}

/// Law: a file name has an extension `x` exactly when it is a non-empty
/// stem, a `.` and then `x`, where `x` holds no `.` (and the name is not
/// `..`).
pub proof fn lemma_file_extension_shape(name: Seq<char>)
    ensures
        file_extension(name) matches Some(x) ==> {
            &&& name != seq!['.', '.']
            &&& x.len() < name.len() - 1
            &&& name == name.take(name.len() - x.len() - 1) + seq!['.'] + x
            &&& forall|i: int| 0 <= i < x.len() ==> x[i] != '.'
        },
        file_extension(name) is None ==> (name == seq!['.', '.'] || forall|i: int|
            0 < i < name.len() ==> name[i] != '.'),
{
    lemma_last_dot(name);
    if let Some(x) = file_extension(name) {
        let d = last_dot(name);
        assert(x == name.subrange(d + 1, name.len() as int));
        assert forall|i: int| 0 <= i < x.len() implies x[i] != '.' by {
            assert(x[i] == name[d + 1 + i]);
        }
        assert(name == name.take(d) + seq!['.'] + x);
    }
}

/// The last `.` is at `last_dot`, and nothing after it is a `.`.
proof fn lemma_last_dot(s: Seq<char>)
    ensures
        -1 <= last_dot(s) < s.len(),
        last_dot(s) >= 0 ==> s[last_dot(s)] == '.',
        forall|i: int| last_dot(s) < i < s.len() ==> s[i] != '.',
    decreases s.len(),
{
    if s.len() > 0 {
        lemma_last_dot(s.drop_last());
        if s.last() != '.' {
            assert forall|i: int| last_dot(s) < i < s.len() implies s[i] != '.' by {
                if i < s.len() - 1 {
                    assert(s[i] == s.drop_last()[i]);
                }
            }
        }
    }
}

/// `idx` lists, in increasing order, exactly the positions `i` where
/// `names[i]` is marked as a file and has the extension `suffix`.
pub open spec fn lists_kept_positions(
    names: Seq<Seq<char>>,
    is_file: Seq<bool>,
    suffix: Seq<char>,
    idx: Seq<int>,
) -> bool {
    &&& forall|k: int| 0 <= k < idx.len() ==> 0 <= #[trigger] idx[k] < names.len()
    &&& forall|k: int, l: int| 0 <= k < l < idx.len() ==> idx[k] < idx[l]
    &&& forall|k: int|
        0 <= k < idx.len() ==> is_file[#[trigger] idx[k]] && file_extension(names[idx[k]]) == Some(
            suffix,
        )
    &&& forall|i: int|
        0 <= i < names.len() && #[trigger] is_file[i] && file_extension(names[i]) == Some(suffix)
            ==> exists|k: int| 0 <= k < idx.len() && idx[k] == i
}

/// Law: the listing is every name marked as a file whose extension is
/// `suffix`, each once, in the order of the names, and nothing else.
pub proof fn lemma_files_with_extension_exact(
    names: Seq<Seq<char>>,
    is_file: Seq<bool>,
    suffix: Seq<char>,
)
    requires
        names.len() == is_file.len(),
    ensures
        exists|idx: Seq<int>|
            #[trigger] lists_kept_positions(names, is_file, suffix, idx) && idx.len()
                == files_with_extension(names, is_file, suffix).len() && forall|k: int|
                0 <= k < idx.len() ==> files_with_extension(names, is_file, suffix)[k]
                    == names[idx[k]],
    decreases names.len(),
{
    let r = files_with_extension(names, is_file, suffix);
    if names.len() == 0 {
        let idx = Seq::<int>::empty();
        assert(lists_kept_positions(names, is_file, suffix, idx));
    } else {
        let ns = names.drop_last();
        let fs = is_file.drop_last();
        let n = names.len() - 1;
        lemma_files_with_extension_exact(ns, fs, suffix);
        let rest = files_with_extension(ns, fs, suffix);
        let idx0 = choose|idx: Seq<int>|
            #[trigger] lists_kept_positions(ns, fs, suffix, idx) && idx.len() == rest.len()
                && forall|k: int| 0 <= k < idx.len() ==> rest[k] == ns[idx[k]];
        let kept = is_file[n] && file_extension(names[n]) == Some(suffix);
        let idx = if kept {
            idx0.push(n)
        } else {
            idx0
        };
        assert forall|k: int| 0 <= k < idx0.len() implies names[idx0[k]] == ns[idx0[k]]
            && is_file[idx0[k]] == fs[idx0[k]] by {}
        assert forall|k: int| 0 <= k < idx.len() implies 0 <= #[trigger] idx[k] < names.len() by {
            if k < idx0.len() {
                assert(idx[k] == idx0[k]);
            }
        }
        assert forall|k: int, l: int| 0 <= k < l < idx.len() implies idx[k] < idx[l] by {
            if l < idx0.len() {
                assert(idx[k] == idx0[k] && idx[l] == idx0[l]);
            } else {
                assert(idx[k] == idx0[k]);
            }
        }
        assert forall|k: int| 0 <= k < idx.len() implies is_file[#[trigger] idx[k]]
            && file_extension(names[idx[k]]) == Some(suffix) by {
            if k < idx0.len() {
                assert(idx[k] == idx0[k]);
                assert(fs[idx0[k]]);
            }
        }
        assert forall|i: int|
            0 <= i < names.len() && #[trigger] is_file[i] && file_extension(names[i]) == Some(
                suffix,
            ) implies exists|k: int| 0 <= k < idx.len() && idx[k] == i by {
            if i < n {
                assert(fs[i] == is_file[i]);
                assert(ns[i] == names[i]);
                assert(fs[i]);
                let k = choose|k: int| 0 <= k < idx0.len() && idx0[k] == i;
                assert(idx[k] == i);
            } else {
                assert(idx[idx.len() - 1] == n);
            }
        }
        assert(lists_kept_positions(names, is_file, suffix, idx));
        assert forall|k: int| 0 <= k < idx.len() implies r[k] == names[idx[k]] by {
            if k < idx0.len() {
                assert(idx[k] == idx0[k]);
                assert(r[k] == rest[k]);
            }
        }
    }
}


/// Law: joining keeps the directory as a prefix and the name as a suffix,
/// with exactly one `/` between them when the directory is non-empty and
/// does not already end in `/`, and nothing else; an absolute name
/// replaces the directory.
pub proof fn lemma_path_join_shape(dir: Seq<char>, name: Seq<char>)
    ensures
        is_absolute(name) ==> path_join(dir, name) == name,
        !is_absolute(name) ==> {
            let sep: int = if dir.len() > 0 && dir.last() != '/' { 1 } else { 0 };
            let p = path_join(dir, name);
            &&& p.len() == dir.len() + sep + name.len()
            &&& p.take(dir.len() as int) == dir
            &&& p.skip(dir.len() + sep) == name
            &&& sep == 1 ==> p[dir.len() as int] == '/'
        },
{
    if !is_absolute(name) {
        let p = path_join(dir, name);
        if dir.len() > 0 && dir.last() != '/' {
            assert(p.take(dir.len() as int) == dir);
            assert(p.skip(dir.len() + 1int) == name);
        } else {
            assert(p.take(dir.len() as int) == dir);
            assert(p.skip(dir.len() as int) == name);
        }
    }
}

/// `dir` taken from the working directory `cwd`.
fn anchor(dir: &str, cwd: Option<&str>) -> (r: String)
    ensures
        r@ == anchor_dir(dir@, opt_view(cwd)),
{
    let v = chars_of(dir);
    if v.len() > 0 && v[0] == '/' {
        return dir.to_owned();
    }
    match cwd {
        Some(w) => join_path(w, dir),
        None => dir.to_owned(),
    }
}

/// Where to look for an executable called `name`: in the directory of the
/// running executable when `exe_dir` is known, then in each entry of the
/// search-path value `path_var` when it is set; a relative or empty
/// directory is joined onto the working directory `cwd` when that is
/// known, so that every candidate is then an absolute path.
pub fn find_process_candidates(
    name: &str,
    cwd: Option<&str>,
    exe_dir: Option<&str>,
    path_var: Option<&str>,
) -> (r: Vec<String>)
    requires
        opt_view(cwd) matches Some(w) ==> is_absolute(w),
    ensures
        views(r@) == process_candidates(name@, opt_view(cwd), opt_view(exe_dir), opt_view(path_var)),
        cwd is Some ==> forall|i: int| 0 <= i < r@.len() ==> is_absolute(#[trigger] r@[i]@),
        cwd is Some && is_plain_name(name@) ==> forall|i: int|
            0 <= i < r@.len() ==> ends_in_file(#[trigger] r@[i]@, name@),
{
    let mut dirs: Vec<String> = Vec::new();
    assert(views(dirs@) == Seq::<Seq<char>>::empty());
    match exe_dir {
        Some(d) => {
            let d = d.to_owned();
            proof {
                lemma_views_push(dirs@, d);
            }
            dirs.push(d);
        },
        None => {},
    }
    let ghost first = views(dirs@);
    let entries = match path_var {
        Some(p) => split_search_path(p),
        None => Vec::new(),
    };
    let mut j: usize = 0;
    while j < entries.len()
        invariant
            j <= entries.len(),
            views(dirs@) == first + views(entries@).take(j as int),
        decreases entries.len() - j,
    {
        let d = entries[j].clone();
        proof {
            lemma_views_push(dirs@, d);
            assert(views(entries@).take(j + 1) == views(entries@).take(j as int).push(d@));
            assert(first + views(entries@).take(j + 1) == (first + views(entries@).take(
                j as int,
            )).push(d@));
        }
        dirs.push(d);
        j = j + 1;
    }
    assert(views(entries@).take(entries.len() as int) == views(entries@));
    proof {
        match path_var {
            Some(p) => {},
            None => {
                assert(views(entries@) == Seq::<Seq<char>>::empty());
            },
        }
        assert(views(dirs@) == search_dirs(opt_view(exe_dir), opt_view(path_var)));
    }
    let ghost all = views(dirs@);
    let mut r: Vec<String> = Vec::new();
    assert(views(r@) == Seq::<Seq<char>>::empty());
    assert(all.take(0) == Seq::<Seq<char>>::empty());
    let mut i: usize = 0;
    while i < dirs.len()
        invariant
            i <= dirs.len(),
            all == views(dirs@),
            views(r@) == paths_in(all.take(i as int), name@, opt_view(cwd)),
        decreases dirs.len() - i,
    {
        assert(all.take(i + 1).drop_last() == all.take(i as int));
        assert(all.take(i + 1).last() == dirs@[i as int]@);
        let d = anchor(dirs[i].as_str(), cwd);
        let p = join_path(d.as_str(), name);
        proof {
            lemma_views_push(r@, p);
        }
        r.push(p);
        i = i + 1;
    }
    assert(all.take(dirs.len() as int) == all);
    proof {
        if cwd is Some {
            lemma_paths_in_shape(all, name@, opt_view(cwd));
            assert forall|i: int| 0 <= i < r@.len() implies is_absolute(#[trigger] r@[i]@) by {
                assert(r@[i]@ == views(r@)[i]);
            }
            if is_plain_name(name@) {
                assert forall|i: int| 0 <= i < r@.len() implies ends_in_file(
                    #[trigger] r@[i]@,
                    name@,
                ) by {
                    assert(r@[i]@ == views(r@)[i]);
                }
            }
        }
    }
    r
}

/// The first candidate path that is a file, or the empty string when
/// none is; `is_file[i]` tells whether `candidates[i]` is a file.
pub fn find_process(candidates: &Vec<String>, is_file: &Vec<bool>) -> (r: String)
    requires
        candidates.len() == is_file.len(),
    ensures
        r@ == first_file(views(candidates@), is_file@),
        r@.len() == 0 || exists|i: int|
            0 <= i < candidates.len() && is_file@[i] && #[trigger] candidates@[i]@ == r@,
{
    let mut i: usize = 0;
    assert(views(candidates@).skip(0) == views(candidates@));
    assert(is_file@.skip(0) == is_file@);
    while i < candidates.len()
        invariant
            i <= candidates.len() == is_file.len(),
            first_file(views(candidates@).skip(i as int), is_file@.skip(i as int)) == first_file(
                views(candidates@),
                is_file@,
            ),
        decreases candidates.len() - i,
    {
        let ghost cs = views(candidates@).skip(i as int);
        let ghost fs = is_file@.skip(i as int);
        assert(cs.drop_first() == views(candidates@).skip(i + 1));
        assert(fs.drop_first() == is_file@.skip(i + 1));
        if is_file[i] {
            return candidates[i].clone();
        }
        i = i + 1;
    }
    assert(views(candidates@).skip(i as int).len() == 0);
    String::new()
}

/// The extension of a file name, as a path reports it.
pub fn file_extension_of(name: &str) -> (r: Option<String>)
    ensures
        match r {
            Some(x) => file_extension(name@) == Some(x@),
            None => file_extension(name@) is None,
        },
{
    let v = chars_of(name);
    let mut dot: Option<usize> = None;
    let mut i: usize = 0;
    assert(v@.take(0) == Seq::<char>::empty());
    while i < v.len()
        invariant
            v@ == name@,
            i <= v.len(),
            match dot {
                Some(d) => last_dot(v@.take(i as int)) == d && d < i,
                None => last_dot(v@.take(i as int)) == -1,
            },
        decreases v.len() - i,
    {
        assert(v@.take(i + 1).drop_last() == v@.take(i as int));
        if v[i] == '.' {
            dot = Some(i);
        }
        i = i + 1;
    }
    assert(v@.take(v.len() as int) == v@);
    if v.len() == 2 && v[0] == '.' && v[1] == '.' {
        assert(v@ == seq!['.', '.']);
        return None;
    }
    assert(v@ != seq!['.', '.']) by {
        if v@ == seq!['.', '.'] {
            assert(v@[0] == '.' && v@[1] == '.');
        }
    }
    let d = match dot {
        Some(d) => d,
        None => return None,
    };
    if d == 0 {
        return None;
    }
    Some(name.substring_char(d + 1, v.len()).to_owned())
}

/// The names, in order, of the regular files whose extension is `suffix`;
/// `is_file[i]` tells whether `names[i]` is a regular file.
pub fn get_files(names: &Vec<String>, is_file: &Vec<bool>, suffix: &str) -> (r: Vec<String>)
    requires
        names.len() == is_file.len(),
    ensures
        views(r@) == files_with_extension(views(names@), is_file@, suffix@),
{
    let wanted = suffix.to_owned();
    let mut r: Vec<String> = Vec::new();
    let mut i: usize = 0;
    assert(views(names@).take(0) == Seq::<Seq<char>>::empty());
    assert(views(r@) == Seq::<Seq<char>>::empty());
    while i < names.len()
        invariant
            i <= names.len() == is_file.len(),
            wanted@ == suffix@,
            views(r@) == files_with_extension(
                views(names@).take(i as int),
                is_file@.take(i as int),
                suffix@,
            ),
        decreases names.len() - i,
    {
        assert(views(names@).take(i + 1).drop_last() == views(names@).take(i as int));
        assert(is_file@.take(i + 1).drop_last() == is_file@.take(i as int));
        let keep = is_file[i] && match file_extension_of(names[i].as_str()) {
            Some(x) => x == wanted,
            None => false,
        };
        if keep {
            let n = names[i].clone();
            proof {
                lemma_views_push(r@, n);
            }
            r.push(n);
        }
        i = i + 1;
    }
    assert(views(names@).take(names.len() as int) == views(names@));
    assert(is_file@.take(names.len() as int) == is_file@);
    r
}

/// `x` is one of the names marked as a regular file whose extension is
/// `suffix`.
pub open spec fn is_listed_file(
    names: Seq<Seq<char>>,
    is_file: Seq<bool>,
    suffix: Seq<char>,
    x: Seq<char>,
) -> bool {
    exists|i: int|
        0 <= i < names.len() && i < is_file.len() && is_file[i] && file_extension(names[i]) == Some(
            suffix,
        ) && #[trigger] names[i] == x
}

/// Law: every name that `get_files` keeps is a regular file with the
/// extension `suffix`.
pub proof fn lemma_files_with_extension_only_files(
    names: Seq<Seq<char>>,
    is_file: Seq<bool>,
    suffix: Seq<char>,
)
    requires
        names.len() == is_file.len(),
    ensures
        forall|k: int|
            0 <= k < files_with_extension(names, is_file, suffix).len() ==> is_listed_file(
                names,
                is_file,
                suffix,
                #[trigger] files_with_extension(names, is_file, suffix)[k],
            ),
    decreases names.len(),
{
    if names.len() > 0 {
        let short = names.drop_last();
        let short_flags = is_file.drop_last();
        let rest = files_with_extension(short, short_flags, suffix);
        lemma_files_with_extension_only_files(short, short_flags, suffix);
        let all = files_with_extension(names, is_file, suffix);
        let last = names.len() - 1;
        assert forall|k: int| 0 <= k < all.len() implies is_listed_file(
            names,
            is_file,
            suffix,
            #[trigger] all[k],
        ) by {
            if k < rest.len() {
                assert(is_listed_file(short, short_flags, suffix, rest[k]));
                let i = choose|i: int|
                    0 <= i < short.len() && i < short_flags.len() && short_flags[i]
                        && file_extension(short[i]) == Some(suffix) && #[trigger] short[i]
                        == rest[k];
                assert(all[k] == rest[k]);
                assert(short[i] == names[i]);
                assert(short_flags[i] == is_file[i]);
            } else {
                assert(all[k] == names[last]);
                assert(is_file[last] && file_extension(names[last]) == Some(suffix));
            }
        }
    }
}

} // verus!
