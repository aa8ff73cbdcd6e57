//! The tree walker: traverse a root directory with version-control ignore
//! semantics, then keep exactly the regular files that the pattern matcher
//! whitelists, that do not lie under the version-control metadata directory,
//! and (when submodule exclusion is on) that do not lie under a directory
//! marked as a submodule boundary.
//!
//! The filesystem enumeration itself comes from the `ignore` crate; which
//! entries are kept is decided here, over plain values.

use vstd::prelude::*;
use vstd::string::StrSliceExecFns;
use crate::patterns::{override_matched, override_root, override_globs, match_verdict, MatchKind};

verus! {

/// What a directory walk yields for one entry.
pub struct WalkEntry {
    pub path: String,
    pub kind: EntryKind,
}

/// The kind of a walked entry. `File` stands for an entry whose file type is
/// known and is neither a directory nor a symlink; `Unknown` for an entry
/// whose file type could not be read.
#[derive(PartialEq, Eq, Structural, Clone, Copy, Debug)]
pub enum EntryKind {
    File,
    Dir,
    Symlink,
    Unknown,
}

/// `p` begins with `root`.
pub open spec fn path_extends(p: Seq<char>, root: Seq<char>) -> bool {
    root.len() <= p.len() && p.take(root.len() as int) == root
}

/// The path lies under the walk root, up to the removal of a leading `./`
/// that the selection performs on every yielded path.
pub open spec fn under_walk_root(p: Seq<char>, root: Seq<char>) -> bool {
    path_extends(p, root) || path_extends(seq!['.', '/'] + p, root)
}

/// Relies on `ignore::WalkBuilder`: walks the tree rooted at `root` with
/// standard ignore-file semantics, hidden entries included; entries whose
/// read fails are skipped. Every yielded path is the root itself or the root
/// joined with descendants, so it begins with the root; which entries come
/// back depends on the filesystem.
#[verifier::external_body]
pub(crate) fn walk_tree(root: &str) -> (r: Vec<WalkEntry>)
    ensures
        forall|i: int| 0 <= i < r@.len() ==> path_extends((#[trigger] r@[i]).path@, root@),
{
    let mut out = Vec::new();
    for entry in ignore::WalkBuilder::new(root).hidden(false).build() {
        let Ok(e) = entry else { continue };
        let kind = match e.file_type() {
            None => EntryKind::Unknown,
            Some(t) if t.is_dir() => EntryKind::Dir,
            Some(t) if t.is_symlink() => EntryKind::Symlink,
            Some(_) => EntryKind::File,
        };
        out.push(WalkEntry { path: e.path().to_string_lossy().into_owned(), kind });
    }
    out
}

/// Relies on `std::path::Path::is_file`: whether the path names a regular
/// file, following symlinks. The answer depends on the filesystem.
#[verifier::external_body]
pub(crate) fn path_is_file(p: &str) -> bool {
    std::path::Path::new(p).is_file()
}

/// A walked path with a leading `./` removed, the form the matcher sees and
/// the walk yields.
pub open spec fn strip_dot(s: Seq<char>) -> Seq<char> {
    if s.len() >= 2 && s[0] == '.' && s[1] == '/' {
        s.skip(2)
    } else {
        s
    }
}

/// Remove a leading `./` from a walked path.
pub fn strip_dot_exec(path: &str) -> (r: String)
    ensures
        r@ == strip_dot(path@),
{
    let n = path.unicode_len();
    if n >= 2 && path.get_char(0) == '.' && path.get_char(1) == '/' {
        let rest = path.substring_char(2, n);
        proof {
            assert(rest@ =~= path@.skip(2));
        }
        rest.to_owned()
    } else {
        path.to_owned()
    }
}

/// A walked path relative to the walk root: the path with the root and one
/// separator removed, where it lies under the root, and unchanged otherwise.
pub open spec fn rel_of(path: Seq<char>, root: Seq<char>) -> Seq<char> {
    if path.len() > root.len() && path.take(root.len() as int) == root && path[root.len() as int]
        == '/' {
        path.skip(root.len() as int + 1)
    } else {
        path
    }
}

/// Compute a walked path relative to the walk root.
pub fn rel_of_exec(path: &str, root: &str) -> (r: String)
    ensures
        r@ == rel_of(path@, root@),
{
    let n = path.unicode_len();
    let rn = root.unicode_len();
    if n > rn && path.get_char(rn) == '/' {
        let mut i: usize = 0;
        let mut same = true;
        proof {
            assert(path@.take(0) =~= root@.take(0));
        }
        while i < rn
            invariant
                rn <= n,
                n == path@.len(),
                rn == root@.len(),
                i <= rn,
                same <==> path@.take(i as int) == root@.take(i as int),
            decreases rn - i,
        {
            let ghost same0 = same;
            if path.get_char(i) != root.get_char(i) {
                same = false;
            }
            proof {
                if same0 && path@[i as int] == root@[i as int] {
                    assert(path@.take(i + 1) =~= path@.take(i as int).push(path@[i as int]));
                    assert(root@.take(i + 1) =~= root@.take(i as int).push(root@[i as int]));
                } else if path@.take(i + 1) == root@.take(i + 1) {
                    assert(path@.take(i as int) =~= path@.take(i + 1).take(i as int));
                    assert(root@.take(i as int) =~= root@.take(i + 1).take(i as int));
                    assert(path@[i as int] == path@.take(i + 1)[i as int]);
                }
            }
            i = i + 1;
        }
        proof {
            assert(root@.take(rn as int) == root@);
        }
        if same {
            let rest = path.substring_char(rn + 1, n);
            proof {
                assert(rest@ =~= path@.skip(rn as int + 1));
            }
            return rest.to_owned();
        }
        path.to_owned()
    } else {
        path.to_owned()
    }
}

/// A `.git` directory component starts at position `i` of the path.
pub open spec fn git_component_at(s: Seq<char>, i: int) -> bool {
    &&& 0 <= i
    &&& i + 4 < s.len()
    &&& (i == 0 || s[i - 1] == '/')
    &&& s[i] == '.'
    &&& s[i + 1] == 'g'
    &&& s[i + 2] == 'i'
    &&& s[i + 3] == 't'
    &&& s[i + 4] == '/'
}

/// The path lies under a directory named `.git`.
pub open spec fn under_git_dir(s: Seq<char>) -> bool {
    exists|i: int| git_component_at(s, i)
}

/// Decide whether a relative path lies under a `.git` directory.
pub fn under_git_dir_exec(rel: &str) -> (r: bool)
    ensures
        r == under_git_dir(rel@),
{
    let n = rel.unicode_len();
    if n < 5 {
        proof {
            assert(forall|i: int| !git_component_at(rel@, i));
        }
        return false;
    }
    let chars = crate::strutil::str_to_chars(rel);
    let mut i: usize = 0;
    while i + 4 < n
        invariant
            n == rel@.len(),
            chars@ == rel@,
            i + 4 <= n,
            forall|j: int| 0 <= j < i ==> !git_component_at(rel@, j),
        decreases n - i,
    {
        let boundary = i == 0 || chars[i - 1] == '/';
        if boundary && chars[i] == '.' && chars[i + 1] == 'g' && chars[i + 2] == 'i' && chars[i + 3]
            == 't' && chars[i + 4] == '/' {
            assert(git_component_at(rel@, i as int));
            return true;
        }
        i = i + 1;
    }
    proof {
        assert(forall|j: int| j + 4 >= n ==> !git_component_at(rel@, j));
    }
    false
}

/// `dir` is a proper ancestor directory of `path`.
pub open spec fn is_path_prefix(dir: Seq<char>, path: Seq<char>) -> bool {
    &&& dir.len() < path.len()
    &&& path.take(dir.len() as int) == dir
    &&& path[dir.len() as int] == '/'
}

/// Decide whether `dir` is a proper ancestor directory of `path`.
pub fn is_path_prefix_exec(dir: &str, path: &str) -> (r: bool)
    ensures
        r == is_path_prefix(dir@, path@),
{
    let dn = dir.unicode_len();
    let pn = path.unicode_len();
    if dn >= pn || path.get_char(dn) != '/' {
        return false;
    }
    let mut i: usize = 0;
    while i < dn
        invariant
            dn < pn,
            dn == dir@.len(),
            pn == path@.len(),
            i <= dn,
            path@.take(i as int) == dir@.take(i as int),
        decreases dn - i,
    {
        if path.get_char(i) != dir.get_char(i) {
            proof {
                if path@.take(dn as int) == dir@ {
                    assert(path@[i as int] == path@.take(dn as int)[i as int]);
                }
            }
            return false;
        }
        proof {
            assert(path@.take(i + 1) =~= path@.take(i as int).push(path@[i as int]));
            assert(dir@.take(i + 1) =~= dir@.take(i as int).push(dir@[i as int]));
        }
        i = i + 1;
    }
    proof {
        assert(dir@.take(dn as int) == dir@);
    }
    true
}

/// The path lies under some directory of the marked list.
pub open spec fn under_marked(marked: Seq<Seq<char>>, path: Seq<char>) -> bool {
    exists|d: int| 0 <= d < marked.len() && is_path_prefix(#[trigger] marked[d], path)
}

/// Whether a walked entry is kept: it is a regular file, it does not lie
/// under the version-control metadata directory, it does not lie under a
/// marked submodule boundary when those are excluded, and the matcher
/// whitelists it.
pub open spec fn kept(
    e: WalkEntry,
    root: Seq<char>,
    marked: Seq<Seq<char>>,
    ov_root: Seq<char>,
    ov_globs: Seq<Seq<char>>,
    exclude_submodules: bool,
) -> bool {
    &&& e.kind == EntryKind::File
    &&& !under_git_dir(rel_of(e.path@, root))
    &&& (exclude_submodules ==> !under_marked(marked, e.path@))
    &&& match_verdict(ov_root, ov_globs, strip_dot(e.path@), false) == MatchKind::Whitelist
}

/// The paths the walk yields, in walk order: the kept entries, each with a
/// leading `./` removed.
pub open spec fn selected(
    entries: Seq<WalkEntry>,
    root: Seq<char>,
    marked: Seq<Seq<char>>,
    ov_root: Seq<char>,
    ov_globs: Seq<Seq<char>>,
    exclude_submodules: bool,
) -> Seq<Seq<char>>
    decreases entries.len(),
{
    if entries.len() == 0 {
        Seq::empty()
    } else {
        let rest = selected(entries.drop_first(), root, marked, ov_root, ov_globs,
            exclude_submodules);
        if kept(entries.first(), root, marked, ov_root, ov_globs, exclude_submodules) {
            seq![strip_dot(entries.first().path@)] + rest
        } else {
            rest
        }
    }
}

/// The paths of the walked directories whose submodule flag is set, in walk
/// order.
pub open spec fn marked_dirs_spec(entries: Seq<WalkEntry>, flags: Seq<bool>) -> Seq<Seq<char>>
    decreases entries.len(),
{
    if entries.len() == 0 || flags.len() == 0 {
        Seq::empty()
    } else {
        let rest = marked_dirs_spec(entries.drop_first(), flags.drop_first());
        if entries.first().kind == EntryKind::Dir && flags.first() {
            seq![entries.first().path@] + rest
        } else {
            rest
        }
    }
}

/// Keep exactly the walked directories whose flag is set, in walk order.
pub fn marked_dirs(entries: &Vec<WalkEntry>, flags: &Vec<bool>) -> (r: Vec<String>)
    requires
        entries@.len() == flags@.len(),
    ensures
        crate::strutil::str_views(r@) == marked_dirs_spec(entries@, flags@),
{
    let mut r: Vec<String> = Vec::new();
    let mut i: usize = 0;
    proof {
        assert(entries@.skip(0) == entries@);
        assert(flags@.skip(0) == flags@);
        assert(crate::strutil::str_views(r@) =~= Seq::<Seq<char>>::empty());
    }
    while i < entries.len()
        invariant
            entries@.len() == flags@.len(),
            i <= entries@.len(),
            marked_dirs_spec(entries@, flags@) == crate::strutil::str_views(r@)
                + marked_dirs_spec(entries@.skip(i as int), flags@.skip(i as int)),
        decreases entries@.len() - i,
    {
        proof {
            assert(entries@.skip(i as int).first() == entries@[i as int]);
            assert(flags@.skip(i as int).first() == flags@[i as int]);
            assert(entries@.skip(i as int).drop_first() =~= entries@.skip(i + 1));
            assert(flags@.skip(i as int).drop_first() =~= flags@.skip(i + 1));
        }
        let ghost prev = r@;
        if entries[i].kind == EntryKind::Dir && flags[i] {
            r.push(entries[i].path.clone());
            proof {
                assert(crate::strutil::str_views(r@) =~= crate::strutil::str_views(prev).push(
                    entries@[i as int].path@,
                ));
                assert(crate::strutil::str_views(prev) + (seq![entries@[i as int].path@]
                    + marked_dirs_spec(entries@.skip(i + 1), flags@.skip(i + 1)))
                    =~= crate::strutil::str_views(r@) + marked_dirs_spec(
                    entries@.skip(i + 1),
                    flags@.skip(i + 1),
                ));
            }
        }
        i = i + 1;
    }
    proof {
        assert(entries@.skip(entries@.len() as int) =~= Seq::<WalkEntry>::empty());
        assert(crate::strutil::str_views(r@) + Seq::<Seq<char>>::empty()
            =~= crate::strutil::str_views(r@));
    }
    r
}

/// Law: every marked path is the path of a flagged walked directory entry.
pub proof fn lemma_marked_dirs_membership(entries: Seq<WalkEntry>, flags: Seq<bool>, k: int)
    requires
        flags.len() == entries.len(),
        0 <= k < marked_dirs_spec(entries, flags).len(),
    ensures
        exists|j: int|
            0 <= j < entries.len() && (#[trigger] entries[j]).kind == EntryKind::Dir && flags[j]
                && marked_dirs_spec(entries, flags)[k] == entries[j].path@,
    decreases entries.len(),
{
    let m = marked_dirs_spec(entries, flags);
    let tail_e = entries.drop_first();
    let tail_f = flags.drop_first();
    let mt = marked_dirs_spec(tail_e, tail_f);
    let off: int = if entries.first().kind == EntryKind::Dir && flags.first() {
        1
    } else {
        0
    };
    if k < off {
        assert(entries[0].kind == EntryKind::Dir && flags[0] && m[0] == entries[0].path@);
    } else {
        assert(m[k] == mt[k - off]);
        lemma_marked_dirs_membership(tail_e, tail_f, k - off);
        let jt = choose|jt: int|
            0 <= jt < tail_e.len() && (#[trigger] tail_e[jt]).kind == EntryKind::Dir && tail_f[jt]
                && mt[k - off] == tail_e[jt].path@;
        assert(entries[jt + 1] == tail_e[jt]);
        assert(flags[jt + 1] == tail_f[jt]);
        assert(entries[jt + 1].kind == EntryKind::Dir && flags[jt + 1] && m[k] == entries[jt
            + 1].path@);
    }
}

/// Law: with no flag set, no directory is marked.
pub proof fn lemma_no_flags_no_marked(entries: Seq<WalkEntry>, flags: Seq<bool>)
    requires
        forall|i: int| 0 <= i < flags.len() ==> !(#[trigger] flags[i]),
    ensures
        marked_dirs_spec(entries, flags) == Seq::<Seq<char>>::empty(),
    decreases entries.len(),
{
    if entries.len() > 0 && flags.len() > 0 {
        assert(!flags.first());
        assert(forall|i: int|
            0 <= i < flags.drop_first().len() ==> #[trigger] flags.drop_first()[i] == flags[i
                + 1]);
        lemma_no_flags_no_marked(entries.drop_first(), flags.drop_first());
    }
}

/// Find the walked directories marked as submodule boundaries: those whose
/// own metadata marker `<dir>/.git` is a file rather than a directory. The
/// marker is probed on the filesystem, one flag per walked entry; given the
/// flags the probes produced, the result is exactly the flagged directories,
/// in walk order (`marked_dirs`).
pub fn marked_subdirs(entries: &Vec<WalkEntry>) -> (r: Vec<String>)
    ensures
        exists|flags: Seq<bool>|
            flags.len() == entries@.len() && crate::strutil::str_views(r@)
                == #[trigger] marked_dirs_spec(entries@, flags),
{
    let mut flags: Vec<bool> = Vec::new();
    let mut i: usize = 0;
    while i < entries.len()
        invariant
            i <= entries@.len(),
            flags@.len() == i,
        decreases entries@.len() - i,
    {
        let e = &entries[i];
        let flagged = if e.kind == EntryKind::Dir {
            let mut marker = e.path.clone();
            marker.append("/.git");
            path_is_file(marker.as_str())
        } else {
            false
        };
        flags.push(flagged);
        i = i + 1;
    }
    let r = marked_dirs(entries, &flags);
    proof {
        assert(flags@.len() == entries@.len() && crate::strutil::str_views(r@)
            == marked_dirs_spec(entries@, flags@));
    }
    r
}

/// Keep exactly the walked entries that `kept` admits, in walk order, each
/// with a leading `./` removed. No yielded path is one the matcher's veto
/// rule decides against: the last matching line of a yielded path is never a
/// veto line.
pub fn select_files(
    entries: &Vec<WalkEntry>,
    root: &str,
    marked: &Vec<String>,
    ov: &ignore::overrides::Override,
    exclude_submodules: bool,
) -> (r: Vec<String>)
    ensures
        crate::strutil::str_views(r@) == selected(
            entries@,
            root@,
            crate::strutil::str_views(marked@),
            override_root(*ov),
            override_globs(*ov),
            exclude_submodules,
        ),
        forall|k: int|
            0 <= k < r@.len() ==> !crate::patterns::veto_decides(
                override_root(*ov),
                override_globs(*ov),
                (#[trigger] r@[k])@,
                false,
            ),
{
    let ghost mviews = crate::strutil::str_views(marked@);
    let ghost ovr = override_root(*ov);
    let ghost ovg = override_globs(*ov);
    let mut r: Vec<String> = Vec::new();
    let mut i: usize = 0;
    proof {
        assert(entries@.skip(0) == entries@);
        assert(crate::strutil::str_views(r@) =~= Seq::<Seq<char>>::empty());
    }
    while i < entries.len()
        invariant
            i <= entries@.len(),
            mviews == crate::strutil::str_views(marked@),
            ovr == override_root(*ov),
            ovg == override_globs(*ov),
            selected(entries@, root@, mviews, ovr, ovg, exclude_submodules)
                == crate::strutil::str_views(r@) + selected(
                entries@.skip(i as int),
                root@,
                mviews,
                ovr,
                ovg,
                exclude_submodules,
            ),
            forall|k: int|
                0 <= k < r@.len() ==> !crate::patterns::veto_decides(
                    ovr,
                    ovg,
                    (#[trigger] r@[k])@,
                    false,
                ),
        decreases entries@.len() - i,
    {
        let e = &entries[i];
        proof {
            assert(entries@.skip(i as int).first() == entries@[i as int]);
            assert(entries@.skip(i as int).drop_first() =~= entries@.skip(i + 1));
        }
        let is_file = e.kind == EntryKind::File;
        let rel = rel_of_exec(e.path.as_str(), root);
        let git = under_git_dir_exec(rel.as_str());
        let mut sub = false;
        if exclude_submodules {
            let mut d: usize = 0;
            while d < marked.len()
                invariant
                    d <= marked@.len(),
                    mviews == crate::strutil::str_views(marked@),
                    i < entries@.len(),
                    e.path@ == entries@[i as int].path@,
                    sub <==> exists|k: int|
                        0 <= k < d && is_path_prefix(
                            #[trigger] mviews[k],
                            entries@[i as int].path@,
                        ),
                decreases marked@.len() - d,
            {
                let ghost sub0 = sub;
                if is_path_prefix_exec(marked[d].as_str(), e.path.as_str()) {
                    proof {
                        assert(mviews[d as int] == marked@[d as int]@);
                        assert(is_path_prefix(mviews[d as int], entries@[i as int].path@));
                    }
                    sub = true;
                } else {
                    proof {
                        assert(mviews[d as int] == marked@[d as int]@);
                        assert(!is_path_prefix(mviews[d as int], entries@[i as int].path@));
                    }
                }
                d = d + 1;
                proof {
                    if sub && !sub0 {
                        assert(is_path_prefix(mviews[d - 1], entries@[i as int].path@));
                    }
                }
            }
            proof {
                assert(sub == under_marked(mviews, entries@[i as int].path@));
            }
        }
        let stripped = strip_dot_exec(e.path.as_str());
        let v = override_matched(ov, stripped.as_str(), false);
        let keep = is_file && !git && !(exclude_submodules && sub) && v == MatchKind::Whitelist;
        proof {
            if !exclude_submodules {
                assert(!sub);
            }
            assert(keep == kept(entries@[i as int], root@, mviews, ovr, ovg, exclude_submodules));
        }
        let ghost prev = r@;
        if keep {
            proof {
                assert(!crate::patterns::veto_decides(ovr, ovg, stripped@, false));
            }
            r.push(stripped);
            proof {
                assert forall|k: int| 0 <= k < r@.len() implies !crate::patterns::veto_decides(
                    ovr,
                    ovg,
                    (#[trigger] r@[k])@,
                    false,
                ) by {
                    if k < prev.len() {
                        assert(r@[k] == prev[k]);
                    } else {
                        assert((r@[k])@ == strip_dot(entries@[i as int].path@));
                    }
                }
                assert(crate::strutil::str_views(r@) =~= crate::strutil::str_views(prev).push(
                    strip_dot(entries@[i as int].path@),
                ));
                assert(crate::strutil::str_views(prev) + (seq![
                    strip_dot(entries@[i as int].path@),
                ] + selected(
                    entries@.skip(i + 1),
                    root@,
                    mviews,
                    ovr,
                    ovg,
                    exclude_submodules,
                )) =~= crate::strutil::str_views(r@) + selected(
                    entries@.skip(i + 1),
                    root@,
                    mviews,
                    ovr,
                    ovg,
                    exclude_submodules,
                ));
            }
        }
        i = i + 1;
    }
    proof {
        assert(entries@.skip(entries@.len() as int) =~= Seq::<WalkEntry>::empty());
        assert(crate::strutil::str_views(r@) + Seq::<Seq<char>>::empty() =~= crate::strutil::str_views(r@));
    }
    r
}

/// Law: a path that lies under the version-control metadata directory is
/// never kept, whatever the configured patterns and flags say.
pub proof fn lemma_git_dir_never_kept(
    e: WalkEntry,
    root: Seq<char>,
    marked: Seq<Seq<char>>,
    ov_root: Seq<char>,
    ov_globs: Seq<Seq<char>>,
    exclude_submodules: bool,
)
    requires
        under_git_dir(rel_of(e.path@, root)),
    ensures
        !kept(e, root, marked, ov_root, ov_globs, exclude_submodules),
{
}

/// Law: with submodule exclusion on, an entry under a directory marked as a
/// submodule boundary is never kept.
pub proof fn lemma_submodule_excluded(
    e: WalkEntry,
    root: Seq<char>,
    marked: Seq<Seq<char>>,
    ov_root: Seq<char>,
    ov_globs: Seq<Seq<char>>,
    d: int,
)
    requires
        0 <= d < marked.len(),
        is_path_prefix(marked[d], e.path@),
    ensures
        !kept(e, root, marked, ov_root, ov_globs, true),
{
    assert(under_marked(marked, e.path@));
}

/// Law: with submodule exclusion off, the marked directories play no part in
/// the verdict on an entry.
pub proof fn lemma_submodule_ignored_when_off(
    e: WalkEntry,
    root: Seq<char>,
    marked: Seq<Seq<char>>,
    ov_root: Seq<char>,
    ov_globs: Seq<Seq<char>>,
)
    ensures
        kept(e, root, marked, ov_root, ov_globs, false) == kept(
            e,
            root,
            Seq::<Seq<char>>::empty(),
            ov_root,
            ov_globs,
            false,
        ),
{
}

/// Law: a path is never yielded when no kept entry yields it. In
/// particular, by `lemma_git_dir_never_kept` and `lemma_submodule_excluded`,
/// no path under the version-control metadata directory is ever yielded, and
/// none under a marked submodule boundary while those are excluded.
pub proof fn lemma_selected_excludes(
    entries: Seq<WalkEntry>,
    root: Seq<char>,
    marked: Seq<Seq<char>>,
    ov_root: Seq<char>,
    ov_globs: Seq<Seq<char>>,
    exclude_submodules: bool,
    p: Seq<char>,
)
    requires
        forall|j: int|
            0 <= j < entries.len() && strip_dot((#[trigger] entries[j]).path@) == p ==> !kept(
                entries[j],
                root,
                marked,
                ov_root,
                ov_globs,
                exclude_submodules,
            ),
    ensures
        !selected(entries, root, marked, ov_root, ov_globs, exclude_submodules).contains(p),
    decreases entries.len(),
{
    if entries.len() > 0 {
        let tail = entries.drop_first();
        assert(forall|j: int|
            0 <= j < tail.len() ==> #[trigger] tail[j] == entries[j + 1]);
        lemma_selected_excludes(tail, root, marked, ov_root, ov_globs, exclude_submodules, p);
        let sel = selected(entries, root, marked, ov_root, ov_globs, exclude_submodules);
        let sel_tail = selected(tail, root, marked, ov_root, ov_globs, exclude_submodules);
        if sel.contains(p) {
            let i = choose|i: int| 0 <= i < sel.len() && sel[i] == p;
            if kept(entries[0], root, marked, ov_root, ov_globs, exclude_submodules) {
                assert(strip_dot(entries[0].path@) != p);
                if i == 0 {
                    assert(sel[0] == strip_dot(entries[0].path@));
                    assert(false);
                } else {
                    assert(sel[i] == sel_tail[i - 1]);
                    assert(sel_tail.contains(p));
                    assert(false);
                }
            } else {
                assert(sel == sel_tail);
                assert(false);
            }
        }
    }
}

/// Law: when every walked entry's path begins with the root, every selected
/// path lies under the root too, up to the removal of a leading `./` (a
/// selected path is a kept entry's path with that prefix removed).
pub proof fn lemma_selected_under_root(
    entries: Seq<WalkEntry>,
    root: Seq<char>,
    marked: Seq<Seq<char>>,
    ov_root: Seq<char>,
    ov_globs: Seq<Seq<char>>,
    exclude_submodules: bool,
)
    requires
        forall|j: int| 0 <= j < entries.len() ==> path_extends((#[trigger] entries[j]).path@, root),
    ensures
        forall|k: int|
            #![trigger selected(entries, root, marked, ov_root, ov_globs, exclude_submodules)[k]]
            0 <= k < selected(entries, root, marked, ov_root, ov_globs, exclude_submodules).len()
                ==> under_walk_root(
                selected(entries, root, marked, ov_root, ov_globs, exclude_submodules)[k],
                root,
            ),
    decreases entries.len(),
{
    if entries.len() > 0 {
        let tail = entries.drop_first();
        assert(forall|j: int| 0 <= j < tail.len() ==> #[trigger] tail[j] == entries[j + 1]);
        lemma_selected_under_root(tail, root, marked, ov_root, ov_globs, exclude_submodules);
        let sel = selected(entries, root, marked, ov_root, ov_globs, exclude_submodules);
        let sel_tail = selected(tail, root, marked, ov_root, ov_globs, exclude_submodules);
        let off: int = if kept(entries[0], root, marked, ov_root, ov_globs, exclude_submodules) {
            1
        } else {
            0
        };
        assert forall|k: int|
            #![trigger selected(entries, root, marked, ov_root, ov_globs, exclude_submodules)[k]]
            0 <= k < sel.len() implies under_walk_root(sel[k], root) by {
            if k < off {
                let p = entries[0].path@;
                assert(sel[0] == strip_dot(p));
                assert(path_extends(p, root));
                if p.len() >= 2 && p[0] == '.' && p[1] == '/' {
                    assert(seq!['.', '/'] + strip_dot(p) =~= p);
                } else {
                    assert(strip_dot(p) == p);
                }
            } else {
                assert(sel[k] == selected(tail, root, marked, ov_root, ov_globs,
                    exclude_submodules)[k - off]);
            }
        }
    }
}

/// Law: every kept entry's path is yielded.
pub proof fn lemma_selected_includes(
    entries: Seq<WalkEntry>,
    root: Seq<char>,
    marked: Seq<Seq<char>>,
    ov_root: Seq<char>,
    ov_globs: Seq<Seq<char>>,
    exclude_submodules: bool,
    j: int,
)
    requires
        0 <= j < entries.len(),
        kept(entries[j], root, marked, ov_root, ov_globs, exclude_submodules),
    ensures
        selected(entries, root, marked, ov_root, ov_globs, exclude_submodules).contains(
            strip_dot(entries[j].path@),
        ),
    decreases entries.len(),
{
    let sel = selected(entries, root, marked, ov_root, ov_globs, exclude_submodules);
    let tail = entries.drop_first();
    let sel_tail = selected(tail, root, marked, ov_root, ov_globs, exclude_submodules);
    let off: int = if kept(entries[0], root, marked, ov_root, ov_globs, exclude_submodules) {
        1
    } else {
        0
    };
    if j == 0 {
        assert(sel[0] == strip_dot(entries[0].path@));
    } else {
        assert(tail[j - 1] == entries[j]);
        lemma_selected_includes(tail, root, marked, ov_root, ov_globs, exclude_submodules, j - 1);
        let k = choose|k: int|
            0 <= k < sel_tail.len() && sel_tail[k] == strip_dot(tail[j - 1].path@);
        assert(sel[k + off] == sel_tail[k]);
    }
}

} // verus!
