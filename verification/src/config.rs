//! Configuration data and the merge rule for layered configuration files.
//!
//! Files found closer to the working directory override files found nearer
//! the filesystem root, table by table: tables merge key-wise, recursively;
//! any other value is overridden wholesale. The merge logic sees a document
//! as nested tables over opaque leaves; reading files and decoding the
//! concrete syntax stay with the caller.

use vstd::prelude::*;
use vstd::string::StrSliceExecFns;
use crate::strutil::push_char;

verus! {

/// The default of a configuration flag that is on unless switched off.
pub fn bool_true() -> (r: bool)
    ensures
        r,
{
    true
}

/// Settings applied to all linters.
pub struct GlobalConfig {
    /// Glob patterns to exclude files
    pub excludes: Vec<String>,
}

impl Default for GlobalConfig {
    fn default() -> (r: GlobalConfig)
        ensures
            r.excludes@.len() == 0,
    {
        GlobalConfig { excludes: Vec::new() }
    }
}

/// One linter's settings.
pub struct LinterConfig {
    /// Linter command to run
    pub command: String,
    /// Arguments
    pub options: Vec<String>,
    /// Glob patterns for files to be processed by the linter
    pub includes: Vec<String>,
    /// Glob patterns to exclude files
    pub excludes: Vec<String>,
    /// Working directory for the linter
    pub work_dir: String,
    /// Exclude linked submodules from the walk
    pub exclude_submodules: bool,
    /// Force the linter to process one file at a time
    pub single_file: bool,
    /// Use content digests rather than timestamps to detect file changes
    pub check_hash: bool,
}

impl Default for LinterConfig {
    fn default() -> (r: LinterConfig)
        ensures
            r.command@.len() == 0,
            r.options@.len() == 0,
            r.includes@.len() == 0,
            r.excludes@.len() == 0,
            r.work_dir@.len() == 0,
            !r.exclude_submodules,
            !r.single_file,
            !r.check_hash,
    {
        LinterConfig {
            command: String::new(),
            options: Vec::new(),
            includes: Vec::new(),
            excludes: Vec::new(),
            work_dir: String::new(),
            exclude_submodules: false,
            single_file: false,
            check_hash: false,
        }
    }
}

/// Lexicographic order on names, by character.
pub open spec fn name_lt(a: Seq<char>, b: Seq<char>) -> bool
    decreases a.len(),
{
    if b.len() == 0 {
        false
    } else if a.len() == 0 {
        true
    } else if (a[0] as int) < (b[0] as int) {
        true
    } else if a[0] == b[0] {
        name_lt(a.drop_first(), b.drop_first())
    } else {
        false
    }
}

/// The whole configuration: the global settings and the configured linters,
/// by name, in rendering order.
pub struct Root {
    /// Settings applied to all linters
    pub global: GlobalConfig,
    /// Linter settings
    pub linter: Vec<(String, LinterConfig)>,
}

impl Root {
    /// The shape the loader establishes: the linters stand in strictly
    /// ascending name order, so each name appears at most once.
    pub open spec fn wf(&self) -> bool {
        forall|i: int, j: int|
            0 <= i < j < self.linter@.len() ==> name_lt(
                (#[trigger] self.linter@[i]).0@,
                (#[trigger] self.linter@[j]).0@,
            )
    }
}

impl Default for Root {
    fn default() -> (r: Root)
        ensures
            r.global.excludes@.len() == 0,
            r.linter@.len() == 0,
            r.wf(),
    {
        Root { global: GlobalConfig { excludes: Vec::new() }, linter: Vec::new() }
    }
}

/// A configuration document as the merge rule sees it: nested tables of
/// key-value pairs over opaque leaves. A leaf carries a handle by which the
/// caller finds the concrete value it stands for.
#[derive(Debug, PartialEq, Eq)]
pub enum ConfValue {
    Table(Vec<(String, ConfValue)>),
    Leaf(u64),
}

/// The mathematical shape of a configuration document.
pub enum ConfView {
    Table(Seq<(Seq<char>, ConfView)>),
    Leaf(u64),
}

/// The shape of a document.
pub open spec fn conf_view(v: ConfValue) -> ConfView
    decreases v, 0int, 0int,
{
    match v {
        ConfValue::Leaf(id) => ConfView::Leaf(id),
        ConfValue::Table(pairs) => ConfView::Table(pairs_view(pairs@)),
    }
}

/// The shape of a table's pairs.
pub open spec fn pairs_view(pairs: Seq<(String, ConfValue)>) -> Seq<(Seq<char>, ConfView)>
    decreases pairs, 1int, 0int,
{
    if pairs.len() == 0 {
        Seq::empty()
    } else {
        pairs_view(pairs.drop_last()).push((pairs.last().0@, conf_view(pairs.last().1)))
    }
}

/// The merge of one update into a base document: tables merge key-wise,
/// recursively; everything else is overridden by the update.
pub open spec fn merge_view(base: ConfView, update: ConfView) -> ConfView
    decreases update, 0int, 0int,
{
    match update {
        ConfView::Leaf(_) => update,
        ConfView::Table(up) => match base {
            ConfView::Table(bp) => ConfView::Table(merge_pairs(bp, up)),
            ConfView::Leaf(_) => update,
        },
    }
}

/// Fold the update pairs into the base pairs, left to right.
pub open spec fn merge_pairs(
    bp: Seq<(Seq<char>, ConfView)>,
    up: Seq<(Seq<char>, ConfView)>,
) -> Seq<(Seq<char>, ConfView)>
    decreases up, 1int, 0int,
{
    if up.len() == 0 {
        bp
    } else {
        merge_pairs(upd_one(bp, up.first().0, up.first().1), up.drop_first())
    }
}

/// Merge one key-value pair into a table's pairs: merge into the first pair
/// carrying the key, or append a new pair when the key is absent.
pub open spec fn upd_one(
    bp: Seq<(Seq<char>, ConfView)>,
    k: Seq<char>,
    v: ConfView,
) -> Seq<(Seq<char>, ConfView)>
    decreases v, 2int, bp.len(),
{
    if bp.len() == 0 {
        seq![(k, v)]
    } else if bp.first().0 == k {
        seq![(k, merge_view(bp.first().1, v))] + bp.drop_first()
    } else {
        seq![bp.first()] + upd_one(bp.drop_first(), k, v)
    }
}

proof fn lemma_pairs_view_index(pairs: Seq<(String, ConfValue)>)
    ensures
        pairs_view(pairs).len() == pairs.len(),
        forall|i: int|
            0 <= i < pairs.len() ==> #[trigger] pairs_view(pairs)[i] == (
            pairs[i].0@,
            conf_view(pairs[i].1),
            ),
    decreases pairs.len(),
{
    if pairs.len() > 0 {
        lemma_pairs_view_index(pairs.drop_last());
        assert(forall|i: int|
            0 <= i < pairs.len() - 1 ==> #[trigger] pairs.drop_last()[i] == pairs[i]);
        assert(forall|i: int|
            0 <= i < pairs.len() - 1 ==> #[trigger] pairs_view(pairs)[i] == pairs_view(
                pairs.drop_last(),
            )[i]);
    }
}

proof fn lemma_upd_one_found(
    bp: Seq<(Seq<char>, ConfView)>,
    k: Seq<char>,
    v: ConfView,
    idx: int,
)
    requires
        0 <= idx < bp.len(),
        bp[idx].0 == k,
        forall|i: int| 0 <= i < idx ==> (#[trigger] bp[i]).0 != k,
    ensures
        upd_one(bp, k, v) == bp.take(idx) + seq![(k, merge_view(bp[idx].1, v))] + bp.skip(idx + 1),
    decreases idx,
{
    if idx == 0 {
        assert(bp.first().0 == k);
        assert(seq![(k, merge_view(bp.first().1, v))] + bp.drop_first() =~= bp.take(0) + seq![
            (k, merge_view(bp[0].1, v)),
        ] + bp.skip(1));
    } else {
        assert(bp.first().0 != k);
        let tail = bp.drop_first();
        assert(forall|i: int| 0 <= i < tail.len() ==> #[trigger] tail[i] == bp[i + 1]);
        lemma_upd_one_found(tail, k, v, idx - 1);
        assert(seq![bp.first()] + (tail.take(idx - 1) + seq![(k, merge_view(tail[idx - 1].1, v))]
            + tail.skip(idx)) =~= bp.take(idx) + seq![(k, merge_view(bp[idx].1, v))] + bp.skip(
            idx + 1,
        ));
    }
}

proof fn lemma_upd_one_absent(bp: Seq<(Seq<char>, ConfView)>, k: Seq<char>, v: ConfView)
    requires
        forall|i: int| 0 <= i < bp.len() ==> (#[trigger] bp[i]).0 != k,
    ensures
        upd_one(bp, k, v) == bp.push((k, v)),
    decreases bp.len(),
{
    if bp.len() == 0 {
        assert(seq![(k, v)] =~= bp.push((k, v)));
    } else {
        let tail = bp.drop_first();
        assert(forall|i: int| 0 <= i < tail.len() ==> #[trigger] tail[i] == bp[i + 1]);
        lemma_upd_one_absent(tail, k, v);
        assert(seq![bp.first()] + tail.push((k, v)) =~= bp.push((k, v)));
    }
}

/// Deep-copy a document.
pub fn clone_conf(v: &ConfValue) -> (r: ConfValue)
    ensures
        conf_view(r) == conf_view(*v),
    decreases *v, 0int, 0int,
{
    match v {
        ConfValue::Leaf(id) => ConfValue::Leaf(*id),
        ConfValue::Table(pairs) => ConfValue::Table(clone_pairs(pairs)),
    }
}

fn clone_pairs(pairs: &Vec<(String, ConfValue)>) -> (r: Vec<(String, ConfValue)>)
    ensures
        pairs_view(r@) == pairs_view(pairs@),
    decreases pairs@, 1int, 0int,
{
    let mut r: Vec<(String, ConfValue)> = Vec::new();
    let mut i: usize = 0;
    while i < pairs.len()
        invariant
            i <= pairs@.len(),
            r@.len() == i,
            forall|n: int|
                0 <= n < i ==> (#[trigger] r@[n]).0@ == pairs@[n].0@ && conf_view(r@[n].1)
                    == conf_view(pairs@[n].1),
        decreases pairs@.len() - i,
    {
        let key = pairs[i].0.clone();
        let val = clone_conf(&pairs[i].1);
        r.push((key, val));
        i = i + 1;
    }
    proof {
        lemma_pairs_view_index(r@);
        lemma_pairs_view_index(pairs@);
        assert(pairs_view(r@) =~= pairs_view(pairs@));
    }
    r
}

/// Merge one key-value pair into a table's pairs.
fn upd_one_exec(acc: &Vec<(String, ConfValue)>, k: &String, v: &ConfValue) -> (r: Vec<
    (String, ConfValue),
>)
    ensures
        pairs_view(r@) == upd_one(pairs_view(acc@), k@, conf_view(*v)),
    decreases *v, 2int, 0int,
{
    proof {
        lemma_pairs_view_index(acc@);
    }
    let ghost bp = pairs_view(acc@);
    let n = acc.len();
    let mut idx: usize = 0;
    let mut found = false;
    while idx < n && !found
        invariant
            n == acc@.len(),
            idx <= n,
            forall|i: int| 0 <= i < idx ==> (#[trigger] acc@[i]).0@ != k@,
            found ==> idx < n && acc@[idx as int].0@ == k@,
        decreases n - idx + (if found {
            0int
        } else {
            1int
        }),
    {
        if acc[idx].0.eq(k) {
            found = true;
        } else {
            idx = idx + 1;
        }
    }
    let mut r: Vec<(String, ConfValue)> = Vec::new();
    if found {
        let mut i: usize = 0;
        while i < idx
            invariant
                idx < n,
                n == acc@.len(),
                i <= idx,
                r@.len() == i,
                forall|m: int|
                    0 <= m < i ==> (#[trigger] r@[m]).0@ == acc@[m].0@ && conf_view(r@[m].1)
                        == conf_view(acc@[m].1),
            decreases idx - i,
        {
            r.push((acc[i].0.clone(), clone_conf(&acc[i].1)));
            i = i + 1;
        }
        let merged = merge(&acc[idx].1, v);
        r.push((k.clone(), merged));
        let mut j: usize = idx + 1;
        while j < n
            invariant
                idx < n,
                n == acc@.len(),
                idx + 1 <= j <= n,
                r@.len() == idx + 1 + (j - idx - 1),
                forall|m: int|
                    0 <= m < idx ==> (#[trigger] r@[m]).0@ == acc@[m].0@ && conf_view(r@[m].1)
                        == conf_view(acc@[m].1),
                r@[idx as int].0@ == k@,
                conf_view(r@[idx as int].1) == merge_view(conf_view(acc@[idx as int].1), conf_view(*v)),
                forall|m: int|
                    idx < m < j ==> (#[trigger] r@[m]).0@ == acc@[m].0@ && conf_view(r@[m].1)
                        == conf_view(acc@[m].1),
            decreases n - j,
        {
            r.push((acc[j].0.clone(), clone_conf(&acc[j].1)));
            j = j + 1;
        }
        proof {
            assert forall|i: int| 0 <= i < idx implies (#[trigger] bp[i]).0 != k@ by {
                assert(bp[i] == (acc@[i].0@, conf_view(acc@[i].1)));
            }
            assert(bp[idx as int].0 == k@);
            lemma_upd_one_found(bp, k@, conf_view(*v), idx as int);
            lemma_pairs_view_index(r@);
            assert(pairs_view(r@) =~= bp.take(idx as int) + seq![
                (k@, merge_view(bp[idx as int].1, conf_view(*v))),
            ] + bp.skip(idx as int + 1));
        }
    } else {
        let mut i: usize = 0;
        while i < n
            invariant
                n == acc@.len(),
                i <= n,
                r@.len() == i,
                forall|m: int|
                    0 <= m < i ==> (#[trigger] r@[m]).0@ == acc@[m].0@ && conf_view(r@[m].1)
                        == conf_view(acc@[m].1),
            decreases n - i,
        {
            r.push((acc[i].0.clone(), clone_conf(&acc[i].1)));
            i = i + 1;
        }
        r.push((k.clone(), clone_conf(v)));
        proof {
            assert forall|i: int| 0 <= i < bp.len() implies (#[trigger] bp[i]).0 != k@ by {
                assert(bp[i] == (acc@[i].0@, conf_view(acc@[i].1)));
            }
            lemma_upd_one_absent(bp, k@, conf_view(*v));
            lemma_pairs_view_index(r@);
            assert(pairs_view(r@) =~= bp.push((k@, conf_view(*v))));
        }
    }
    r
}

/// Fold the update pairs into the base pairs, left to right.
fn merge_pairs_exec(base: Vec<(String, ConfValue)>, up: &Vec<(String, ConfValue)>) -> (r: Vec<
    (String, ConfValue),
>)
    ensures
        pairs_view(r@) == merge_pairs(pairs_view(base@), pairs_view(up@)),
    decreases up@, 1int, 0int,
{
    let ghost upv = pairs_view(up@);
    proof {
        lemma_pairs_view_index(up@);
        assert(upv.skip(0) == upv);
    }
    let mut acc = base;
    let ghost bp0 = pairs_view(acc@);
    let mut j: usize = 0;
    while j < up.len()
        invariant
            j <= up@.len(),
            upv == pairs_view(up@),
            upv.len() == up@.len(),
            forall|i: int|
                0 <= i < up@.len() ==> #[trigger] upv[i] == (up@[i].0@, conf_view(up@[i].1)),
            merge_pairs(bp0, upv) == merge_pairs(pairs_view(acc@), upv.skip(j as int)),
        decreases up@.len() - j,
    {
        proof {
            assert(upv.skip(j as int).first() == upv[j as int]);
            assert(upv.skip(j as int).drop_first() =~= upv.skip(j + 1));
        }
        let next = upd_one_exec(&acc, &up[j].0, &up[j].1);
        acc = next;
        j = j + 1;
    }
    proof {
        assert(upv.skip(up@.len() as int) =~= Seq::<(Seq<char>, ConfView)>::empty());
    }
    acc
}

/// Merge an update document into a base document: tables merge key-wise,
/// recursively; everything else is overridden by the update.
pub fn merge(base: &ConfValue, update: &ConfValue) -> (r: ConfValue)
    ensures
        conf_view(r) == merge_view(conf_view(*base), conf_view(*update)),
    decreases *update, 0int, 0int,
{
    match update {
        ConfValue::Leaf(id) => ConfValue::Leaf(*id),
        ConfValue::Table(up) => match base {
            ConfValue::Table(bpv) => {
                let acc = clone_pairs(bpv);
                proof {
                    assert(pairs_view(acc@) == pairs_view(bpv@));
                }
                ConfValue::Table(merge_pairs_exec(acc, up))
            },
            ConfValue::Leaf(_) => clone_conf(update),
        },
    }
}

/// The position of the last separator in a path, or -1 when it has none.
pub open spec fn last_slash(s: Seq<char>) -> int
    decreases s.len(),
{
    if s.len() == 0 {
        -1
    } else if s.last() == '/' {
        s.len() - 1
    } else {
        last_slash(s.drop_last())
    }
}

/// The parent directory of a path without trailing separators: everything
/// before the last separator, the bare root for a path directly under it, the
/// empty path for a lone relative component, and nothing for the root itself
/// or the empty path.
pub open spec fn parent_of(s: Seq<char>) -> Option<Seq<char>> {
    if s.len() == 0 {
        Option::None
    } else {
        let i = last_slash(s);
        if i == -1 {
            Option::Some(Seq::empty())
        } else if i == 0 {
            if s.len() == 1 {
                Option::None
            } else {
                Option::Some(seq!['/'])
            }
        } else {
            Option::Some(s.take(i))
        }
    }
}

/// The configuration file name looked for in every directory of the chain.
pub open spec fn join_config(p: Seq<char>) -> Seq<char> {
    if p.len() == 0 {
        "multilint.toml"@
    } else if p.last() == '/' {
        p + "multilint.toml"@
    } else {
        p + seq!['/'] + "multilint.toml"@
    }
}

/// The directories from the filesystem root down to the starting directory.
pub open spec fn dir_chain(s: Seq<char>) -> Seq<Seq<char>>
    decreases s.len(),
    via dir_chain_decreases
{
    match parent_of(s) {
        Option::None => seq![s],
        Option::Some(p) => dir_chain(p).push(s),
    }
}

#[via_fn]
proof fn dir_chain_decreases(s: Seq<char>) {
    if parent_of(s) is Some {
        lemma_parent_shorter(s);
    }
}

/// The configuration files to look for, root first: one candidate per
/// directory on the chain from the filesystem root down to the start, so that
/// a file closer to the start overrides those above it.
pub open spec fn config_candidates_spec(s: Seq<char>) -> Seq<Seq<char>> {
    dir_chain(s).map_values(|p: Seq<char>| join_config(p))
}

proof fn lemma_parent_shorter(s: Seq<char>)
    requires
        parent_of(s) is Some,
    ensures
        parent_of(s).unwrap().len() < s.len(),
        s.len() > 0,
{
    lemma_last_slash_range(s);
}

proof fn lemma_last_slash_range(s: Seq<char>)
    ensures
        -1 <= last_slash(s) < s.len(),
        last_slash(s) >= 0 ==> s[last_slash(s)] == '/',
        forall|j: int| last_slash(s) < j < s.len() ==> s[j] != '/',
    decreases s.len(),
{
    if s.len() > 0 && s.last() != '/' {
        lemma_last_slash_range(s.drop_last());
        assert(forall|j: int| 0 <= j < s.len() - 1 ==> s.drop_last()[j] == s[j]);
    }
}

/// Find the last separator of a path, if any.
fn last_slash_exec(chars: &Vec<char>) -> (r: Option<usize>)
    ensures
        match r {
            Option::Some(i) => i < chars@.len() && last_slash(chars@) == i as int,
            Option::None => last_slash(chars@) == -1,
        },
{
    let mut i: usize = chars.len();
    proof {
        assert(chars@.take(chars@.len() as int) == chars@);
    }
    while i > 0
        invariant
            i <= chars@.len(),
            last_slash(chars@) == last_slash(chars@.take(i as int)),
        decreases i,
    {
        proof {
            assert(chars@.take(i as int).last() == chars@[i - 1]);
            assert(chars@.take(i as int).drop_last() =~= chars@.take(i - 1));
        }
        if chars[i - 1] == '/' {
            return Option::Some(i - 1);
        }
        i = i - 1;
    }
    proof {
        assert(chars@.take(0) =~= Seq::<char>::empty());
    }
    Option::None
}

/// Compute the parent directory of a path.
pub fn parent_dir(path: &str) -> (r: Option<String>)
    ensures
        match r {
            Option::Some(p) => parent_of(path@) == Option::Some(p@) && p@.len() < path@.len(),
            Option::None => parent_of(path@) is None,
        },
{
    let chars = crate::strutil::str_to_chars(path);
    let n = chars.len();
    if n == 0 {
        return Option::None;
    }
    match last_slash_exec(&chars) {
        Option::None => Option::Some(String::new()),
        Option::Some(0) => {
            if n == 1 {
                Option::None
            } else {
                let mut root = String::new();
                push_char(&mut root, '/');
                proof {
                    assert(root@ =~= seq!['/']);
                }
                Option::Some(root)
            }
        },
        Option::Some(i) => {
            let prefix = path.substring_char(0, i);
            proof {
                assert(prefix@ =~= path@.take(i as int));
            }
            Option::Some(prefix.to_owned())
        },
    }
}

/// Join a directory of the chain with the configuration file name.
fn join_config_exec(p: &str) -> (r: String)
    ensures
        r@ == join_config(p@),
{
    let n = p.unicode_len();
    if n == 0 {
        let r = String::new();
        let mut r = r;
        r.append("multilint.toml");
        proof {
            assert(r@ =~= "multilint.toml"@);
        }
        r
    } else if p.get_char(n - 1) == '/' {
        let mut r = p.to_owned();
        r.append("multilint.toml");
        proof {
            assert(p@.last() == p@[n - 1]);
        }
        r
    } else {
        let mut r = p.to_owned();
        push_char(&mut r, '/');
        r.append("multilint.toml");
        proof {
            assert(r@ =~= p@ + seq!['/'] + "multilint.toml"@);
        }
        r
    }
}

/// The configuration files to look for, from the filesystem root down to the
/// starting directory: whichever of them exist are read and merged in this
/// order, so nearer files override.
pub fn config_candidates(start: &str) -> (r: Vec<String>)
    ensures
        crate::strutil::str_views(r@) == config_candidates_spec(start@),
{
    let mut rev: Vec<String> = Vec::new();
    let mut cur: String = start.to_owned();
    let mut done = false;
    while !done
        invariant
            !done ==> config_candidates_spec(start@) == dir_chain(cur@).map_values(
                |p: Seq<char>| join_config(p),
            ) + crate::strutil::str_views(rev@).reverse(),
            done ==> config_candidates_spec(start@) == crate::strutil::str_views(rev@).reverse(),
        decreases cur@.len() + (if done {
            0int
        } else {
            1int
        }),
    {
        let ghost prev = rev@;
        let ghost prev_cur = cur@;
        rev.push(join_config_exec(cur.as_str()));
        proof {
            assert(crate::strutil::str_views(rev@) =~= crate::strutil::str_views(prev).push(
                join_config(prev_cur),
            ));
            assert(crate::strutil::str_views(rev@).reverse() =~= seq![join_config(prev_cur)]
                + crate::strutil::str_views(prev).reverse());
            assert(dir_chain(prev_cur).map_values(|p: Seq<char>| join_config(p)).drop_last()
                =~= (match parent_of(prev_cur) {
                Option::None => Seq::<Seq<char>>::empty(),
                Option::Some(pp) => dir_chain(pp).map_values(|p: Seq<char>| join_config(p)),
            }));
            assert(dir_chain(prev_cur).map_values(|p: Seq<char>| join_config(p)).last()
                == join_config(prev_cur));
        }
        match parent_dir(cur.as_str()) {
            Option::None => {
                done = true;
                proof {
                    assert(dir_chain(prev_cur) =~= seq![prev_cur]);
                    assert(dir_chain(prev_cur).map_values(|p: Seq<char>| join_config(p)) =~= seq![
                        join_config(prev_cur),
                    ]);
                    assert(config_candidates_spec(start@) =~= crate::strutil::str_views(
                        rev@,
                    ).reverse());
                }
            },
            Option::Some(p) => {
                proof {
                    lemma_parent_shorter(prev_cur);
                    assert(dir_chain(prev_cur).map_values(|q: Seq<char>| join_config(q))
                        =~= dir_chain(p@).map_values(|q: Seq<char>| join_config(q)) + seq![
                        join_config(prev_cur),
                    ]);
                    assert(config_candidates_spec(start@) =~= dir_chain(p@).map_values(
                        |q: Seq<char>| join_config(q),
                    ) + crate::strutil::str_views(rev@).reverse());
                }
                cur = p;
            },
        }
    }
    let mut r: Vec<String> = Vec::new();
    let mut i: usize = rev.len();
    while i > 0
        invariant
            i <= rev@.len(),
            r@.len() == rev@.len() - i,
            forall|k: int|
                0 <= k < r@.len() ==> (#[trigger] r@[k])@ == rev@[rev@.len() - 1 - k]@,
        decreases i,
    {
        r.push(rev[i - 1].clone());
        i = i - 1;
    }
    proof {
        assert(crate::strutil::str_views(r@) =~= crate::strutil::str_views(rev@).reverse());
    }
    r
}

} // verus!
