//! The pattern matcher: include globs as an allow-list, exclude globs layered
//! on top as veto rules, compiled to one override matcher.
//!
//! The glob dialect and the matching itself come from the `ignore` crate; this
//! module pins down how the matcher is assembled from a linter's configured
//! patterns (escaping, ordering, veto prefixing) and names the verdict so the
//! tree walker's contracts can speak of it.

use vstd::prelude::*;
use vstd::string::StrSliceExecFns;
use crate::strutil::{push_char, str_views};

verus! {

#[verifier::external_type_specification]
#[verifier::external_body]
pub struct ExOverride(ignore::overrides::Override);

#[verifier::external_type_specification]
#[verifier::external_body]
pub struct ExOverrideBuilder(ignore::overrides::OverrideBuilder);

/// The verdict of the override matcher on one path.
#[derive(PartialEq, Eq, Structural, Clone, Copy, Debug)]
pub enum MatchKind {
    Whitelist,
    Ignore,
    NoMatch,
}

/// The root directory an override builder was created with.
pub uninterp spec fn builder_root(b: ignore::overrides::OverrideBuilder) -> Seq<char>;

/// The glob lines added to an override builder so far, in order.
pub uninterp spec fn builder_globs(b: ignore::overrides::OverrideBuilder) -> Seq<Seq<char>>;

/// The root directory of a built override matcher.
pub uninterp spec fn override_root(o: ignore::overrides::Override) -> Seq<char>;

/// The glob lines a built override matcher was built from, in order.
pub uninterp spec fn override_globs(o: ignore::overrides::Override) -> Seq<Seq<char>>;

/// Whether a single glob line is accepted by the override glob parser.
pub uninterp spec fn glob_ok(glob: Seq<char>) -> bool;

/// Whether a matcher can be built from these glob lines.
pub uninterp spec fn build_ok(root: Seq<char>, globs: Seq<Seq<char>>) -> bool;

/// The verdict of override matching: a function of the root, the glob lines,
/// the path and the directory flag.
pub uninterp spec fn match_verdict(
    root: Seq<char>,
    globs: Seq<Seq<char>>,
    path: Seq<char>,
    is_dir: bool,
) -> MatchKind;

/// Whether one glob line matches a path: the gitignore line dialect, applied
/// relative to the root, with the directory-only rule; a comment or blank
/// line, which contributes no pattern, matches nothing.
pub uninterp spec fn glob_line_match(
    root: Seq<char>,
    line: Seq<char>,
    path: Seq<char>,
    is_dir: bool,
) -> bool;

/// The position of the last line that matches the path — the one with the
/// highest precedence — or -1 when none does.
pub open spec fn last_match(
    root: Seq<char>,
    lines: Seq<Seq<char>>,
    path: Seq<char>,
    is_dir: bool,
) -> int
    decreases lines.len(),
{
    if lines.len() == 0 {
        -1
    } else if glob_line_match(root, lines.last(), path, is_dir) {
        lines.len() - 1
    } else {
        last_match(root, lines.drop_last(), path, is_dir)
    }
}

/// The veto rule decides the path: the last matching line begins with `!`.
pub open spec fn veto_decides(
    root: Seq<char>,
    lines: Seq<Seq<char>>,
    path: Seq<char>,
    is_dir: bool,
) -> bool {
    let m = last_match(root, lines, path, is_dir);
    &&& m >= 0
    &&& lines[m].len() > 0
    &&& lines[m][0] == '!'
}

/// The last matching line is in range, matches, and nothing after it does.
pub proof fn lemma_last_match_bounds(
    root: Seq<char>,
    lines: Seq<Seq<char>>,
    path: Seq<char>,
    is_dir: bool,
)
    ensures
        -1 <= last_match(root, lines, path, is_dir) < lines.len(),
        last_match(root, lines, path, is_dir) >= 0 ==> glob_line_match(
            root,
            lines[last_match(root, lines, path, is_dir)],
            path,
            is_dir,
        ),
        forall|k: int|
            last_match(root, lines, path, is_dir) < k < lines.len() ==> !glob_line_match(
                root,
                #[trigger] lines[k],
                path,
                is_dir,
            ),
    decreases lines.len(),
{
    if lines.len() > 0 && !glob_line_match(root, lines.last(), path, is_dir) {
        lemma_last_match_bounds(root, lines.drop_last(), path, is_dir);
        assert forall|k: int|
            last_match(root, lines, path, is_dir) < k < lines.len() implies !glob_line_match(
            root,
            #[trigger] lines[k],
            path,
            is_dir,
        ) by {
            if k < lines.len() - 1 {
                assert(lines.drop_last()[k] == lines[k]);
            } else {
                assert(lines[k] == lines.last());
            }
        }
        if last_match(root, lines, path, is_dir) >= 0 {
            assert(lines.drop_last()[last_match(root, lines, path, is_dir)] == lines[last_match(
                root,
                lines,
                path,
                is_dir,
            )]);
        }
    }
}

/// No matching line stands after the last matching one.
pub proof fn lemma_last_match_ge(
    root: Seq<char>,
    lines: Seq<Seq<char>>,
    path: Seq<char>,
    is_dir: bool,
    j: int,
)
    requires
        0 <= j < lines.len(),
        glob_line_match(root, lines[j], path, is_dir),
    ensures
        last_match(root, lines, path, is_dir) >= j,
    decreases lines.len(),
{
    if !glob_line_match(root, lines.last(), path, is_dir) {
        assert(j < lines.len() - 1);
        assert(lines.drop_last()[j] == lines[j]);
        lemma_last_match_ge(root, lines.drop_last(), path, is_dir, j);
    }
}

/// Relies on `ignore::overrides::OverrideBuilder::new`: a fresh builder for
/// the given root, with no globs.
#[verifier::external_body]
fn override_builder_new(root: &str) -> (b: ignore::overrides::OverrideBuilder)
    ensures
        builder_root(b) == root@,
        builder_globs(b) == Seq::<Seq<char>>::empty(),
{
    ignore::overrides::OverrideBuilder::new(root)
}

/// Relies on `ignore::overrides::OverrideBuilder::add`: appends the glob
/// line, failing exactly on a line the glob parser rejects and leaving the
/// builder unchanged in that case.
#[verifier::external_body]
fn override_builder_add(b: &mut ignore::overrides::OverrideBuilder, glob: &str) -> (r: bool)
    ensures
        r <==> glob_ok(glob@),
        builder_root(*final(b)) == builder_root(*old(b)),
        r ==> builder_globs(*final(b)) == builder_globs(*old(b)).push(glob@),
        !r ==> builder_globs(*final(b)) == builder_globs(*old(b)),
{
    b.add(glob).is_ok()
}

/// Relies on `ignore::overrides::OverrideBuilder::build`: compiles the added
/// glob lines into a matcher over the builder's root.
#[verifier::external_body]
fn override_build(b: &ignore::overrides::OverrideBuilder) -> (r: Option<
    ignore::overrides::Override,
>)
    ensures
        r is Some <==> build_ok(builder_root(*b), builder_globs(*b)),
        r is Some ==> override_root(r.unwrap()) == builder_root(*b) && override_globs(r.unwrap())
            == builder_globs(*b),
{
    b.build().ok()
}

/// Relies on `ignore::overrides::Override::matched`: the verdict on a path,
/// determined by the matcher's root, its glob lines, the path and the
/// directory flag. The line matched with the highest precedence is the last
/// matching one, and a line beginning with `!` is a veto: when such a line
/// decides, the verdict is `Ignore`. A whitelist verdict needs a matching
/// line.
#[verifier::external_body]
pub(crate) fn override_matched(o: &ignore::overrides::Override, path: &str, is_dir: bool) -> (r:
    MatchKind)
    ensures
        r == match_verdict(override_root(*o), override_globs(*o), path@, is_dir),
        veto_decides(override_root(*o), override_globs(*o), path@, is_dir) ==> r
            == MatchKind::Ignore,
        (forall|j: int|
            0 <= j < override_globs(*o).len() ==> !glob_line_match(
                override_root(*o),
                #[trigger] override_globs(*o)[j],
                path@,
                is_dir,
            )) ==> r != MatchKind::Whitelist,
{
    match o.matched(path, is_dir) {
        ignore::Match::Whitelist(_) => MatchKind::Whitelist,
        ignore::Match::Ignore(_) => MatchKind::Ignore,
        ignore::Match::None => MatchKind::NoMatch,
    }
}

/// A user glob with its leading `!` escaped, so that it cannot be mistaken
/// for the veto prefix this module adds itself.
pub open spec fn escaped_spec(glob: Seq<char>) -> Seq<char> {
    if glob.len() > 0 && glob[0] == '!' {
        seq!['\\'] + glob
    } else {
        glob
    }
}

/// Escape a leading `!` in a user-supplied glob.
pub fn escape_pattern(glob: &str) -> (r: String)
    ensures
        r@ == escaped_spec(glob@),
{
    if glob.unicode_len() > 0 && glob.get_char(0) == '!' {
        let mut r = String::new();
        push_char(&mut r, '\\');
        r.append(glob);
        proof {
            assert(r@ =~= seq!['\\'] + glob@);
        }
        r
    } else {
        glob.to_owned()
    }
}

/// The glob lines a linter's matcher is built from: every include, escaped,
/// as an allow line; then every exclude, escaped and prefixed with `!`, as a
/// veto line. A path matching a veto line is rejected even if an allow line
/// also matches it.
pub open spec fn override_lines(includes: Seq<Seq<char>>, excludes: Seq<Seq<char>>) -> Seq<
    Seq<char>,
> {
    includes.map_values(|g: Seq<char>| escaped_spec(g)) + excludes.map_values(
        |g: Seq<char>| seq!['!'] + escaped_spec(g),
    )
}

/// A matcher that could not be assembled: either one glob is unparsable, or
/// the compiled set was rejected.
#[derive(Debug)]
pub enum PatternError {
    BadGlob { glob: String },
    BuildFailed,
}

/// Build the override matcher for a linter: includes first, excludes as veto
/// lines after them.
pub fn build_matcher(root: &str, includes: &Vec<String>, excludes: &Vec<String>) -> (r: Result<
    ignore::overrides::Override,
    PatternError,
>)
    ensures
        ({
            let lines = override_lines(str_views(includes@), str_views(excludes@));
            match r {
                Ok(o) => {
                    &&& override_root(o) == root@
                    &&& override_globs(o) == lines
                    &&& forall|i: int| 0 <= i < lines.len() ==> glob_ok(#[trigger] lines[i])
                    &&& build_ok(root@, lines)
                },
                Err(e) => match e {
                    PatternError::BadGlob { glob } => {
                        ||| exists|i: int|
                            0 <= i < includes@.len() && !glob_ok(
                                escaped_spec(#[trigger] includes@[i]@),
                            ) && glob@ == includes@[i]@
                        ||| exists|i: int|
                            0 <= i < excludes@.len() && !glob_ok(
                                seq!['!'] + escaped_spec(#[trigger] excludes@[i]@),
                            ) && glob@ == excludes@[i]@
                    },
                    PatternError::BuildFailed => !build_ok(root@, lines),
                },
            }
        }),
{
    let ghost lines = override_lines(str_views(includes@), str_views(excludes@));
    let mut b = override_builder_new(root);
    let mut i: usize = 0;
    while i < includes.len()
        invariant
            i <= includes@.len(),
            builder_root(b) == root@,
            builder_globs(b) == str_views(includes@.take(i as int)).map_values(
                |g: Seq<char>| escaped_spec(g),
            ),
            forall|k: int| 0 <= k < i ==> glob_ok(escaped_spec(#[trigger] includes@[k]@)),
        decreases includes@.len() - i,
    {
        let ghost prev = builder_globs(b);
        let line = escape_pattern(includes[i].as_str());
        if !override_builder_add(&mut b, line.as_str()) {
            let g = includes[i].clone();
            return Err(PatternError::BadGlob { glob: g });
        }
        proof {
            assert(builder_globs(b) =~= str_views(includes@.take(i + 1)).map_values(
                |g: Seq<char>| escaped_spec(g),
            ));
        }
        i = i + 1;
    }
    proof {
        assert(includes@.take(includes@.len() as int) == includes@);
    }
    let mut j: usize = 0;
    while j < excludes.len()
        invariant
            j <= excludes@.len(),
            builder_root(b) == root@,
            builder_globs(b) == str_views(includes@).map_values(|g: Seq<char>| escaped_spec(g))
                + str_views(excludes@.take(j as int)).map_values(
                |g: Seq<char>| seq!['!'] + escaped_spec(g),
            ),
            forall|k: int| 0 <= k < j ==> glob_ok(seq!['!'] + escaped_spec(#[trigger] excludes@[k]@)),
        decreases excludes@.len() - j,
    {
        let escaped = escape_pattern(excludes[j].as_str());
        let mut line = String::new();
        push_char(&mut line, '!');
        line.append(escaped.as_str());
        proof {
            assert(line@ =~= seq!['!'] + escaped_spec(excludes@[j as int]@));
        }
        if !override_builder_add(&mut b, line.as_str()) {
            let g = excludes[j].clone();
            return Err(PatternError::BadGlob { glob: g });
        }
        proof {
            assert(builder_globs(b) =~= str_views(includes@).map_values(
                |g: Seq<char>| escaped_spec(g),
            ) + str_views(excludes@.take(j + 1)).map_values(
                |g: Seq<char>| seq!['!'] + escaped_spec(g),
            ));
        }
        j = j + 1;
    }
    proof {
        assert(excludes@.take(excludes@.len() as int) == excludes@);
        assert(builder_globs(b) == lines);
        assert forall|i: int| 0 <= i < lines.len() implies glob_ok(#[trigger] lines[i]) by {
            let ni = includes@.len() as int;
            if i < ni {
                assert(lines[i] == escaped_spec(includes@[i]@));
            } else {
                assert(lines[i] == seq!['!'] + escaped_spec(excludes@[i - ni]@));
            }
        }
    }
    match override_build(&b) {
        Option::Some(o) => Ok(o),
        Option::None => Err(PatternError::BuildFailed),
    }
}

/// Law (veto precedence): under the lines the matcher is built from —
/// includes first, then every exclude as a veto line — a path that matches
/// any exclude's veto line is decided by the veto rule, whatever include
/// lines also match it: every line after the includes begins with `!`, so the
/// last matching line does.
pub proof fn lemma_veto_precedence(
    includes: Seq<Seq<char>>,
    excludes: Seq<Seq<char>>,
    root: Seq<char>,
    path: Seq<char>,
    is_dir: bool,
    j: int,
)
    requires
        0 <= j < excludes.len(),
        glob_line_match(
            root,
            override_lines(includes, excludes)[includes.len() + j],
            path,
            is_dir,
        ),
    ensures
        veto_decides(root, override_lines(includes, excludes), path, is_dir),
{
    let lines = override_lines(includes, excludes);
    lemma_last_match_ge(root, lines, path, is_dir, includes.len() as int + j);
    lemma_last_match_bounds(root, lines, path, is_dir);
    let m = last_match(root, lines, path, is_dir);
    assert(lines[m] == seq!['!'] + escaped_spec(excludes[m - includes.len()]));
    assert(lines[m][0] == '!');
}

/// Law (veto precedence, the yield side): a path on which the veto rule does
/// not decide — as the selection guarantees of every yielded path — matches
/// no exclude's veto line, even where include lines match it.
pub proof fn lemma_unvetoed_matches_no_exclude(
    includes: Seq<Seq<char>>,
    excludes: Seq<Seq<char>>,
    root: Seq<char>,
    path: Seq<char>,
    is_dir: bool,
    j: int,
)
    requires
        0 <= j < excludes.len(),
        !veto_decides(root, override_lines(includes, excludes), path, is_dir),
    ensures
        !glob_line_match(
            root,
            override_lines(includes, excludes)[includes.len() + j],
            path,
            is_dir,
        ),
{
    if glob_line_match(root, override_lines(includes, excludes)[includes.len() + j], path,
        is_dir) {
        lemma_veto_precedence(includes, excludes, root, path, is_dir, j);
    }
}

} // verus!
