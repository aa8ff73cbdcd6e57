//! One configured linter: select the files its patterns admit, run its
//! command over them in batches, and combine the exit status with the change
//! detector's verdict into one outcome.
//!
//! The filesystem walk, the glob matching, the process spawning and the
//! snapshot probes are worldly; everything decided here — which entries are
//! kept, how batches are formed, what counts as success — is proved over the
//! values they hand back.

use vstd::prelude::*;
use vstd::string::StrSliceExecFns;
use crate::config::{GlobalConfig, LinterConfig};
use crate::detect::{FileProbe, Snapshot, snapshot_new, sha256_of};
use crate::exec::{ExecResult, ExecError, Xargs, batched_outcome, eff_cap};
use crate::patterns::{build_matcher, override_lines, glob_ok, build_ok, PatternError,
    escaped_spec, veto_decides};
use crate::strutil::{push_char, str_views};
use crate::walker::{walk_tree, marked_subdirs, select_files, selected, marked_dirs_spec,
    lemma_no_flags_no_marked, lemma_selected_under_root, under_walk_root, WalkEntry};

verus! {

/// The terminal artifact of one linter run: the folded execution result and
/// the files the run modified as a side effect.
pub struct Output {
    pub result: ExecResult,
    pub modified: Vec<String>,
}

impl Output {
    /// A run counts as clean exactly when every invocation exited
    /// successfully and no file was modified as a side effect.
    pub fn success(&self) -> (r: bool)
        ensures
            r == (self.result.success && self.modified@.len() == 0),
    {
        self.result.success && self.modified.len() == 0
    }

    /// The concatenated standard output of all invocations.
    pub fn stdout(&self) -> (r: &Vec<u8>)
        ensures
            r == &self.result.stdout,
    {
        &self.result.stdout
    }

    /// The concatenated standard error of all invocations.
    pub fn stderr(&self) -> (r: &Vec<u8>)
        ensures
            r == &self.result.stderr,
    {
        &self.result.stderr
    }

    /// The files the run modified as a side effect, in snapshot order.
    pub fn modified(&self) -> (r: &Vec<String>)
        ensures
            r == &self.modified,
    {
        &self.modified
    }
}

/// Why a linter run could not proceed.
#[derive(Debug)]
pub enum LintError {
    /// A configured glob the pattern parser rejects.
    BadGlob { glob: String },
    /// The compiled pattern set was rejected as a whole.
    MatcherBuild,
    /// The configured working directory is not a directory.
    NotADirectory { path: String },
    /// A selected file's path could not be resolved.
    Unresolved { path: String },
    /// One argument can never fit the platform argument-length budget.
    ArgumentTooLarge,
    /// An invocation could not be spawned or read.
    Spawn,
    /// A file to be snapshotted could not be read.
    Snapshot { path: String },
}

/// Relies on `std::path::Path::is_dir`: whether the path names a directory,
/// following symlinks. The answer depends on the filesystem.
#[verifier::external_body]
fn path_is_dir(p: &str) -> bool {
    std::path::Path::new(p).is_dir()
}

/// Relies on `std::path::Path::canonicalize`: the absolute, symlink-free form
/// of a path, or nothing when resolution fails. The answer depends on the
/// filesystem.
#[verifier::external_body]
fn canonicalize_path(p: &str) -> Option<String> {
    match std::path::Path::new(p).canonicalize() {
        Ok(pb) => Some(pb.to_string_lossy().into_owned()),
        Err(_) => None,
    }
}

/// A file path placed under a root: an absolute path stands alone; a
/// relative one is joined with one separator.
pub open spec fn join_under(root: Seq<char>, file: Seq<char>) -> Seq<char> {
    if file.len() > 0 && file[0] == '/' {
        file
    } else if root.len() == 0 {
        file
    } else if root.last() == '/' {
        root + file
    } else {
        root + seq!['/'] + file
    }
}

fn join_under_exec(root: &str, file: &str) -> (r: String)
    ensures
        r@ == join_under(root@, file@),
{
    let fn_ = file.unicode_len();
    let rn = root.unicode_len();
    if fn_ > 0 && file.get_char(0) == '/' {
        file.to_owned()
    } else if rn == 0 {
        file.to_owned()
    } else if root.get_char(rn - 1) == '/' {
        let mut r = root.to_owned();
        r.append(file);
        proof {
            assert(root@.last() == root@[rn - 1]);
        }
        r
    } else {
        let mut r = root.to_owned();
        push_char(&mut r, '/');
        r.append(file);
        proof {
            assert(root@.last() == root@[rn - 1]);
            assert(r@ =~= root@ + seq!['/'] + file@);
        }
        r
    }
}

/// One configured tool, ready to run.
pub struct Linter {
    pub command: String,
    pub options: Vec<String>,
    pub includes: Vec<String>,
    pub excludes: Vec<String>,
    pub work_dir: String,
    pub exclude_submodules: bool,
    pub single_file: bool,
    pub check_hash: bool,
}

impl Linter {
    /// The per-invocation file cap this linter runs under: one file per
    /// invocation when so configured, otherwise unbounded.
    pub open spec fn spec_cap_opt(&self) -> Option<usize> {
        if self.single_file {
            Some(1usize)
        } else {
            None
        }
    }

    /// Build a linter from its configuration, with the global excludes
    /// appended to its own.
    pub fn from_config(config: LinterConfig, global: &GlobalConfig) -> (r: Linter)
        ensures
            r.command == config.command,
            r.options == config.options,
            r.includes == config.includes,
            r.excludes@ == global.excludes@ + config.excludes@,
            r.work_dir == config.work_dir,
            r.exclude_submodules == config.exclude_submodules,
            r.single_file == config.single_file,
            r.check_hash == config.check_hash,
    {
        let mut excludes: Vec<String> = Vec::new();
        let mut i: usize = 0;
        while i < global.excludes.len()
            invariant
                i <= global.excludes@.len(),
                excludes@ == global.excludes@.take(i as int),
            decreases global.excludes@.len() - i,
        {
            excludes.push(global.excludes[i].clone());
            proof {
                assert(excludes@ =~= global.excludes@.take(i + 1));
            }
            i = i + 1;
        }
        proof {
            assert(global.excludes@.take(global.excludes@.len() as int) == global.excludes@);
        }
        let mut j: usize = 0;
        while j < config.excludes.len()
            invariant
                j <= config.excludes@.len(),
                excludes@ == global.excludes@ + config.excludes@.take(j as int),
            decreases config.excludes@.len() - j,
        {
            excludes.push(config.excludes[j].clone());
            proof {
                assert(excludes@ =~= global.excludes@ + config.excludes@.take(j + 1));
            }
            j = j + 1;
        }
        proof {
            assert(config.excludes@.take(config.excludes@.len() as int) == config.excludes@);
        }
        Linter {
            command: config.command,
            options: config.options,
            includes: config.includes,
            excludes,
            work_dir: config.work_dir,
            exclude_submodules: config.exclude_submodules,
            single_file: config.single_file,
            check_hash: config.check_hash,
        }
    }

    /// Relies on `which::which`: whether the command resolves to an
    /// executable on the search path. The answer depends on the environment.
    #[verifier::external_body]
    pub fn is_executable(&self) -> bool {
        which::which(&self.command).is_ok()
    }

    /// Select the files this linter runs over: walk the root, keep the
    /// regular files its matcher whitelists, outside the version-control
    /// metadata directory and, when configured, outside the directories whose
    /// submodule marker the walk found. Every yielded path lies under the
    /// root, up to the removal of a leading `./`, and is never one the
    /// matcher's veto rule — the excludes — decides against. With no includes
    /// configured, nothing is selected and the walk is skipped.
    pub fn paths(&self, root: &str) -> (r: Result<Vec<String>, LintError>)
        ensures
            self.includes@.len() == 0 ==> (r matches Ok(files) && files@.len() == 0),
            r matches Ok(files) ==> forall|k: int|
                0 <= k < files@.len() ==> under_walk_root((#[trigger] files@[k])@, root@),
            self.includes@.len() > 0 ==> ({
                let lines = override_lines(str_views(self.includes@), str_views(self.excludes@));
                match r {
                    Ok(files) => {
                        &&& build_ok(root@, lines)
                        &&& forall|i: int| 0 <= i < lines.len() ==> glob_ok(#[trigger] lines[i])
                        &&& exists|entries: Seq<WalkEntry>, flags: Seq<bool>|
                            flags.len() == entries.len() && str_views(files@) == #[trigger] selected(
                                entries,
                                root@,
                                marked_dirs_spec(entries, flags),
                                root@,
                                lines,
                                self.exclude_submodules,
                            )
                        &&& forall|k: int|
                            0 <= k < files@.len() ==> !veto_decides(
                                root@,
                                lines,
                                (#[trigger] files@[k])@,
                                false,
                            )
                    },
                    Err(e) => match e {
                        LintError::BadGlob { glob } => {
                            ||| exists|i: int|
                                0 <= i < self.includes@.len() && !glob_ok(
                                    escaped_spec(#[trigger] self.includes@[i]@),
                                ) && glob@ == self.includes@[i]@
                            ||| exists|i: int|
                                0 <= i < self.excludes@.len() && !glob_ok(
                                    seq!['!'] + escaped_spec(#[trigger] self.excludes@[i]@),
                                ) && glob@ == self.excludes@[i]@
                        },
                        LintError::MatcherBuild => !build_ok(root@, lines),
                        _ => false,
                    },
                }
            }),
    {
        if self.includes.len() == 0 {
            return Ok(Vec::new());
        }
        let ov = match build_matcher(root, &self.includes, &self.excludes) {
            Ok(o) => o,
            Err(PatternError::BadGlob { glob }) => {
                return Err(LintError::BadGlob { glob });
            },
            Err(PatternError::BuildFailed) => {
                return Err(LintError::MatcherBuild);
            },
        };
        let entries = walk_tree(root);
        let marked = if self.exclude_submodules {
            marked_subdirs(&entries)
        } else {
            Vec::new()
        };
        let files = select_files(&entries, root, &marked, &ov, self.exclude_submodules);
        proof {
            let lines = override_lines(str_views(self.includes@), str_views(self.excludes@));
            assert(str_views(files@) == selected(
                entries@,
                root@,
                str_views(marked@),
                root@,
                lines,
                self.exclude_submodules,
            ));
            let flags: Seq<bool> = if self.exclude_submodules {
                choose|flags: Seq<bool>|
                    flags.len() == entries@.len() && str_views(marked@)
                        == #[trigger] marked_dirs_spec(entries@, flags)
            } else {
                Seq::new(entries@.len(), |i: int| false)
            };
            if !self.exclude_submodules {
                lemma_no_flags_no_marked(entries@, flags);
                assert(str_views(marked@) =~= Seq::<Seq<char>>::empty());
                assert(str_views(marked@) == marked_dirs_spec(entries@, flags));
            }
            assert(flags.len() == entries@.len() && str_views(files@) == selected(
                entries@,
                root@,
                marked_dirs_spec(entries@, flags),
                root@,
                lines,
                self.exclude_submodules,
            ));
            lemma_selected_under_root(
                entries@,
                root@,
                str_views(marked@),
                root@,
                lines,
                self.exclude_submodules,
            );
            assert forall|k: int| 0 <= k < files@.len() implies under_walk_root(
                (#[trigger] files@[k])@,
                root@,
            ) by {
                assert(str_views(files@)[k] == (files@[k])@);
                assert(selected(
                    entries@,
                    root@,
                    str_views(marked@),
                    root@,
                    lines,
                    self.exclude_submodules,
                )[k] == str_views(files@)[k]);
            }
        }
        Ok(files)
    }

    /// The skip rule: a linter with includes configured but no matching file
    /// is skipped; one with no includes configured runs once, with no file
    /// arguments.
    pub fn should_skip(&self, files: &Vec<String>) -> (r: bool)
        ensures
            r == (self.includes@.len() > 0 && files@.len() == 0),
    {
        self.includes.len() > 0 && files.len() == 0
    }

    /// Take the snapshots for a run: one per selected file, from the caller's
    /// probes, with content digests when configured. Succeeds exactly when
    /// every probe carries what the snapshot needs.
    pub fn snapshots(&self, files: &Vec<String>, probes: &Vec<FileProbe>) -> (r: Result<
        Vec<Snapshot>,
        LintError,
    >)
        requires
            files@.len() == probes@.len(),
        ensures
            r is Ok <==> forall|i: int|
                0 <= i < probes@.len() ==> (#[trigger] probes@[i]).mtime_nanos is Some && (
                self.check_hash ==> probes@[i].content is Some),
            r matches Ok(snaps) ==> {
                &&& snaps@.len() == files@.len()
                &&& forall|i: int|
                    0 <= i < snaps@.len() ==> {
                        &&& (#[trigger] snaps@[i]).path == files@[i]
                        &&& Some(snaps@[i].mtime_nanos) == probes@[i].mtime_nanos
                        &&& (self.check_hash ==> (snaps@[i].digest matches Some(d) && d@
                            == sha256_of(probes@[i].content.unwrap()@)))
                        &&& (!self.check_hash ==> snaps@[i].digest is None)
                    }
            },
    {
        let mut snaps: Vec<Snapshot> = Vec::new();
        let mut i: usize = 0;
        while i < files.len()
            invariant
                files@.len() == probes@.len(),
                i <= files@.len(),
                snaps@.len() == i,
                forall|k: int|
                    0 <= k < i ==> (#[trigger] probes@[k]).mtime_nanos is Some && (self.check_hash
                        ==> probes@[k].content is Some),
                forall|k: int|
                    0 <= k < i ==> {
                        &&& (#[trigger] snaps@[k]).path == files@[k]
                        &&& Some(snaps@[k].mtime_nanos) == probes@[k].mtime_nanos
                        &&& (self.check_hash ==> (snaps@[k].digest matches Some(d) && d@
                            == sha256_of(probes@[k].content.unwrap()@)))
                        &&& (!self.check_hash ==> snaps@[k].digest is None)
                    },
            decreases files@.len() - i,
        {
            match snapshot_new(files[i].clone(), &probes[i], self.check_hash) {
                Ok(s) => {
                    snaps.push(s);
                },
                Err(e) => {
                    return Err(LintError::Snapshot { path: e.path });
                },
            }
            i = i + 1;
        }
        Ok(snaps)
    }

    /// Run the command over the selected files, batch by batch: the options
    /// ride along on every invocation; with a working directory configured,
    /// it must exist and each file argument is resolved to an absolute path
    /// first. The outcome folds all invocations, as `batched_outcome` says:
    /// with no working directory, the file arguments are exactly the selected
    /// files; with one, their resolved forms, one per file.
    pub fn execute(&self, root: &str, files: &Vec<String>) -> (r: Result<ExecResult, LintError>)
        ensures
            r is Ok ==> exists|
                sizes: Seq<int>,
                cut: Seq<bool>,
                parts: Seq<ExecResult>,
                argv: Seq<Seq<Seq<char>>>,
                fargs: Seq<Seq<char>>,
            |
                {
                    &&& fargs.len() == files@.len()
                    &&& (self.work_dir@.len() == 0 ==> fargs == str_views(files@))
                    &&& #[trigger] batched_outcome(
                        r->Ok_0,
                        sizes,
                        cut,
                        parts,
                        argv,
                        str_views(self.options@),
                        fargs,
                        eff_cap(self.spec_cap_opt(), files@.len() as int),
                    )
                },
            r matches Err(e) ==> match e {
                LintError::NotADirectory { path } => self.work_dir@.len() > 0 && path@
                    == self.work_dir@,
                LintError::Unresolved { path } => self.work_dir@.len() > 0 && (exists|i: int|
                    0 <= i < files@.len() && path@ == (#[trigger] files@[i])@),
                LintError::ArgumentTooLarge => true,
                LintError::Spawn => true,
                _ => false,
            },
    {
        let single: Option<usize> = if self.single_file {
            Some(1)
        } else {
            None
        };
        let mut cmd = Xargs::new(self.command.as_str(), single);
        cmd.common_args(&self.options);
        proof {
            assert(cmd.spec_common_args() =~= str_views(self.options@));
        }
        let use_workdir = self.work_dir.unicode_len() > 0;
        let mut i: usize = 0;
        proof {
            assert(str_views(files@).take(0) =~= Seq::<Seq<char>>::empty());
        }
        while i < files.len()
            invariant
                use_workdir == (self.work_dir@.len() > 0),
                i <= files@.len(),
                cmd.spec_args().len() == i,
                cmd.spec_max_args() == single,
                cmd.spec_common_args() == str_views(self.options@),
                !use_workdir ==> cmd.spec_args() == str_views(files@).take(i as int),
            decreases files@.len() - i,
        {
            if use_workdir {
                let joined = join_under_exec(root, files[i].as_str());
                match canonicalize_path(joined.as_str()) {
                    Some(p) => {
                        cmd.arg(p.as_str());
                    },
                    None => {
                        let path = files[i].clone();
                        return Err(LintError::Unresolved { path });
                    },
                }
            } else {
                cmd.arg(files[i].as_str());
                proof {
                    assert(str_views(files@)[i as int] == files@[i as int]@);
                    assert(str_views(files@).take(i + 1) =~= str_views(files@).take(
                        i as int,
                    ).push(files@[i as int]@));
                }
            }
            i = i + 1;
        }
        proof {
            if !use_workdir {
                assert(str_views(files@).take(files@.len() as int) =~= str_views(files@));
            }
        }
        if use_workdir {
            if !path_is_dir(self.work_dir.as_str()) {
                let path = self.work_dir.clone();
                return Err(LintError::NotADirectory { path });
            }
            cmd.current_dir(self.work_dir.as_str());
        }
        match cmd.output() {
            Ok(res) => {
                let r: Result<ExecResult, LintError> = Ok(res);
                proof {
                    assert(r->Ok_0 == res);
                    assert(cmd.spec_args().len() == files@.len());
                    let (s2, c2, p2, a2) = choose|
                        s2: Seq<int>,
                        c2: Seq<bool>,
                        p2: Seq<ExecResult>,
                        a2: Seq<Seq<Seq<char>>>,
                    |
                        #[trigger] batched_outcome(
                            res,
                            s2,
                            c2,
                            p2,
                            a2,
                            cmd.spec_common_args(),
                            cmd.spec_args(),
                            eff_cap(cmd.spec_max_args(), cmd.spec_args().len() as int),
                        );
                    assert(batched_outcome(
                        r->Ok_0,
                        s2,
                        c2,
                        p2,
                        a2,
                        str_views(self.options@),
                        cmd.spec_args(),
                        eff_cap(self.spec_cap_opt(), files@.len() as int),
                    ));
                }
                r
            },
            Err(ExecError::ArgumentTooLarge) => Err(LintError::ArgumentTooLarge),
            Err(ExecError::Spawn) => Err(LintError::Spawn),
        }
    }
}

} // verus!
