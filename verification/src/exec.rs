//! The batched executor: run one external program over a long file-argument
//! list, splitting the list across as many invocations as the platform
//! argument-length budget and the configured per-invocation cap require, then
//! fold the invocations' outcomes into one logical result.
//!
//! The budget checks and the process spawning come from the `argmax` crate;
//! how the file list is consumed and how outcomes fold is pinned down here.

use vstd::prelude::*;
use crate::strutil::str_views;

verus! {

/// The outcome of one external program invocation, or of folding several:
/// whether every invocation exited successfully, and the concatenation of
/// their standard output and standard error streams, in invocation order.
pub struct ExecResult {
    pub success: bool,
    pub stdout: Vec<u8>,
    pub stderr: Vec<u8>,
}

#[verifier::external_type_specification]
#[verifier::external_body]
pub struct ExCommand(argmax::Command);

/// The program an argument-length-aware command was created for.
pub uninterp spec fn cmd_program(c: argmax::Command) -> Seq<char>;

/// The arguments added to an argument-length-aware command so far, in order.
pub uninterp spec fn cmd_args(c: argmax::Command) -> Seq<Seq<char>>;

/// Relies on `argmax::Command::new`: a fresh command for the program, with no
/// arguments.
#[verifier::external_body]
fn cmd_new(program: &str) -> (c: argmax::Command)
    ensures
        cmd_program(c) == program@,
        cmd_args(c) == Seq::<Seq<char>>::empty(),
{
    argmax::Command::new(program)
}

/// Relies on `argmax::Command::current_dir`: sets the child's working
/// directory and leaves the program and the arguments as they were.
#[verifier::external_body]
fn cmd_current_dir(c: &mut argmax::Command, dir: &str)
    ensures
        cmd_program(*final(c)) == cmd_program(*old(c)),
        cmd_args(*final(c)) == cmd_args(*old(c)),
{
    c.current_dir(dir);
}

/// Relies on `argmax::Command::try_arg`: appends the argument when it fits
/// the remaining platform argument-length budget, and leaves the command
/// unchanged when it does not. Whether an argument fits depends on the
/// platform and the environment.
#[verifier::external_body]
fn cmd_try_arg(c: &mut argmax::Command, arg: &str) -> (r: bool)
    ensures
        cmd_program(*final(c)) == cmd_program(*old(c)),
        r ==> cmd_args(*final(c)) == cmd_args(*old(c)).push(arg@),
        !r ==> *final(c) == *old(c),
{
    c.try_arg(arg).is_ok()
}

/// Relies on `argmax::Command::output`: runs the command to completion and
/// collects its exit status and streams; `None` stands for a spawn or read
/// failure. What comes back depends on the system.
#[verifier::external_body]
fn cmd_output(c: &mut argmax::Command) -> (r: Option<ExecResult>)
    ensures
        cmd_program(*final(c)) == cmd_program(*old(c)),
        cmd_args(*final(c)) == cmd_args(*old(c)),
{
    match c.output() {
        Ok(o) => Some(
            ExecResult { success: o.status.success(), stdout: o.stdout, stderr: o.stderr },
        ),
        Err(_) => None,
    }
}

pub open spec fn min_int(a: int, b: int) -> int {
    if a < b {
        a
    } else {
        b
    }
}

/// Every result in the sequence reports success.
pub open spec fn all_success(parts: Seq<ExecResult>) -> bool {
    forall|i: int| 0 <= i < parts.len() ==> (#[trigger] parts[i]).success
}

/// The concatenation of the standard output streams, in order.
pub open spec fn concat_stdout(parts: Seq<ExecResult>) -> Seq<u8>
    decreases parts.len(),
{
    if parts.len() == 0 {
        Seq::empty()
    } else {
        concat_stdout(parts.drop_last()) + parts.last().stdout@
    }
}

/// The concatenation of the standard error streams, in order.
pub open spec fn concat_stderr(parts: Seq<ExecResult>) -> Seq<u8>
    decreases parts.len(),
{
    if parts.len() == 0 {
        Seq::empty()
    } else {
        concat_stderr(parts.drop_last()) + parts.last().stderr@
    }
}

pub open spec fn sum_sizes(sizes: Seq<int>) -> int
    decreases sizes.len(),
{
    if sizes.len() == 0 {
        0
    } else {
        sum_sizes(sizes.drop_last()) + sizes.last()
    }
}

/// The per-invocation cap on file arguments: the configured maximum when one
/// is set (one file always goes, even under a cap of zero), otherwise all
/// files at once.
pub open spec fn eff_cap(max_args: Option<usize>, n: int) -> int {
    match max_args {
        Some(k) => if k < 1 {
            1
        } else {
            k as int
        },
        None => if n < 1 {
            1
        } else {
            n
        },
    }
}

/// How a run of the batched executor consumed its `n` file arguments:
/// `sizes` are the per-invocation file counts, in order, and `cut[i]` says
/// the platform argument-length budget ended invocation `i` early. With no
/// files there is exactly one invocation, carrying no file argument; with
/// files, every invocation carries between one and `cap` of them, consumed
/// from the front, and an invocation the budget did not cut short carries
/// exactly as many as the cap and the remaining files allow.
pub open spec fn is_batching(sizes: Seq<int>, cut: Seq<bool>, n: int, cap: int) -> bool {
    &&& sizes.len() == cut.len()
    &&& if n == 0 {
        sizes == seq![0int]
    } else {
        &&& sum_sizes(sizes) == n
        &&& (forall|i: int| 0 <= i < sizes.len() ==> 1 <= #[trigger] sizes[i] <= cap)
        &&& (forall|i: int|
            0 <= i < sizes.len() && !cut[i] ==> #[trigger] sizes[i] == min_int(
                cap,
                n - sum_sizes(sizes.take(i)),
            ))
    }
}

/// The full argument vector of every invocation: the fixed arguments, then
/// the invocation's own slice of the file list, the slices covering the list
/// from the front, in order.
pub open spec fn batch_argv(
    common: Seq<Seq<char>>,
    files: Seq<Seq<char>>,
    sizes: Seq<int>,
    argv: Seq<Seq<Seq<char>>>,
) -> bool {
    &&& argv.len() == sizes.len()
    &&& forall|b: int|
        0 <= b < argv.len() ==> #[trigger] argv[b] == common + files.subrange(
            sum_sizes(sizes.take(b)),
            sum_sizes(sizes.take(b)) + sizes[b],
        )
}

/// One folded result, tied to the batching that produced it: `parts` are the
/// per-invocation outcomes, one per batch; `argv[b]` is the argument vector
/// invocation `b` ran with; the folded result succeeds exactly when every
/// invocation did, and its streams are their concatenations in order.
pub open spec fn batched_outcome(
    r: ExecResult,
    sizes: Seq<int>,
    cut: Seq<bool>,
    parts: Seq<ExecResult>,
    argv: Seq<Seq<Seq<char>>>,
    common: Seq<Seq<char>>,
    files: Seq<Seq<char>>,
    cap: int,
) -> bool {
    &&& is_batching(sizes, cut, files.len() as int, cap)
    &&& parts.len() == sizes.len()
    &&& batch_argv(common, files, sizes, argv)
    &&& r.success == all_success(parts)
    &&& r.stdout@ == concat_stdout(parts)
    &&& r.stderr@ == concat_stderr(parts)
}

/// Fold per-invocation outcomes into one: success is the conjunction, the
/// streams are concatenated in invocation order.
pub fn fold_results(parts: &Vec<ExecResult>) -> (r: ExecResult)
    ensures
        r.success == all_success(parts@),
        r.stdout@ == concat_stdout(parts@),
        r.stderr@ == concat_stderr(parts@),
{
    let mut success = true;
    let mut stdout: Vec<u8> = Vec::new();
    let mut stderr: Vec<u8> = Vec::new();
    let mut i: usize = 0;
    proof {
        assert(parts@.take(0) =~= Seq::<ExecResult>::empty());
    }
    while i < parts.len()
        invariant
            i <= parts@.len(),
            success == all_success(parts@.take(i as int)),
            stdout@ == concat_stdout(parts@.take(i as int)),
            stderr@ == concat_stderr(parts@.take(i as int)),
        decreases parts@.len() - i,
    {
        let p = &parts[i];
        let ghost done = parts@.take(i as int);
        let ghost success0 = success;
        if !p.success {
            success = false;
        }
        let mut b: usize = 0;
        while b < p.stdout.len()
            invariant
                b <= p.stdout@.len(),
                p == &parts@[i as int],
                stdout@ == concat_stdout(done) + p.stdout@.take(b as int),
            decreases p.stdout@.len() - b,
        {
            stdout.push(p.stdout[b]);
            proof {
                assert(p.stdout@.take(b + 1) =~= p.stdout@.take(b as int).push(p.stdout@[b as int]));
                assert(concat_stdout(done) + p.stdout@.take(b + 1) =~= (concat_stdout(done)
                    + p.stdout@.take(b as int)).push(p.stdout@[b as int]));
            }
            b = b + 1;
        }
        let mut e: usize = 0;
        while e < p.stderr.len()
            invariant
                e <= p.stderr@.len(),
                p == &parts@[i as int],
                stderr@ == concat_stderr(done) + p.stderr@.take(e as int),
            decreases p.stderr@.len() - e,
        {
            stderr.push(p.stderr[e]);
            proof {
                assert(p.stderr@.take(e + 1) =~= p.stderr@.take(e as int).push(p.stderr@[e as int]));
                assert(concat_stderr(done) + p.stderr@.take(e + 1) =~= (concat_stderr(done)
                    + p.stderr@.take(e as int)).push(p.stderr@[e as int]));
            }
            e = e + 1;
        }
        proof {
            let t = parts@.take(i + 1);
            assert(t.drop_last() == parts@.take(i as int));
            assert(t.last() == parts@[i as int]);
            assert(p.stdout@.take(p.stdout@.len() as int) == p.stdout@);
            assert(p.stderr@.take(p.stderr@.len() as int) == p.stderr@);
            assert(forall|k: int| 0 <= k < i ==> t[k] == parts@.take(i as int)[k]);
            if success && parts@[i as int].success {
                assert forall|k: int| 0 <= k < t.len() implies (#[trigger] t[k]).success by {
                    if k < i {
                        assert(t[k] == parts@.take(i as int)[k]);
                    }
                }
            }
            if !parts@[i as int].success {
                assert(!all_success(t)) by {
                    assert(!t[i as int].success);
                }
            }
            if !success0 {
                assert(!all_success(parts@.take(i as int)));
                let w = choose|w: int|
                    0 <= w < parts@.take(i as int).len() && !(#[trigger] parts@.take(
                        i as int,
                    )[w]).success;
                assert(t[w] == parts@.take(i as int)[w]);
                assert(!t[w].success);
            }
        }
        i = i + 1;
    }
    proof {
        assert(parts@.take(parts@.len() as int) == parts@);
    }
    ExecResult { success, stdout, stderr }
}

/// The batched executor could not finish: one argument can never fit the
/// platform budget, or an invocation could not be spawned or read.
#[derive(Debug)]
pub enum ExecError {
    ArgumentTooLarge,
    Spawn,
}

/// A command line whose file arguments are spread over as many invocations
/// as the platform argument-length budget and the per-invocation cap require.
pub struct Xargs {
    program: String,
    max_args: Option<usize>,
    common_args: Vec<String>,
    args: Vec<String>,
    current_dir: Option<String>,
}

impl Xargs {
    /// The program every invocation runs.
    pub closed spec fn spec_program(&self) -> Seq<char> {
        self.program@
    }

    /// The per-invocation cap on file arguments, if one is configured.
    pub closed spec fn spec_max_args(&self) -> Option<usize> {
        self.max_args
    }

    /// The fixed arguments every invocation carries, before any file.
    pub closed spec fn spec_common_args(&self) -> Seq<Seq<char>> {
        str_views(self.common_args@)
    }

    /// The file arguments, consumed from the front across invocations.
    pub closed spec fn spec_args(&self) -> Seq<Seq<char>> {
        str_views(self.args@)
    }

    /// The working directory of every invocation, if one is set.
    pub closed spec fn spec_current_dir(&self) -> Option<Seq<char>> {
        match self.current_dir {
            Some(ref d) => Some(d@),
            None => None,
        }
    }

    pub fn new(program: &str, max_args: Option<usize>) -> (r: Xargs)
        ensures
            r.spec_program() == program@,
            r.spec_max_args() == max_args,
            r.spec_common_args() == Seq::<Seq<char>>::empty(),
            r.spec_args() == Seq::<Seq<char>>::empty(),
            r.spec_current_dir() is None,
    {
        let r = Xargs {
            program: program.to_owned(),
            max_args,
            common_args: Vec::new(),
            args: Vec::new(),
            current_dir: None,
        };
        proof {
            assert(r.spec_common_args() =~= Seq::<Seq<char>>::empty());
            assert(r.spec_args() =~= Seq::<Seq<char>>::empty());
        }
        r
    }

    /// Add one fixed argument.
    pub fn common_arg(&mut self, arg: &str)
        ensures
            final(self).spec_common_args() == old(self).spec_common_args().push(arg@),
            final(self).spec_program() == old(self).spec_program(),
            final(self).spec_max_args() == old(self).spec_max_args(),
            final(self).spec_args() == old(self).spec_args(),
            final(self).spec_current_dir() == old(self).spec_current_dir(),
    {
        self.common_args.push(arg.to_owned());
        proof {
            assert(self.spec_common_args() =~= old(self).spec_common_args().push(arg@));
        }
    }

    /// Add fixed arguments, in order.
    pub fn common_args(&mut self, args: &Vec<String>)
        ensures
            final(self).spec_common_args() == old(self).spec_common_args() + str_views(args@),
            final(self).spec_program() == old(self).spec_program(),
            final(self).spec_max_args() == old(self).spec_max_args(),
            final(self).spec_args() == old(self).spec_args(),
            final(self).spec_current_dir() == old(self).spec_current_dir(),
    {
        let mut i: usize = 0;
        proof {
            assert(self.spec_common_args() =~= old(self).spec_common_args() + str_views(
                args@.take(0),
            ));
        }
        while i < args.len()
            invariant
                i <= args@.len(),
                self.spec_common_args() == old(self).spec_common_args() + str_views(
                    args@.take(i as int),
                ),
                self.spec_program() == old(self).spec_program(),
                self.spec_max_args() == old(self).spec_max_args(),
                self.spec_args() == old(self).spec_args(),
                self.spec_current_dir() == old(self).spec_current_dir(),
            decreases args@.len() - i,
        {
            let ghost prev = self.common_args@;
            self.common_args.push(args[i].clone());
            proof {
                assert(self.common_args@ =~= prev.push(args@[i as int]));
                assert(str_views(self.common_args@) =~= str_views(prev).push(args@[i as int]@));
                assert(str_views(prev) == old(self).spec_common_args() + str_views(
                    args@.take(i as int),
                ));
                assert(str_views(args@.take(i + 1)) =~= str_views(args@.take(i as int)).push(
                    args@[i as int]@,
                ));
                assert(self.spec_common_args() =~~= old(self).spec_common_args() + str_views(
                    args@.take(i + 1),
                ));
            }
            i = i + 1;
        }
        proof {
            assert(args@.take(args@.len() as int) == args@);
        }
    }

    /// Add one file argument.
    pub fn arg(&mut self, arg: &str)
        ensures
            final(self).spec_args() == old(self).spec_args().push(arg@),
            final(self).spec_program() == old(self).spec_program(),
            final(self).spec_max_args() == old(self).spec_max_args(),
            final(self).spec_common_args() == old(self).spec_common_args(),
            final(self).spec_current_dir() == old(self).spec_current_dir(),
    {
        self.args.push(arg.to_owned());
        proof {
            assert(self.spec_args() =~= old(self).spec_args().push(arg@));
        }
    }

    /// Add file arguments, in order.
    pub fn args(&mut self, args: &Vec<String>)
        ensures
            final(self).spec_args() == old(self).spec_args() + str_views(args@),
            final(self).spec_program() == old(self).spec_program(),
            final(self).spec_max_args() == old(self).spec_max_args(),
            final(self).spec_common_args() == old(self).spec_common_args(),
            final(self).spec_current_dir() == old(self).spec_current_dir(),
    {
        let mut i: usize = 0;
        proof {
            assert(self.spec_args() =~= old(self).spec_args() + str_views(args@.take(0)));
        }
        while i < args.len()
            invariant
                i <= args@.len(),
                self.spec_args() == old(self).spec_args() + str_views(args@.take(i as int)),
                self.spec_program() == old(self).spec_program(),
                self.spec_max_args() == old(self).spec_max_args(),
                self.spec_common_args() == old(self).spec_common_args(),
                self.spec_current_dir() == old(self).spec_current_dir(),
            decreases args@.len() - i,
        {
            let ghost prev = self.args@;
            self.args.push(args[i].clone());
            proof {
                assert(self.args@ =~= prev.push(args@[i as int]));
                assert(str_views(self.args@) =~= str_views(prev).push(args@[i as int]@));
                assert(str_views(prev) == old(self).spec_args() + str_views(args@.take(i as int)));
                assert(str_views(args@.take(i + 1)) =~= str_views(args@.take(i as int)).push(
                    args@[i as int]@,
                ));
                assert(self.spec_args() =~~= old(self).spec_args() + str_views(args@.take(i + 1)));
            }
            i = i + 1;
        }
        proof {
            assert(args@.take(args@.len() as int) == args@);
        }
    }

    /// Set the working directory for every invocation.
    pub fn current_dir(&mut self, dir: &str)
        ensures
            final(self).spec_current_dir() == Some(dir@),
            final(self).spec_program() == old(self).spec_program(),
            final(self).spec_max_args() == old(self).spec_max_args(),
            final(self).spec_common_args() == old(self).spec_common_args(),
            final(self).spec_args() == old(self).spec_args(),
    {
        self.current_dir = Some(dir.to_owned());
    }

    /// Run the command: consume the file arguments from the front, batch by
    /// batch, running each invocation to completion before the next begins,
    /// and fold the outcomes. With no file arguments the program runs exactly
    /// once. An argument that can never fit the platform budget, or an
    /// invocation that cannot be spawned, is an error.
    #[verifier::rlimit(50)]
    pub fn output(&self) -> (r: Result<ExecResult, ExecError>)
        ensures
            r is Ok ==> exists|
                sizes: Seq<int>,
                cut: Seq<bool>,
                parts: Seq<ExecResult>,
                argv: Seq<Seq<Seq<char>>>,
            |
                #[trigger] batched_outcome(
                    r->Ok_0,
                    sizes,
                    cut,
                    parts,
                    argv,
                    self.spec_common_args(),
                    self.spec_args(),
                    eff_cap(self.spec_max_args(), self.spec_args().len() as int),
                ),
    {
        let n = self.args.len();
        let ghost cap = eff_cap(self.max_args, n as int);
        let cap_exec: usize = match self.max_args {
            Some(k) => if k < 1 {
                1
            } else {
                k
            },
            None => if n < 1 {
                1
            } else {
                n
            },
        };
        let mut parts: Vec<ExecResult> = Vec::new();
        let ghost mut sizes: Seq<int> = Seq::empty();
        let ghost mut cut: Seq<bool> = Seq::empty();
        let ghost mut argv: Seq<Seq<Seq<char>>> = Seq::empty();
        let mut i: usize = 0;
        let mut done = false;
        proof {
            assert(cap_exec as int == cap);
        }
        while !done
            invariant
                n == self.args@.len(),
                cap == eff_cap(self.spec_max_args(), n as int),
                cap_exec as int == cap,
                i <= n,
                sizes.len() == cut.len(),
                parts@.len() == sizes.len(),
                sum_sizes(sizes) == i,
                n > 0 ==> forall|k: int| 0 <= k < sizes.len() ==> 1 <= #[trigger] sizes[k] <= cap,
                forall|k: int|
                    0 <= k < sizes.len() && !cut[k] ==> #[trigger] sizes[k] == min_int(
                        cap,
                        n - sum_sizes(sizes.take(k)),
                    ),
                n == 0 ==> (done ==> sizes == seq![0int]) && (!done ==> sizes.len() == 0),
                !done && n > 0 ==> i < n,
                done ==> i == n,
                batch_argv(self.spec_common_args(), self.spec_args(), sizes, argv),
            decreases n - i + (if done {
                0int
            } else {
                1int
            }),
        {
            let mut c = cmd_new(self.program.as_str());
            if let Some(d) = &self.current_dir {
                cmd_current_dir(&mut c, d.as_str());
            }
            proof {
                assert(self.spec_common_args().take(0) =~= Seq::<Seq<char>>::empty());
            }
            let mut j: usize = 0;
            while j < self.common_args.len()
                invariant
                    j <= self.common_args@.len(),
                    self.spec_common_args().len() == self.common_args@.len(),
                    cmd_args(c) == self.spec_common_args().take(j as int),
                decreases self.common_args@.len() - j,
            {
                if !cmd_try_arg(&mut c, self.common_args[j].as_str()) {
                    return Err(ExecError::ArgumentTooLarge);
                }
                proof {
                    assert(self.common_args@[j as int]@ == self.spec_common_args()[j as int]);
                    assert(self.spec_common_args().take(j + 1) =~= self.spec_common_args().take(
                        j as int,
                    ).push(self.spec_common_args()[j as int]));
                }
                j = j + 1;
            }
            proof {
                assert(self.spec_common_args().take(self.spec_common_args().len() as int)
                    == self.spec_common_args());
            }
            let ghost start = i as int;
            let mut size: usize = 0;
            let ghost mut this_cut = false;
            if i < n {
                if !cmd_try_arg(&mut c, self.args[i].as_str()) {
                    return Err(ExecError::ArgumentTooLarge);
                }
                proof {
                    assert(self.args@[i as int]@ == self.spec_args()[i as int]);
                    assert(self.spec_args().subrange(start, start + 1) =~= Seq::<
                        Seq<char>,
                    >::empty().push(self.spec_args()[start]));
                    assert(cmd_args(c) =~= self.spec_common_args() + self.spec_args().subrange(
                        start,
                        start + 1,
                    ));
                }
                i = i + 1;
                size = 1;
                let mut stop = false;
                while i < n && size < cap_exec && !stop
                    invariant
                        n == self.args@.len(),
                        self.spec_args().len() == n,
                        i <= n,
                        1 <= size,
                        size as int <= cap_exec as int,
                        i as int == start + size,
                        0 <= start < n,
                        cmd_args(c) == self.spec_common_args() + self.spec_args().subrange(
                            start,
                            i as int,
                        ),
                    decreases n - i + (if stop {
                        0int
                    } else {
                        1int
                    }),
                {
                    if cmd_try_arg(&mut c, self.args[i].as_str()) {
                        proof {
                            let ii = i as int;
                            assert(0 <= start <= ii < n);
                            assert(self.args@[ii]@ == self.spec_args()[ii]);
                            assert(self.spec_args().subrange(start, ii + 1) =~= self.spec_args(
                            ).subrange(start, ii).push(self.spec_args()[ii]));
                            assert((self.spec_common_args() + self.spec_args().subrange(
                                start,
                                ii,
                            )).push(self.spec_args()[ii]) =~= self.spec_common_args()
                                + self.spec_args().subrange(start, ii + 1));
                            assert(cmd_args(c) == self.spec_common_args()
                                + self.spec_args().subrange(start, ii + 1));
                        }
                        i = i + 1;
                        size = size + 1;
                    } else {
                        stop = true;
                    }
                }
                proof {
                    this_cut = stop;
                    if !stop {
                        assert(i == n || size as int == cap);
                        assert(size as int == min_int(cap, n - start));
                    }
                }
            } else {
                proof {
                    assert(self.spec_args().subrange(start, start) =~= Seq::<Seq<char>>::empty());
                    assert(cmd_args(c) =~= self.spec_common_args() + self.spec_args().subrange(
                        start,
                        start,
                    ));
                }
            }
            proof {
                assert(cmd_args(c) == self.spec_common_args() + self.spec_args().subrange(
                    start,
                    start + size,
                ));
            }
            let res = match cmd_output(&mut c) {
                Option::Some(res) => res,
                Option::None => {
                    return Err(ExecError::Spawn);
                },
            };
            parts.push(res);
            proof {
                let ghost prev_sizes = sizes;
                let ghost prev_argv = argv;
                sizes = sizes.push(size as int);
                cut = cut.push(this_cut);
                argv = argv.push(cmd_args(c));
                assert(sizes.drop_last() == prev_sizes);
                assert(sizes.last() == size as int);
                assert(sum_sizes(sizes) == i);
                assert(sum_sizes(prev_sizes) == start);
                assert forall|b: int| 0 <= b < argv.len() implies #[trigger] argv[b]
                    == self.spec_common_args() + self.spec_args().subrange(
                    sum_sizes(sizes.take(b)),
                    sum_sizes(sizes.take(b)) + sizes[b],
                ) by {
                    if b < prev_argv.len() {
                        assert(argv[b] == prev_argv[b]);
                        assert(sizes.take(b) =~= prev_sizes.take(b));
                        assert(sizes[b] == prev_sizes[b]);
                    } else {
                        assert(argv[b] == cmd_args(c));
                        assert(sizes.take(b) =~= prev_sizes);
                        assert(sizes[b] == size as int);
                    }
                }
                assert forall|k: int|
                    0 <= k < sizes.len() && !cut[k] implies #[trigger] sizes[k] == min_int(
                    cap,
                    n - sum_sizes(sizes.take(k)),
                ) by {
                    if k < prev_sizes.len() {
                        assert(sizes[k] == prev_sizes[k]);
                        assert(cut[k] == cut.drop_last()[k]);
                        assert(sizes.take(k) =~= prev_sizes.take(k));
                    } else {
                        assert(sizes.take(k) =~= prev_sizes);
                    }
                }
                if n > 0 {
                    assert forall|k: int| 0 <= k < sizes.len() implies 1 <= #[trigger] sizes[k]
                        <= cap by {
                        if k < prev_sizes.len() {
                            assert(sizes[k] == prev_sizes[k]);
                        }
                    }
                }
            }
            if i >= n {
                done = true;
            }
        }
        let folded = fold_results(&parts);
        proof {
            assert(self.spec_args().len() == n as int);
            assert(cap == eff_cap(self.spec_max_args(), self.spec_args().len() as int));
            assert(is_batching(sizes, cut, n as int, cap));
            assert(batched_outcome(
                folded,
                sizes,
                cut,
                parts@,
                argv,
                self.spec_common_args(),
                self.spec_args(),
                eff_cap(self.spec_max_args(), self.spec_args().len() as int),
            ));
        }
        let r: Result<ExecResult, ExecError> = Ok(folded);
        proof {
            assert(r->Ok_0 == folded);
            assert(exists|
                s2: Seq<int>,
                c2: Seq<bool>,
                p2: Seq<ExecResult>,
                a2: Seq<Seq<Seq<char>>>,
            |
                #[trigger] batched_outcome(
                    r->Ok_0,
                    s2,
                    c2,
                    p2,
                    a2,
                    self.spec_common_args(),
                    self.spec_args(),
                    eff_cap(self.spec_max_args(), self.spec_args().len() as int),
                ));
        }
        r
    }
}

proof fn lemma_sum_take_succ(s: Seq<int>, i: int)
    requires
        0 <= i < s.len(),
    ensures
        sum_sizes(s.take(i + 1)) == sum_sizes(s.take(i)) + s[i],
{
    assert(s.take(i + 1).drop_last() =~= s.take(i));
    assert(s.take(i + 1).last() == s[i]);
}

proof fn lemma_sum_drop_first_take(s: Seq<int>, i: int)
    requires
        s.len() > 0,
        0 <= i <= s.len() - 1,
    ensures
        sum_sizes(s.take(i + 1)) == s[0] + sum_sizes(s.drop_first().take(i)),
    decreases i,
{
    if i == 0 {
        assert(s.take(1).drop_last() =~= Seq::<int>::empty());
        assert(s.take(1).last() == s[0]);
        assert(s.drop_first().take(0) =~= Seq::<int>::empty());
    } else {
        lemma_sum_drop_first_take(s, i - 1);
        lemma_sum_take_succ(s, i);
        lemma_sum_take_succ(s.drop_first(), i - 1);
        assert(s.drop_first()[i - 1] == s[i]);
    }
}

proof fn lemma_sum_at_least_len(s: Seq<int>)
    requires
        forall|i: int| 0 <= i < s.len() ==> 1 <= #[trigger] s[i],
    ensures
        sum_sizes(s) >= s.len(),
    decreases s.len(),
{
    if s.len() > 0 {
        assert(forall|i: int|
            0 <= i < s.drop_last().len() ==> #[trigger] s.drop_last()[i] == s[i]);
        lemma_sum_at_least_len(s.drop_last());
    }
}

/// Law: when no invocation is cut short by the platform argument-length
/// budget, the batched executor makes exactly the number of invocations that
/// the per-invocation cap dictates for `n` files, rounded up, each carrying
/// at most `cap` of them.
#[verifier::rlimit(50)]
pub proof fn lemma_uncut_batching(sizes: Seq<int>, cut: Seq<bool>, n: int, cap: int)
    requires
        is_batching(sizes, cut, n, cap),
        n > 0,
        cap > 0,
        forall|i: int| 0 <= i < cut.len() ==> !(#[trigger] cut[i]),
    ensures
        sizes.len() == (n + cap - 1) / cap,
        forall|i: int| 0 <= i < sizes.len() ==> #[trigger] sizes[i] <= cap,
    decreases sizes.len(),
{
    if sizes.len() == 0 {
        assert(sum_sizes(sizes) == 0);
        assert(false);
    }
    assert(sizes.take(0) =~= Seq::<int>::empty());
    assert(sizes[0] == min_int(cap, n));
    if sizes.len() == 1 {
        assert(sizes.drop_last() =~= Seq::<int>::empty());
        assert(sizes.take(1) =~= sizes);
        lemma_sum_take_succ(sizes, 0);
        assert(sizes[0] == n);
        assert(n <= cap);
        vstd::arithmetic::div_mod::lemma_div_plus_one(n - 1, cap);
        vstd::arithmetic::div_mod::lemma_basic_div_specific_divisor(cap);
        assert((n - 1) / cap == 0);
        assert(sizes.len() == (n + cap - 1) / cap);
    } else {
        let ts = sizes.drop_first();
        let tc = cut.drop_first();
        assert(forall|i: int| 0 <= i < ts.len() ==> #[trigger] ts[i] == sizes[i + 1]);
        assert(forall|i: int| 0 <= i < tc.len() ==> #[trigger] tc[i] == cut[i + 1]);
        lemma_sum_drop_first_take(sizes, sizes.len() - 1);
        assert(sizes.take(sizes.len() as int) =~= sizes);
        assert(ts.take(ts.len() as int) =~= ts);
        assert(sum_sizes(sizes) == sizes[0] + sum_sizes(ts));
        lemma_sum_at_least_len(ts);
        assert(sum_sizes(ts) >= 1);
        assert(sizes[0] < n);
        assert(sizes[0] == cap);
        assert(sum_sizes(ts) == n - cap);
        assert forall|i: int| 0 <= i < ts.len() && !tc[i] implies #[trigger] ts[i] == min_int(
            cap,
            (n - cap) - sum_sizes(ts.take(i)),
        ) by {
            assert(sizes[i + 1] == min_int(cap, n - sum_sizes(sizes.take(i + 1))));
            lemma_sum_drop_first_take(sizes, i);
            assert(sum_sizes(sizes.take(i + 1)) == cap + sum_sizes(ts.take(i)));
        }
        assert(is_batching(ts, tc, n - cap, cap));
        lemma_uncut_batching(ts, tc, n - cap, cap);
        assert(ts.len() == ((n - cap) + cap - 1) / cap);
        vstd::arithmetic::div_mod::lemma_div_plus_one(n - 1, cap);
        assert(sizes.len() == (n + cap - 1) / cap);
    }
}

proof fn lemma_sum_nonneg(s: Seq<int>)
    requires
        forall|i: int| 0 <= i < s.len() ==> #[trigger] s[i] >= 0,
    ensures
        sum_sizes(s) >= 0,
    decreases s.len(),
{
    if s.len() > 0 {
        assert(forall|i: int|
            0 <= i < s.drop_last().len() ==> #[trigger] s.drop_last()[i] == s[i]);
        lemma_sum_nonneg(s.drop_last());
    }
}

proof fn lemma_sum_take_le(s: Seq<int>, b: int)
    requires
        forall|i: int| 0 <= i < s.len() ==> #[trigger] s[i] >= 0,
        0 <= b <= s.len(),
    ensures
        sum_sizes(s.take(b)) <= sum_sizes(s),
    decreases s.len() - b,
{
    if b < s.len() {
        lemma_sum_take_succ(s, b);
        lemma_sum_take_le(s, b + 1);
    } else {
        assert(s.take(b) == s);
    }
}

/// Law: a batched outcome that the platform budget never cut short splits
/// `n` files under cap `k` into exactly the rounded-up quotient of
/// invocations; every invocation carries the fixed arguments followed by its
/// own slice of at most `k` files, and the folded streams are the
/// invocations' streams concatenated in order.
pub proof fn lemma_full_batches(
    r: ExecResult,
    sizes: Seq<int>,
    cut: Seq<bool>,
    parts: Seq<ExecResult>,
    argv: Seq<Seq<Seq<char>>>,
    common: Seq<Seq<char>>,
    files: Seq<Seq<char>>,
    cap: int,
)
    requires
        batched_outcome(r, sizes, cut, parts, argv, common, files, cap),
        files.len() > 0,
        cap > 0,
        forall|b: int| 0 <= b < cut.len() ==> !(#[trigger] cut[b]),
    ensures
        parts.len() == (files.len() + cap - 1) / cap,
        argv.len() == parts.len(),
        forall|b: int| 0 <= b < argv.len() ==> (#[trigger] argv[b]).len() <= common.len() + cap,
        r.success == all_success(parts),
        r.stdout@ == concat_stdout(parts),
        r.stderr@ == concat_stderr(parts),
{
    lemma_uncut_batching(sizes, cut, files.len() as int, cap);
    assert forall|b: int| 0 <= b < argv.len() implies (#[trigger] argv[b]).len() <= common.len()
        + cap by {
        assert(argv[b] == common + files.subrange(
            sum_sizes(sizes.take(b)),
            sum_sizes(sizes.take(b)) + sizes[b],
        ));
        assert(forall|i: int| 0 <= i < sizes.len() ==> #[trigger] sizes[i] >= 0);
        assert(forall|i: int|
            0 <= i < sizes.take(b).len() ==> #[trigger] sizes.take(b)[i] == sizes[i]);
        lemma_sum_nonneg(sizes.take(b));
        lemma_sum_take_succ(sizes, b);
        lemma_sum_take_le(sizes, b + 1);
        assert(0 <= sum_sizes(sizes.take(b)));
        assert(sum_sizes(sizes.take(b)) + sizes[b] <= files.len());
        assert(sizes[b] <= cap);
    }
}

} // verus!
