//! Running command lines: the builtins, redirections, pipelines, lists, subshells,
//! conditionals and loops of a session.
use vstd::prelude::*;
use crate::builtins::args::eq_pos;
use crate::builtins::args::parse_args;
use crate::builtins::basic::{
    done, has_opt, lemma_mkdir_quiet, lemma_rm_quiet, lemma_touch_quiet, mkdir_table, mkdir_text, rm_from, spec_cd, spec_echo,
    spec_mkdir, spec_pwd, touch_from,
};
use crate::builtins::fd::spec_fd;
use crate::builtins::files::{spec_cat, spec_ls};
use crate::builtins::rg::{CmdView, spec_rg};
use crate::error::{ErrView, ZillError, error_message};
use crate::fs::{spec_canonicalize, spec_read, spec_write};
use crate::parser::{AstNode, AstView, LogicalOperator, Parser, Redirection, RedirectionView, p_sequence, tokenize};
use crate::session::{
    BOut, CmdOutput, SessView, ZillSession, expand, from_utf8_lossy, lemma_utf8_concat, text_of, res_i32,
    utf8, write_bytes, write_str,
};
use crate::text::{chars_of, concat2, owned, str_eq, string_from_range, strs_view};

verus! {

/// What running a node does: the new state, the standard input left unread, the bytes
/// written to standard output and to standard error, and the exit code or the error.
pub struct Exec {
    pub st: SessView,
    pub input: Seq<u8>,
    pub out: Seq<u8>,
    pub err: Seq<u8>,
    pub res: Result<i32, ErrView>,
}

/// `a` followed by `b`: the state and the input of `b`, the outputs of both.
pub open spec fn then_run(a: Exec, b: Exec) -> Exec {
    Exec { st: b.st, input: b.input, out: a.out + b.out, err: a.err + b.err, res: b.res }
}

/// The message for a command that is not a builtin.
pub open spec fn not_found(name: Seq<char>) -> Seq<char> {
    name + ": command not found\n"@
}

/// The result of a builtin that reports through an output record.
pub open spec fn from_cmd(st: SessView, r: Result<CmdView, ErrView>) -> BOut {
    match r {
        Ok(o) => done(st, utf8(o.0), utf8(o.1), Ok(o.2)),
        Err(e) => done(st, Seq::empty(), Seq::empty(), Err(e)),
    }
}

/// What the builtin `name` does with the arguments and standard input.
pub open spec fn spec_builtin(st: SessView, name: Seq<char>, args: Seq<Seq<char>>, stdin: Seq<u8>) -> BOut {
    if name == "pwd"@ {
        spec_pwd(st)
    } else if name == "cd"@ {
        spec_cd(st, args)
    } else if name == "ls"@ {
        spec_ls(st, args)
    } else if name == "cat"@ {
        spec_cat(st, args, stdin)
    } else if name == "echo"@ {
        spec_echo(st, args)
    } else if name == "mkdir"@ {
        spec_mkdir(st, args)
    } else if name == "touch"@ {
        touch_from(st, args, 0)
    } else if name == "rm"@ {
        rm_from(st, args, 0)
    } else if name == "rg"@ {
        from_cmd(st, spec_rg(st, args))
    } else if name == "fd"@ {
        from_cmd(st, spec_fd(st, args))
    } else if name == "true"@ || name == ":"@ {
        done(st, Seq::empty(), Seq::empty(), Ok(0))
    } else if name == "false"@ {
        done(st, Seq::empty(), Seq::empty(), Ok(1))
    } else {
        done(st, Seq::empty(), utf8(not_found(name)), Ok(127))
    }
}

/// The redirections from the `j`-th: the standard input of the command and where its
/// standard output goes (path, and whether it is appended), or the error of a read.
pub open spec fn redirect_from(
    st: SessView,
    rs: Seq<RedirectionView>,
    j: int,
    input: Seq<u8>,
    target: Option<(Seq<char>, bool)>,
) -> Result<(Seq<u8>, Option<(Seq<char>, bool)>), ErrView>
    decreases rs.len() - j,
{
    if j < 0 || j >= rs.len() {
        Ok((input, target))
    } else {
        match rs[j] {
            RedirectionView::Stdin(p) => match spec_read(st.fs, spec_canonicalize(p, st.cwd)) {
                Ok(c) => redirect_from(st, rs, j + 1, c, target),
                Err(e) => Err(e),
            },
            RedirectionView::StdoutOverwrite(p) => redirect_from(
                st,
                rs,
                j + 1,
                input,
                Some((spec_canonicalize(p, st.cwd), false)),
            ),
            RedirectionView::StdoutAppend(p) => redirect_from(
                st,
                rs,
                j + 1,
                input,
                Some((spec_canonicalize(p, st.cwd), true)),
            ),
        }
    }
}

/// A builtin whose standard output goes to the file at `path`: replacing its content,
/// or appended to it.
pub open spec fn into_file(b: BOut, path: Seq<char>, append: bool) -> Exec {
    let st = b.st;
    let fail = |e: ErrView| Exec { st, input: Seq::empty(), out: Seq::empty(), err: b.err, res: Err(e) };
    if b.res is Err {
        fail(b.res->Err_0)
    } else {
        let existing: Result<Seq<u8>, ErrView> = if append {
            match spec_read(st.fs, path) {
                Ok(d) => Ok(d),
                Err(ErrView::NotFound(_)) => Ok(Seq::empty()),
                Err(e) => Err(e),
            }
        } else {
            Ok(Seq::empty())
        };
        match existing {
            Err(e) => fail(e),
            Ok(d) => {
                let (fs1, w) = spec_write(st.fs, path, d + b.out, st.now, st.node_limit, st.size_limit);
                let st1 = SessView { fs: fs1, ..st };
                match w {
                    Ok(_) => Exec { st: st1, input: Seq::empty(), out: Seq::empty(), err: b.err, res: b.res },
                    Err(e) => Exec { st: st1, input: Seq::empty(), out: Seq::empty(), err: b.err, res: Err(e) },
                }
            },
        }
    }
}

/// The words of a command after expansion of variables.
pub open spec fn expand_all(argv: Seq<Seq<char>>, st: SessView) -> Seq<Seq<char>> {
    argv.map_values(|a: Seq<char>| expand(a, st.vars, st.env))
}

/// A simple command: an assignment `NAME=VALUE` when it is one word holding `=`,
/// otherwise a builtin with its redirections, which takes all of the standard input.
pub open spec fn spec_command(
    st: SessView,
    argv: Seq<Seq<char>>,
    rs: Seq<RedirectionView>,
    input: Seq<u8>,
) -> Exec {
    let ex = expand_all(argv, st);
    if ex.len() == 0 {
        Exec { st, input, out: Seq::empty(), err: Seq::empty(), res: Ok(0) }
    } else if ex.len() == 1 && eq_pos(ex[0], 0) < ex[0].len() {
        let k = eq_pos(ex[0], 0);
        let st1 = SessView { vars: st.vars.insert(ex[0].take(k), ex[0].skip(k + 1)), ..st };
        Exec { st: st1, input, out: Seq::empty(), err: Seq::empty(), res: Ok(0) }
    } else {
        match redirect_from(st, rs, 0, input, None) {
            Err(e) => Exec { st, input: Seq::empty(), out: Seq::empty(), err: Seq::empty(), res: Err(e) },
            Ok((cmd_in, None)) => {
                let b = spec_builtin(st, ex[0], ex.drop_first(), cmd_in);
                Exec { st: b.st, input: Seq::empty(), out: b.out, err: b.err, res: b.res }
            },
            Ok((cmd_in, Some((path, append)))) => into_file(
                spec_builtin(st, ex[0], ex.drop_first(), cmd_in),
                path,
                append,
            ),
        }
    }
}

/// Running a node in state `st` with `input` on its standard input.
pub open spec fn exec_node(st: SessView, n: AstView, input: Seq<u8>) -> Exec
    decreases n, 0int,
{
    match n {
        AstView::Command { argv, redirects } => spec_command(st, argv, redirects, input),
        AstView::Pipeline { nodes } => pipe_from(st, nodes, 0, input, Seq::empty(), 0),
        AstView::Sequence { nodes } => seq_from(st, nodes, 0, input, 0),
        AstView::Logical { left, right, operator } => {
            let a = exec_node(st, *left, input);
            match a.res {
                Err(_) => a,
                Ok(c) => if (operator == LogicalOperator::And && c == 0) || (operator == LogicalOperator::Or && c
                    != 0) {
                    then_run(a, exec_node(a.st, *right, a.input))
                } else {
                    a
                },
            }
        },
        AstView::Subshell { node } => {
            let a = exec_node(st, *node, input);
            Exec { st: SessView { cwd: st.cwd, vars: st.vars, ..a.st }, ..a }
        },
        AstView::If { condition, then_part, else_part } => {
            let c = exec_node(st, *condition, Seq::empty());
            let quiet = Exec { st: c.st, input, out: Seq::empty(), err: Seq::empty(), res: c.res };
            match c.res {
                Err(_) => quiet,
                Ok(code) => if code == 0 {
                    exec_node(c.st, *then_part, input)
                } else {
                    match else_part {
                        Some(e) => exec_node(c.st, *e, input),
                        None => Exec { res: Ok(0), ..quiet },
                    }
                },
            }
        },
        AstView::For { variable, items, body } => for_from(st, variable, items, *body, 0, input, 0),
    }
}

/// The stages of a pipeline from the `i`-th: the first reads the standard input of the
/// pipeline, each other one reads what the stage before wrote (`piped`), the last
/// writes to the standard output of the pipeline.
pub open spec fn pipe_from(
    st: SessView,
    nodes: Seq<AstView>,
    i: int,
    input: Seq<u8>,
    piped: Seq<u8>,
    last: i32,
) -> Exec
    decreases nodes, nodes.len() - i,
{
    if i < 0 || i >= nodes.len() {
        Exec { st, input, out: Seq::empty(), err: Seq::empty(), res: Ok(last) }
    } else if i == 0 {
        let a = exec_node(st, nodes[i], input);
        match a.res {
            Err(_) => Exec { out: Seq::empty(), ..a },
            Ok(c) => {
                let rest = pipe_from(a.st, nodes, i + 1, a.input, a.out, c);
                Exec { err: a.err + rest.err, ..rest }
            },
        }
    } else if i == nodes.len() - 1 {
        let a = exec_node(st, nodes[i], piped);
        match a.res {
            Err(_) => Exec { input, ..a },
            Ok(c) => then_run(
                Exec { input, ..a },
                pipe_from(a.st, nodes, i + 1, input, Seq::empty(), c),
            ),
        }
    } else {
        let a = exec_node(st, nodes[i], piped);
        match a.res {
            Err(_) => Exec { input, out: Seq::empty(), ..a },
            Ok(c) => {
                let rest = pipe_from(a.st, nodes, i + 1, input, a.out, c);
                Exec { err: a.err + rest.err, ..rest }
            },
        }
    }
}

/// The nodes of a list from the `i`-th, one after the other.
pub open spec fn seq_from(st: SessView, nodes: Seq<AstView>, i: int, input: Seq<u8>, last: i32) -> Exec
    decreases nodes, nodes.len() - i,
{
    if i < 0 || i >= nodes.len() {
        Exec { st, input, out: Seq::empty(), err: Seq::empty(), res: Ok(last) }
    } else {
        let a = exec_node(st, nodes[i], input);
        match a.res {
            Err(_) => a,
            Ok(c) => then_run(a, seq_from(a.st, nodes, i + 1, a.input, c)),
        }
    }
}

/// The iterations of a `for` loop from the `k`-th item.
pub open spec fn for_from(
    st: SessView,
    variable: Seq<char>,
    items: Seq<Seq<char>>,
    body: AstView,
    k: int,
    input: Seq<u8>,
    last: i32,
) -> Exec
    decreases body, items.len() - k + 1,
{
    if k < 0 || k >= items.len() {
        Exec { st, input, out: Seq::empty(), err: Seq::empty(), res: Ok(last) }
    } else {
        let st1 = SessView { vars: st.vars.insert(variable, items[k]), ..st };
        let a = exec_node(st1, body, input);
        match a.res {
            Err(_) => a,
            Ok(c) => then_run(a, for_from(a.st, variable, items, body, k + 1, a.input, c)),
        }
    }
}

/// The node that a command line parses to, or the message that rejects it.
pub open spec fn parse_line(input: Seq<char>) -> Result<AstView, Seq<char>> {
    match tokenize(input) {
        None => Err("unclosed quote"@),
        Some(ws) => p_sequence(ws, 0).0,
    }
}

/// How many characters of `t`, from the `i`-th on, fit in `room` bytes of UTF-8 when
/// taken in order.
pub open spec fn fit_chars(t: Seq<char>, i: int, room: int) -> int
    decreases t.len() - i,
{
    if i < 0 || i >= t.len() {
        i
    } else if utf8(seq![t[i]]).len() > room {
        i
    } else {
        fit_chars(t, i + 1, room - utf8(seq![t[i]]).len())
    }
}

/// The standard output that a command line shows: the characters of `t`, in order, as
/// long as their UTF-8 encoding fits in `max` bytes.
pub open spec fn capped_text(t: Seq<char>, max: usize) -> Seq<char> {
    t.take(fit_chars(t, 0, max as int))
}

/// Cuts `s` as [`capped_text`] says.
fn cap_text(s: &str, max: usize) -> (r: String)
    ensures
        r@ == capped_text(s@, max),
{
    let cs = chars_of(s);
    let mut i: usize = 0;
    let mut room: usize = max;
    let mut done = false;
    while i < cs.len() && !done
        invariant
            cs@ == s@,
            i <= cs@.len(),
            fit_chars(s@, i as int, room as int) == fit_chars(s@, 0, max as int),
            done ==> fit_chars(s@, i as int, room as int) == i,
        decreases cs@.len() - i + (if done { 0int } else { 1int }),
    {
        let one = string_from_range(cs.as_slice(), i, i + 1);
        assert(one@ =~= seq![s@[i as int]]);
        let mut b: Vec<u8> = Vec::new();
        write_str(&mut b, one.as_str());
        assert(b@ =~= utf8(seq![s@[i as int]]));
        if b.len() > room {
            done = true;
        } else {
            room = room - b.len();
            i = i + 1;
        }
    }
    let r = string_from_range(cs.as_slice(), 0, i);
    assert(r@ =~= s@.take(i as int));
    r
}

/// Running a command line: the new state, and the standard output, standard error and
/// exit code reported. A parse error or an error of the run is reported on standard
/// error with exit code 1, and the output of that run is dropped. Standard output is
/// cut to the session's `max_output_size` bytes, as [`capped_text`] says.
pub open spec fn spec_run(st: SessView, line: Seq<char>) -> (SessView, CmdView) {
    match parse_line(line) {
        Err(e) => (st, (Seq::empty(), "zill: parse error: "@ + e, 1)),
        Ok(ast) => {
            let a = exec_node(st, ast, Seq::empty());
            match a.res {
                Err(e) => (a.st, (Seq::empty(), error_message(e), 1)),
                Ok(c) => (a.st, (capped_text(text_of(a.out), st.limits.max_output_size), text_of(a.err), c)),
            }
        },
    }
}

/// What a run did, against what its specification says: the state, the standard input
/// left, the outputs appended, the result.
pub open spec fn ran(
    e: Exec,
    st: SessView,
    input: Seq<u8>,
    out0: Seq<u8>,
    out1: Seq<u8>,
    err0: Seq<u8>,
    err1: Seq<u8>,
    r: Result<i32, ZillError>,
) -> bool {
    &&& st == e.st
    &&& input == e.input
    &&& out1 == out0 + e.out
    &&& err1 == err0 + e.err
    &&& res_i32(r) == e.res
}

/// The state `st` with `t` as the time of the changes to come.
pub open spec fn at_time(st: SessView, t: i64) -> SessView {
    SessView { now: t, ..st }
}

/// The time of the session's next command line: one second (in microseconds) after `now`,
/// or `now` itself at the end of the range.
pub open spec fn tick(now: i64) -> i64 {
    if now <= i64::MAX - 1_000_000 {
        (now + 1_000_000) as i64
    } else {
        now
    }
}

/// The view of an output record.
pub open spec fn output_view(o: CmdOutput) -> CmdView {
    (o.stdout@, o.stderr@, o.exit_code)
}

/// A copy of a byte string.
fn copy_bytes(b: &[u8]) -> (r: Vec<u8>)
    ensures
        r@ == b@,
{
    let mut r: Vec<u8> = Vec::new();
    write_bytes(&mut r, b);
    r
}

/// Writes an output record of a builtin to the streams; its exit code.
fn report(o: CmdOutput, stdout: &mut Vec<u8>, stderr: &mut Vec<u8>) -> (r: i32)
    ensures
        final(stdout)@ == old(stdout)@ + utf8(o.stdout@),
        final(stderr)@ == old(stderr)@ + utf8(o.stderr@),
        r == o.exit_code,
{
    write_str(stdout, o.stdout.as_str());
    write_str(stderr, o.stderr.as_str());
    o.exit_code
}

impl ZillSession {
    /// Runs the builtin `name`.
    fn execute_builtin(&mut self, name: &str, args: &[String], stdin: &[u8], stdout: &mut Vec<u8>, stderr: &mut Vec<u8>) -> (r:
        Result<i32, ZillError>)
        requires
            old(self).wf(),
        ensures
            final(self).wf(),
            final(self)@ == spec_builtin(old(self)@, name@, strs_view(args@), stdin@).st,
            final(stdout)@ == old(stdout)@ + spec_builtin(old(self)@, name@, strs_view(args@), stdin@).out,
            final(stderr)@ == old(stderr)@ + spec_builtin(old(self)@, name@, strs_view(args@), stdin@).err,
            res_i32(r) == spec_builtin(old(self)@, name@, strs_view(args@), stdin@).res,
    {
        let ghost b = spec_builtin(self@, name@, strs_view(args@), stdin@);
        let ghost o0 = stdout@;
        let ghost e0 = stderr@;
        proof {
            assert(o0 =~= o0 + Seq::<u8>::empty());
            assert(e0 =~= e0 + Seq::<u8>::empty());
            lemma_touch_quiet(self@, strs_view(args@), 0);
            lemma_rm_quiet(self@, strs_view(args@), 0);
            match parse_args(strs_view(args@), mkdir_table(), Seq::empty(), mkdir_text()) {
                Ok(p) => lemma_mkdir_quiet(self@, p.1, 0, has_opt(p.0, 'p')),
                Err(_) => {},
            }
        }
        let r = if str_eq(name, "pwd") {
            self.builtin_pwd(args, stdin, stdout, stderr)
        } else if str_eq(name, "cd") {
            self.builtin_cd(args, stdin, stdout, stderr)
        } else if str_eq(name, "ls") {
            self.builtin_ls(args, stdin, stdout, stderr)
        } else if str_eq(name, "cat") {
            self.builtin_cat(args, stdin, stdout, stderr)
        } else if str_eq(name, "echo") {
            self.builtin_echo(args, stdin, stdout, stderr)
        } else if str_eq(name, "mkdir") {
            self.builtin_mkdir(args, stdin, stdout, stderr)
        } else if str_eq(name, "touch") {
            self.builtin_touch(args, stdin, stdout, stderr)
        } else if str_eq(name, "rm") {
            self.builtin_rm(args, stdin, stdout, stderr)
        } else if str_eq(name, "rg") {
            match self.builtin_rg(args) {
                Ok(o) => Ok(report(o, stdout, stderr)),
                Err(e) => Err(e),
            }
        } else if str_eq(name, "fd") {
            match self.builtin_fd(args) {
                Ok(o) => Ok(report(o, stdout, stderr)),
                Err(e) => Err(e),
            }
        } else if str_eq(name, "true") || str_eq(name, ":") {
            Ok(0)
        } else if str_eq(name, "false") {
            Ok(1)
        } else {
            proof {
                lemma_utf8_concat(name@, ": command not found\n"@);
            }
            write_str(stderr, name);
            write_str(stderr, ": command not found\n");
            Ok(127)
        };
        assert(stdout@ == o0 + b.out);
        assert(stderr@ == e0 + b.err);
        r
    }

    /// Runs a simple command.
    fn execute_command(
        &mut self,
        argv: &Vec<String>,
        redirects: &Vec<Redirection>,
        stdin: &mut Vec<u8>,
        stdout: &mut Vec<u8>,
        stderr: &mut Vec<u8>,
    ) -> (r: Result<i32, ZillError>)
        requires
            old(self).wf(),
        ensures
            final(self).wf(),
            ran(
                spec_command(old(self)@, strs_view(argv@), crate::parser::redirs_view(redirects@), old(stdin)@),
                final(self)@,
                final(stdin)@,
                old(stdout)@,
                final(stdout)@,
                old(stderr)@,
                final(stderr)@,
                r,
            ),
    {
        let ghost st = self@;
        let ghost av = strs_view(argv@);
        let ghost rv = crate::parser::redirs_view(redirects@);
        let ghost ex_spec = expand_all(av, st);
        let mut ex: Vec<String> = Vec::new();
        let mut i: usize = 0;
        while i < argv.len()
            invariant
                i <= argv@.len(),
                st == self@,
                av == strs_view(argv@),
                ex_spec == expand_all(av, st),
                strs_view(ex@) == ex_spec.take(i as int),
            decreases argv.len() - i,
        {
            let x = self.expand_variables(argv[i].as_str());
            assert(ex_spec.take(i + 1) =~= ex_spec.take(i as int).push(x@));
            assert(strs_view(ex@.push(x)) =~= strs_view(ex@).push(x@));
            ex.push(x);
            i += 1;
        }
        assert(ex_spec.take(argv@.len() as int) =~= ex_spec);
        proof {
            assert(stdout@ =~= stdout@ + Seq::<u8>::empty());
            assert(stderr@ =~= stderr@ + Seq::<u8>::empty());
        }
        if ex.len() == 0 {
            return Ok(0);
        }
        if ex.len() == 1 {
            let cs = chars_of(ex[0].as_str());
            assert(cs@ == ex_spec[0]);
            let mut e: usize = 0;
            while e < cs.len() && cs[e] != '='
                invariant
                    e <= cs@.len(),
                    eq_pos(cs@, 0) == eq_pos(cs@, e as int),
                decreases cs.len() - e,
            {
                e += 1;
            }
            if e < cs.len() {
                let k = string_from_range(cs.as_slice(), 0, e);
                let v = string_from_range(cs.as_slice(), e + 1, cs.len());
                assert(k@ =~= cs@.take(e as int));
                assert(v@ =~= cs@.skip(e + 1));
                self.variables.set(k, v);
                return Ok(0);
            }
        }
        let ghost name_v = ex_spec[0];
        let ghost args_v = ex_spec.drop_first();
        let mut cmd_in: Vec<u8> = Vec::new();
        std::mem::swap(&mut cmd_in, stdin);
        let ghost input0 = cmd_in@;
        let mut target: Option<(String, bool)> = None;
        let mut failed: Option<ZillError> = None;
        let mut j: usize = 0;
        while j < redirects.len() && failed.is_none()
            invariant
                failed matches Some(e) ==> redirect_from(st, rv, 0, input0, None) == Err::<
                    (Seq<u8>, Option<(Seq<char>, bool)>),
                    ErrView,
                >(e@),
                self.wf(),
                st == self@,
                j <= redirects@.len(),
                rv == crate::parser::redirs_view(redirects@),
                failed is None ==> redirect_from(st, rv, 0, input0, None) == redirect_from(
                    st,
                    rv,
                    j as int,
                    cmd_in@,
                    match target {
                        Some(t) => Some((t.0@, t.1)),
                        None => None,
                    },
                ),
            decreases redirects.len() - j,
        {
            assert(rv[j as int] == redirects@[j as int]@);
            match &redirects[j] {
                Redirection::Stdin(p) => {
                    let c = self.vfs.canonicalize(p.as_str(), self.cwd.as_str());
                    match self.vfs.read(c.as_str()) {
                        Ok(d) => {
                            cmd_in = copy_bytes(d);
                        },
                        Err(e) => {
                            failed = Some(e);
                        },
                    }
                },
                Redirection::StdoutOverwrite(p) => {
                    let c = self.vfs.canonicalize(p.as_str(), self.cwd.as_str());
                    target = Some((c, false));
                },
                Redirection::StdoutAppend(p) => {
                    let c = self.vfs.canonicalize(p.as_str(), self.cwd.as_str());
                    target = Some((c, true));
                },
            }
            j += 1;
        }
        match failed {
            Some(e) => {
                return Err(e);
            },
            None => {},
        }
        let name = ex.remove(0);
        assert(strs_view(ex@) =~= args_v);
        match target {
            None => self.execute_builtin(name.as_str(), ex.as_slice(), cmd_in.as_slice(), stdout, stderr),
            Some((path, append)) => {
                let mut writer: Vec<u8> = Vec::new();
                let res = self.execute_builtin(name.as_str(), ex.as_slice(), cmd_in.as_slice(), &mut writer, stderr);
                let code = match res {
                    Ok(c) => c,
                    Err(e) => {
                        return Err(e);
                    },
                };
                let now = self.now;
                let content = if append {
                    let mut existing = match self.vfs.read(path.as_str()) {
                        Ok(d) => copy_bytes(d),
                        Err(ZillError::NotFound(x)) => Vec::new(),
                        Err(e) => {
                            return Err(e);
                        },
                    };
                    write_bytes(&mut existing, writer.as_slice());
                    existing
                } else {
                    assert(writer@ =~= Seq::<u8>::empty() + writer@);
                    writer
                };
                match self.vfs.write_at(path.as_str(), content, now) {
                    Ok(()) => Ok(code),
                    Err(e) => Err(e),
                }
            },
        }
    }
}

impl ZillSession {
    /// Runs a node of a parsed command line.
    pub fn execute_node(&mut self, node: &AstNode, stdin: &mut Vec<u8>, stdout: &mut Vec<u8>, stderr: &mut Vec<u8>) -> (r:
        Result<i32, ZillError>)
        requires
            old(self).wf(),
        ensures
            final(self).wf(),
            ran(
                exec_node(old(self)@, node@, old(stdin)@),
                final(self)@,
                final(stdin)@,
                old(stdout)@,
                final(stdout)@,
                old(stderr)@,
                final(stderr)@,
                r,
            ),
        decreases node@, 1int,
    {
        let ghost st = self@;
        let ghost o0 = stdout@;
        let ghost e0 = stderr@;
        let ghost i0 = stdin@;
        match node {
            AstNode::Command { argv, redirects } => self.execute_command(argv, redirects, stdin, stdout, stderr),
            AstNode::Pipeline { nodes } => self.execute_pipeline(nodes, stdin, stdout, stderr),
            AstNode::Sequence { nodes } => self.execute_list(nodes, stdin, stdout, stderr),
            AstNode::Logical { left, right, operator } => {
                let left_code = match self.execute_node(left, stdin, stdout, stderr) {
                    Ok(c) => c,
                    Err(e) => {
                        return Err(e);
                    },
                };
                let go = match operator {
                    LogicalOperator::And => left_code == 0,
                    LogicalOperator::Or => left_code != 0,
                };
                if go {
                    let ghost s1 = self@;
                    let r = self.execute_node(right, stdin, stdout, stderr);
                    proof {
                        let a = exec_node(st, left@, i0);
                        let b = exec_node(s1, right@, a.input);
                        assert(stdout@ =~= o0 + (a.out + b.out));
                        assert(stderr@ =~= e0 + (a.err + b.err));
                    }
                    r
                } else {
                    Ok(left_code)
                }
            },
            AstNode::Subshell { node: inner } => {
                let old_cwd = owned(self.cwd.as_str());
                let old_vars = self.variables.duplicate();
                let result = self.execute_node(inner, stdin, stdout, stderr);
                self.cwd = old_cwd;
                self.variables = old_vars;
                result
            },
            AstNode::If { condition, then_part, else_part } => {
                let mut quiet_in: Vec<u8> = Vec::new();
                let mut quiet_out: Vec<u8> = Vec::new();
                let mut quiet_err: Vec<u8> = Vec::new();
                let cond = self.execute_node(condition, &mut quiet_in, &mut quiet_out, &mut quiet_err);
                assert(stdout@ =~= o0 + Seq::<u8>::empty());
                assert(stderr@ =~= e0 + Seq::<u8>::empty());
                let code = match cond {
                    Ok(c) => c,
                    Err(e) => {
                        return Err(e);
                    },
                };
                if code == 0 {
                    self.execute_node(then_part, stdin, stdout, stderr)
                } else {
                    match else_part {
                        Some(e) => self.execute_node(e, stdin, stdout, stderr),
                        None => Ok(0),
                    }
                }
            },
            AstNode::For { variable, items, body } => self.execute_for(variable, items, body, stdin, stdout, stderr),
        }
    }

    /// Runs the stages of a pipeline, each reading what the one before wrote.
    #[verifier::rlimit(40)]
    fn execute_pipeline(&mut self, nodes: &Vec<AstNode>, stdin: &mut Vec<u8>, stdout: &mut Vec<u8>, stderr: &mut Vec<u8>) -> (r:
        Result<i32, ZillError>)
        requires
            old(self).wf(),
        ensures
            final(self).wf(),
            ran(
                pipe_from(old(self)@, crate::parser::ast_views(nodes@), 0, old(stdin)@, Seq::empty(), 0),
                final(self)@,
                final(stdin)@,
                old(stdout)@,
                final(stdout)@,
                old(stderr)@,
                final(stderr)@,
                r,
            ),
        decreases crate::parser::ast_views(nodes@), 2int,
    {
        proof {
            crate::parser::lemma_ast_views(nodes@);
        }
        let ghost st = self@;
        let ghost o0 = stdout@;
        let ghost e0 = stderr@;
        let ghost i0 = stdin@;
        let ghost nv = crate::parser::ast_views(nodes@);
        let ghost target = pipe_from(st, nv, 0, i0, Seq::empty(), 0);
        let n = nodes.len();
        let mut last: i32 = 0;
        let mut piped: Vec<u8> = Vec::new();
        let mut i: usize = 0;
        let ghost mut acc_err: Seq<u8> = Seq::empty();
        let ghost mut acc_out: Seq<u8> = Seq::empty();
        assert(e0 =~= e0 + acc_err);
        assert(o0 =~= o0 + acc_out);
        assert(target.err =~= acc_err + target.err);
        assert(target.out =~= acc_out + target.out);
        while i < n
            invariant
                self.wf(),
                n == nodes@.len(),
                i <= n,
                nv == crate::parser::ast_views(nodes@),
                nv.len() == n,
                forall|k: int| 0 <= k < n ==> #[trigger] nv[k] == nodes@[k]@,
                i == 0 ==> stdin@ == i0 && self@ == st && piped@ == Seq::<u8>::empty() && last == 0 && acc_err == Seq::<
                    u8,
                >::empty() && acc_out == Seq::<u8>::empty(),
                target == pipe_from(old(self)@, nv, 0, old(stdin)@, Seq::empty(), 0),
                o0 == old(stdout)@,
                e0 == old(stderr)@,
                ({
                    let rest = pipe_from(self@, nv, i as int, stdin@, piped@, last);
                    &&& target.st == rest.st
                    &&& target.input == rest.input
                    &&& target.res == rest.res
                    &&& target.err == acc_err + rest.err
                    &&& target.out == acc_out + rest.out
                }),
                stderr@ == e0 + acc_err,
                stdout@ == o0 + acc_out,
            decreases n - i,
        {
            let ghost s_i = self@;
            let ghost in_i = stdin@;
            let ghost p_i = piped@;
            let ghost l_i = last;
            let mut next: Vec<u8> = Vec::new();
            if i == 0 {
                let res = self.execute_node(&nodes[0], stdin, &mut next, stderr);
                let ghost a = exec_node(s_i, nv[0], in_i);
                match res {
                    Ok(c) => {
                        last = c;
                    },
                    Err(e) => {
                        proof {
                            assert(pipe_from(s_i, nv, 0, in_i, p_i, l_i) == Exec { out: Seq::<u8>::empty(), ..a });
                            assert(stderr@ =~= e0 + a.err);
                            assert(target.out =~= Seq::<u8>::empty());
                        }
                        return Err(e);
                    },
                }
                proof {
                    assert(next@ =~= a.out);
                    let rest = pipe_from(a.st, nv, 1, a.input, a.out, last);
                    assert(stderr@ =~= e0 + a.err);
                    assert(target.err =~= a.err + rest.err);
                    assert(target.out =~= acc_out + rest.out);
                    acc_err = a.err;
                }
            } else if i == n - 1 {
                let mut reader = copy_bytes(piped.as_slice());
                let res = self.execute_node(&nodes[i], &mut reader, stdout, stderr);
                let ghost a = exec_node(s_i, nv[i as int], p_i);
                match res {
                    Ok(c) => {
                        last = c;
                    },
                    Err(e) => {
                        proof {
                            assert(pipe_from(s_i, nv, i as int, in_i, p_i, l_i) == Exec { input: in_i, ..a });
                            assert(stderr@ =~= e0 + (acc_err + a.err));
                            assert(stdout@ =~= o0 + (acc_out + a.out));
                        }
                        return Err(e);
                    },
                }
                proof {
                    let rest = pipe_from(a.st, nv, i + 1, in_i, Seq::<u8>::empty(), last);
                    assert(stderr@ =~= e0 + (acc_err + a.err));
                    assert(stdout@ =~= o0 + (acc_out + a.out));
                    assert(target.err =~= (acc_err + a.err) + rest.err);
                    assert(target.out =~= (acc_out + a.out) + rest.out);
                    acc_err = acc_err + a.err;
                    acc_out = acc_out + a.out;
                }
            } else {
                let mut reader = copy_bytes(piped.as_slice());
                let res = self.execute_node(&nodes[i], &mut reader, &mut next, stderr);
                let ghost a = exec_node(s_i, nv[i as int], p_i);
                match res {
                    Ok(c) => {
                        last = c;
                    },
                    Err(e) => {
                        proof {
                            assert(pipe_from(s_i, nv, i as int, in_i, p_i, l_i) == Exec {
                                input: in_i,
                                out: Seq::<u8>::empty(),
                                ..a
                            });
                            assert(stderr@ =~= e0 + (acc_err + a.err));
                            assert(target.out =~= acc_out + Seq::<u8>::empty());
                        }
                        return Err(e);
                    },
                }
                proof {
                    assert(next@ =~= a.out);
                    let rest = pipe_from(a.st, nv, i + 1, in_i, a.out, last);
                    assert(stderr@ =~= e0 + (acc_err + a.err));
                    assert(target.err =~= (acc_err + a.err) + rest.err);
                    acc_err = acc_err + a.err;
                }
            }
            piped = next;
            i += 1;
        }
        proof {
            assert(acc_err + Seq::<u8>::empty() =~= acc_err);
            assert(acc_out + Seq::<u8>::empty() =~= acc_out);
        }
        Ok(last)
    }

    /// Runs the nodes of a list one after the other.
    #[verifier::rlimit(40)]
    fn execute_list(&mut self, nodes: &Vec<AstNode>, stdin: &mut Vec<u8>, stdout: &mut Vec<u8>, stderr: &mut Vec<u8>) -> (r:
        Result<i32, ZillError>)
        requires
            old(self).wf(),
        ensures
            final(self).wf(),
            ran(
                seq_from(old(self)@, crate::parser::ast_views(nodes@), 0, old(stdin)@, 0),
                final(self)@,
                final(stdin)@,
                old(stdout)@,
                final(stdout)@,
                old(stderr)@,
                final(stderr)@,
                r,
            ),
        decreases crate::parser::ast_views(nodes@), 2int,
    {
        proof {
            crate::parser::lemma_ast_views(nodes@);
        }
        let ghost o0 = stdout@;
        let ghost e0 = stderr@;
        let ghost nv = crate::parser::ast_views(nodes@);
        let ghost target = seq_from(self@, nv, 0, stdin@, 0);
        let mut last: i32 = 0;
        let mut i: usize = 0;
        let ghost mut ao: Seq<u8> = Seq::empty();
        let ghost mut ae: Seq<u8> = Seq::empty();
        assert(stdout@ =~= o0 + ao);
        assert(stderr@ =~= e0 + ae);
        assert(target.out =~= ao + target.out);
        assert(target.err =~= ae + target.err);
        while i < nodes.len()
            invariant
                self.wf(),
                i <= nodes@.len(),
                nv == crate::parser::ast_views(nodes@),
                nv.len() == nodes@.len(),
                forall|k: int| 0 <= k < nodes@.len() ==> #[trigger] nv[k] == nodes@[k]@,
                target == seq_from(old(self)@, nv, 0, old(stdin)@, 0),
                o0 == old(stdout)@,
                e0 == old(stderr)@,
                ({
                    let rest = seq_from(self@, nv, i as int, stdin@, last);
                    &&& target.st == rest.st
                    &&& target.input == rest.input
                    &&& target.res == rest.res
                    &&& target.out == ao + rest.out
                    &&& target.err == ae + rest.err
                }),
                stdout@ == o0 + ao,
                stderr@ == e0 + ae,
            decreases nodes@.len() - i,
        {
            let ghost s_i = self@;
            let ghost in_i = stdin@;
            let ghost l_i = last;
            let res = self.execute_node(&nodes[i], stdin, stdout, stderr);
            let ghost a = exec_node(s_i, nv[i as int], in_i);
            match res {
                Ok(c) => {
                    last = c;
                },
                Err(e) => {
                    proof {
                        assert(seq_from(s_i, nv, i as int, in_i, l_i) == a);
                        assert(stdout@ =~= o0 + (ao + a.out));
                        assert(stderr@ =~= e0 + (ae + a.err));
                    }
                    return Err(e);
                },
            }
            proof {
                let rest2 = seq_from(a.st, nv, i + 1, a.input, last);
                assert(stdout@ =~= o0 + (ao + a.out));
                assert(stderr@ =~= e0 + (ae + a.err));
                assert(target.out =~= (ao + a.out) + rest2.out);
                assert(target.err =~= (ae + a.err) + rest2.err);
                ao = ao + a.out;
                ae = ae + a.err;
            }
            i += 1;
        }
        proof {
            assert(ao + Seq::<u8>::empty() =~= ao);
            assert(ae + Seq::<u8>::empty() =~= ae);
        }
        Ok(last)
    }

    /// Runs the body of a `for` loop once per item, with the variable bound to it.
    #[verifier::rlimit(40)]
    fn execute_for(
        &mut self,
        variable: &String,
        items: &Vec<String>,
        body: &AstNode,
        stdin: &mut Vec<u8>,
        stdout: &mut Vec<u8>,
        stderr: &mut Vec<u8>,
    ) -> (r: Result<i32, ZillError>)
        requires
            old(self).wf(),
        ensures
            final(self).wf(),
            ran(
                for_from(old(self)@, variable@, strs_view(items@), body@, 0, old(stdin)@, 0),
                final(self)@,
                final(stdin)@,
                old(stdout)@,
                final(stdout)@,
                old(stderr)@,
                final(stderr)@,
                r,
            ),
        decreases body@, 2int,
    {
        let ghost o0 = stdout@;
        let ghost e0 = stderr@;
        let ghost iv = strs_view(items@);
        let ghost bv = body@;
        let ghost target = for_from(self@, variable@, iv, bv, 0, stdin@, 0);
        let mut last: i32 = 0;
        let mut k: usize = 0;
        let ghost mut ao: Seq<u8> = Seq::empty();
        let ghost mut ae: Seq<u8> = Seq::empty();
        assert(stdout@ =~= o0 + ao);
        assert(stderr@ =~= e0 + ae);
        assert(target.out =~= ao + target.out);
        assert(target.err =~= ae + target.err);
        while k < items.len()
            invariant
                self.wf(),
                k <= items@.len(),
                iv == strs_view(items@),
                bv == body@,
                target == for_from(old(self)@, variable@, iv, bv, 0, old(stdin)@, 0),
                o0 == old(stdout)@,
                e0 == old(stderr)@,
                ({
                    let rest = for_from(self@, variable@, iv, bv, k as int, stdin@, last);
                    &&& target.st == rest.st
                    &&& target.input == rest.input
                    &&& target.res == rest.res
                    &&& target.out == ao + rest.out
                    &&& target.err == ae + rest.err
                }),
                stdout@ == o0 + ao,
                stderr@ == e0 + ae,
            decreases items@.len() - k,
        {
            let ghost s_i = self@;
            let ghost in_i = stdin@;
            let ghost l_i = last;
            self.variables.set(owned(variable.as_str()), owned(items[k].as_str()));
            assert(iv[k as int] == items@[k as int]@);
            let ghost s1 = self@;
            assert(s1 == SessView { vars: s_i.vars.insert(variable@, iv[k as int]), ..s_i });
            let res = self.execute_node(body, stdin, stdout, stderr);
            let ghost a = exec_node(s1, bv, in_i);
            match res {
                Ok(c) => {
                    last = c;
                },
                Err(e) => {
                    proof {
                        assert(for_from(s_i, variable@, iv, bv, k as int, in_i, l_i) == a);
                        assert(stdout@ =~= o0 + (ao + a.out));
                        assert(stderr@ =~= e0 + (ae + a.err));
                    }
                    return Err(e);
                },
            }
            proof {
                let rest2 = for_from(a.st, variable@, iv, bv, k + 1, a.input, last);
                assert(stdout@ =~= o0 + (ao + a.out));
                assert(stderr@ =~= e0 + (ae + a.err));
                assert(target.out =~= (ao + a.out) + rest2.out);
                assert(target.err =~= (ae + a.err) + rest2.err);
                ao = ao + a.out;
                ae = ae + a.err;
            }
            k += 1;
        }
        proof {
            assert(ao + Seq::<u8>::empty() =~= ao);
            assert(ae + Seq::<u8>::empty() =~= ae);
        }
        Ok(last)
    }
}

impl ZillSession {
    /// Runs a command line, stamping the changes it makes with the time `now`.
    pub fn run_at(&mut self, input: &str, now: i64) -> (r: CmdOutput)
        requires
            old(self).wf(),
        ensures
            final(self).wf(),
            (final(self)@, output_view(r)) == spec_run(at_time(old(self)@, now), input@),
    {
        self.now = now;
        let mut parser = match Parser::new(input) {
            Ok(p) => p,
            Err(e) => {
                return CmdOutput::error(concat2("zill: parse error: ", e.as_str()), 1);
            },
        };
        let ast = match parser.parse() {
            Ok(a) => a,
            Err(e) => {
                return CmdOutput::error(concat2("zill: parse error: ", e.as_str()), 1);
            },
        };
        let max_output = self.limits.max_output_size;
        let mut stdin: Vec<u8> = Vec::new();
        let mut stdout: Vec<u8> = Vec::new();
        let mut stderr: Vec<u8> = Vec::new();
        let code = match self.execute_node(&ast, &mut stdin, &mut stdout, &mut stderr) {
            Ok(c) => c,
            Err(e) => {
                return CmdOutput::error(e.message(), 1);
            },
        };
        assert(stdout@ =~= Seq::<u8>::empty() + stdout@);
        assert(stderr@ =~= Seq::<u8>::empty() + stderr@);
        CmdOutput {
            stdout: cap_text(from_utf8_lossy(stdout.as_slice()).as_str(), max_output),
            stderr: from_utf8_lossy(stderr.as_slice()),
            exit_code: code,
        }
    }

    /// Runs a command line and reports its output. The session keeps its own clock: the
    /// command line runs one second after the previous one (see [`tick`]), and its
    /// changes are stamped with that time.
    pub fn run(&mut self, input: &str) -> (r: CmdOutput)
        requires
            old(self).wf(),
        ensures
            final(self).wf(),
            (final(self)@, output_view(r)) == spec_run(at_time(old(self)@, tick(old(self).now)), input@),
            crate::shell_laws::tree_of(old(self)@) && crate::shell_laws::session_within(old(self)@) ==> crate::shell_laws::tree_of(
                final(self)@,
            ) && crate::shell_laws::session_within(final(self)@),
    {
        let now = if self.now <= i64::MAX - 1_000_000 {
            self.now + 1_000_000
        } else {
            self.now
        };
        let r = self.run_at(input, now);
        proof {
            if crate::shell_laws::tree_of(old(self)@) && crate::shell_laws::session_within(old(self)@) {
                crate::shell_laws::law_run_keeps_shape(at_time(old(self)@, now), input@);
            }
        }
        r
    }
}

} // verus!
