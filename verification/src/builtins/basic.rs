//! The file and directory builtins: `pwd`, `cd`, `echo`, `mkdir`, `touch`, `rm`.
use vstd::prelude::*;
use crate::builtins::args::{CliText, OptTable, pairs_view, parse_args, parse_options};
use crate::error::{ErrView, ZillError};
use crate::fs::{NodeView, FsMap, parent_path, res_view, spec_canonicalize, spec_create_file, spec_mkdir_p, spec_remove, spec_stat, spec_touch};
use crate::path::{parent_of, slash};
use crate::session::{BOut, SessView, ZillSession, utf8, write_str};
use crate::text::{owned, str_eq, strs_view};

verus! {

pub open spec fn nl() -> Seq<char> {
    seq!['\n']
}

/// The session state with a new file system.
pub open spec fn with_fs(st: SessView, fs: FsMap) -> SessView {
    SessView { fs, ..st }
}

pub open spec fn done(st: SessView, out: Seq<u8>, err: Seq<u8>, res: Result<i32, ErrView>) -> BOut {
    BOut { st, out, err, res }
}

/// `pwd`: prints the working directory.
pub open spec fn spec_pwd(st: SessView) -> BOut {
    done(st, utf8(st.cwd) + utf8(nl()), Seq::empty(), Ok(0))
}

/// `cd [dir]`: changes the working directory (to `/` without an argument).
pub open spec fn spec_cd(st: SessView, args: Seq<Seq<char>>) -> BOut {
    let target = if args.len() > 0 {
        args[0]
    } else {
        slash()
    };
    let np = spec_canonicalize(target, st.cwd);
    match spec_stat(st.fs, np) {
        Err(e) => done(st, Seq::empty(), Seq::empty(), Err(e)),
        Ok(n) => if n is Dir {
            done(SessView { cwd: np, ..st }, Seq::empty(), Seq::empty(), Ok(0))
        } else {
            done(st, Seq::empty(), Seq::empty(), Err(ErrView::NotADirectory(target)))
        },
    }
}

/// The number of leading `-n` arguments.
pub open spec fn leading_n(args: Seq<Seq<char>>, i: int) -> int
    decreases args.len() - i,
{
    if 0 <= i < args.len() && args[i] == "-n"@ {
        leading_n(args, i + 1)
    } else {
        i
    }
}

/// Words joined with single spaces.
pub open spec fn join_spaces(ws: Seq<Seq<char>>) -> Seq<char>
    decreases ws.len(),
{
    if ws.len() == 0 {
        Seq::empty()
    } else if ws.len() == 1 {
        ws[0]
    } else {
        join_spaces(ws.drop_last()) + seq![' '] + ws.last()
    }
}

/// `echo [-n]... words`: prints the words separated by spaces; leading `-n` drops the newline.
pub open spec fn spec_echo(st: SessView, args: Seq<Seq<char>>) -> BOut {
    let n = leading_n(args, 0);
    let text = join_spaces(args.subrange(n, args.len() as int));
    let out = if n > 0 {
        utf8(text)
    } else {
        utf8(text) + utf8(nl())
    };
    done(st, out, Seq::empty(), Ok(0))
}

/// `touch` for the arguments from `i`: sets the modification time of each path that
/// exists to the time of the command, and creates each one that does not as an empty file.
pub open spec fn touch_from(st: SessView, args: Seq<Seq<char>>, i: int) -> BOut
    decreases args.len() - i,
{
    if i < 0 || i >= args.len() {
        done(st, Seq::empty(), Seq::empty(), Ok(0))
    } else {
        let path = spec_canonicalize(args[i], st.cwd);
        if spec_stat(st.fs, path) is Ok {
            touch_from(with_fs(st, spec_touch(st.fs, path, st.now)), args, i + 1)
        } else {
            let (fs1, r) = spec_create_file(st.fs, path, Seq::empty(), st.now, st.node_limit, st.size_limit);
            match r {
                Err(e) => done(with_fs(st, fs1), Seq::empty(), Seq::empty(), Err(e)),
                Ok(_) => touch_from(with_fs(st, fs1), args, i + 1),
            }
        }
    }
}

/// `rm` for the arguments from `i`: removes each file; a directory is an error.
pub open spec fn rm_from(st: SessView, args: Seq<Seq<char>>, i: int) -> BOut
    decreases args.len() - i,
{
    if i < 0 || i >= args.len() {
        done(st, Seq::empty(), Seq::empty(), Ok(0))
    } else {
        let path = spec_canonicalize(args[i], st.cwd);
        match spec_stat(st.fs, path) {
            Err(e) => done(st, Seq::empty(), Seq::empty(), Err(e)),
            Ok(n) => if n is Dir {
                done(st, Seq::empty(), Seq::empty(), Err(ErrView::RmIsDirectory(args[i])))
            } else {
                let (fs1, r) = spec_remove(st.fs, path, st.now);
                match r {
                    Err(e) => done(with_fs(st, fs1), Seq::empty(), Seq::empty(), Err(e)),
                    Ok(_) => rm_from(with_fs(st, fs1), args, i + 1),
                }
            },
        }
    }
}

/// `rm` never removes a directory: every directory of the file system is still a directory
/// afterwards, and an argument that names a directory ends `rm` with `RmIsDirectory` for
/// that argument, leaving the session as it was before that argument.
pub proof fn law_rm_keeps_directories(st: SessView, args: Seq<Seq<char>>, i: int)
    requires
        0 <= i,
    ensures
        forall|k: Seq<char>|
            #[trigger] st.fs.contains_key(k) && st.fs[k] is Dir ==> rm_from(st, args, i).st.fs.contains_key(k)
                && rm_from(st, args, i).st.fs[k] is Dir,
        (i < args.len() && spec_stat(st.fs, spec_canonicalize(args[i], st.cwd)) is Ok && spec_stat(
            st.fs,
            spec_canonicalize(args[i], st.cwd),
        )->Ok_0 is Dir) ==> rm_from(st, args, i).res == Err::<i32, ErrView>(ErrView::RmIsDirectory(args[i]))
            && rm_from(st, args, i).st == st,
    decreases args.len() - i,
{
    if i < args.len() {
        let path = spec_canonicalize(args[i], st.cwd);
        match spec_stat(st.fs, path) {
            Err(_) => {},
            Ok(n) => if !(n is Dir) {
                let (fs1, r) = spec_remove(st.fs, path, st.now);
                assert forall|k: Seq<char>| #[trigger] st.fs.contains_key(k) && st.fs[k] is Dir implies fs1.contains_key(k)
                    && fs1[k] is Dir by {
                    assert(k != crate::path::norm(path));
                }
                if r is Ok {
                    law_rm_keeps_directories(with_fs(st, fs1), args, i + 1);
                }
            },
        }
    }
}

/// `rm` adds nothing to the file system, and when it succeeds none of its arguments from
/// the `i`-th on names anything afterwards.
pub proof fn law_rm_removes_arguments(st: SessView, args: Seq<Seq<char>>, i: int)
    requires
        0 <= i,
    ensures
        forall|k: Seq<char>| #[trigger] rm_from(st, args, i).st.fs.contains_key(k) ==> st.fs.contains_key(k),
        rm_from(st, args, i).res is Ok ==> forall|j: int|
            i <= j < args.len() ==> !rm_from(st, args, i).st.fs.contains_key(
                #[trigger] crate::path::norm(spec_canonicalize(args[j], st.cwd)),
            ),
    decreases args.len() - i,
{
    if i < args.len() {
        let path = spec_canonicalize(args[i], st.cwd);
        match spec_stat(st.fs, path) {
            Err(_) => {},
            Ok(n) => if !(n is Dir) {
                let (fs1, r) = spec_remove(st.fs, path, st.now);
                assert forall|k: Seq<char>| #[trigger] fs1.contains_key(k) implies st.fs.contains_key(k) by {}
                if r is Ok {
                    law_rm_removes_arguments(with_fs(st, fs1), args, i + 1);
                    assert(!fs1.contains_key(crate::path::norm(path)));
                }
            },
        }
    }
}

/// `touch` writes nothing.
pub proof fn lemma_touch_quiet(st: SessView, args: Seq<Seq<char>>, i: int)
    ensures
        touch_from(st, args, i).out == Seq::<u8>::empty(),
        touch_from(st, args, i).err == Seq::<u8>::empty(),
    decreases args.len() - i,
{
    if 0 <= i < args.len() {
        let path = spec_canonicalize(args[i], st.cwd);
        if spec_stat(st.fs, path) is Ok {
            lemma_touch_quiet(with_fs(st, spec_touch(st.fs, path, st.now)), args, i + 1);
        } else {
            let (fs1, r) = spec_create_file(st.fs, path, Seq::empty(), st.now, st.node_limit, st.size_limit);
            lemma_touch_quiet(with_fs(st, fs1), args, i + 1);
        }
    }
}

/// `rm` writes nothing.
pub proof fn lemma_rm_quiet(st: SessView, args: Seq<Seq<char>>, i: int)
    ensures
        rm_from(st, args, i).out == Seq::<u8>::empty(),
        rm_from(st, args, i).err == Seq::<u8>::empty(),
    decreases args.len() - i,
{
    if 0 <= i < args.len() {
        let path = spec_canonicalize(args[i], st.cwd);
        let (fs1, r) = spec_remove(st.fs, path, st.now);
        lemma_rm_quiet(with_fs(st, fs1), args, i + 1);
    }
}

/// `mkdir` writes nothing to standard output.
pub proof fn lemma_mkdir_quiet(st: SessView, paths: Seq<Seq<char>>, i: int, parents: bool)
    ensures
        mkdir_from(st, paths, i, parents).out == Seq::<u8>::empty(),
    decreases paths.len() - i,
{
    if 0 <= i < paths.len() {
        let path = spec_canonicalize(paths[i], st.cwd);
        let make = spec_mkdir_p(st.fs, path, st.now, st.node_limit);
        lemma_mkdir_quiet(with_fs(st, make.0), paths, i + 1, parents);
    }
}

/// Whether option `c` was given.
pub open spec fn has_opt(opts: Seq<(char, Option<Seq<char>>)>, c: char) -> bool {
    exists|k: int| 0 <= k < opts.len() && #[trigger] opts[k].0 == c
}

/// The usage line of `mkdir`, as `clap` shows it.
pub const MKDIR_USAGE: &'static str = "zill [OPTIONS] [PATHS]...";

/// The help text of `mkdir`, as `clap` shows it for `-h` and `--help`.
pub const MKDIR_HELP: &'static str = "Usage: zill [OPTIONS] [PATHS]...\n\nArguments:\n  [PATHS]...  \n\nOptions:\n  -p          \n  -h, --help  Print help\n";

/// What `mkdir` shows about its options.
pub open spec fn mkdir_text() -> CliText {
    CliText { usage: MKDIR_USAGE@, help: MKDIR_HELP@, values: Seq::empty() }
}

pub open spec fn mkdir_table() -> Seq<(char, bool)> {
    seq![('p', false)]
}

/// `mkdir` of the paths from `i`: with `parents`, like `mkdir -p`; otherwise the parent
/// must be a directory and the path must not exist.
pub open spec fn mkdir_from(st: SessView, paths: Seq<Seq<char>>, i: int, parents: bool) -> BOut
    decreases paths.len() - i,
{
    if i < 0 || i >= paths.len() {
        done(st, Seq::empty(), Seq::empty(), Ok(0))
    } else {
        let path = spec_canonicalize(paths[i], st.cwd);
        let make = spec_mkdir_p(st.fs, path, st.now, st.node_limit);
        let next = if make.1 is Err {
            done(with_fs(st, make.0), Seq::empty(), Seq::empty(), Err(make.1->Err_0))
        } else {
            mkdir_from(with_fs(st, make.0), paths, i + 1, parents)
        };
        if parents {
            next
        } else {
            match parent_of(path) {
                None => done(st, Seq::empty(), Seq::empty(), Err(ErrView::InvalidPath("No parent"@))),
                Some(par) => match spec_stat(st.fs, par) {
                    Err(e) => done(st, Seq::empty(), Seq::empty(), Err(e)),
                    Ok(pn) => if !(pn is Dir) {
                        done(st, Seq::empty(), Seq::empty(), Err(ErrView::NotADirectory(par)))
                    } else if spec_stat(st.fs, path) is Ok {
                        done(st, Seq::empty(), Seq::empty(), Err(ErrView::FileExists(paths[i])))
                    } else {
                        next
                    },
                },
            }
        }
    }
}

/// `mkdir [-p] paths`.
pub open spec fn spec_mkdir(st: SessView, args: Seq<Seq<char>>) -> BOut {
    match parse_args(args, mkdir_table(), Seq::empty(), mkdir_text()) {
        Err(msg) => done(st, Seq::empty(), utf8(msg) + utf8(nl()), Ok(1)),
        Ok(p) => mkdir_from(st, p.1, 0, has_opt(p.0, 'p')),
    }
}

/// Whether option `c` was given.
pub fn opt_given(opts: &Vec<(char, Option<String>)>, c: char) -> (r: bool)
    ensures
        r == has_opt(crate::builtins::args::opts_view(opts@), c),
{
    let ghost ov = crate::builtins::args::opts_view(opts@);
    let mut i: usize = 0;
    while i < opts.len()
        invariant
            i <= opts@.len(),
            ov == crate::builtins::args::opts_view(opts@),
            forall|k: int| 0 <= k < i ==> #[trigger] ov[k].0 != c,
        decreases opts.len() - i,
    {
        assert(ov[i as int].0 == opts@[i as int].0);
        if opts[i].0 == c {
            return true;
        }
        i += 1;
    }
    false
}

pub fn write_line(out: &mut Vec<u8>, s: &str)
    ensures
        final(out)@ == old(out)@ + utf8(s@) + utf8(nl()),
{
    write_str(out, s);
    write_str(out, "\n");
    proof {
        reveal_strlit("\n");
        assert("\n"@ =~= nl());
    }
}

impl ZillSession {
    /// Prints the working directory.
    pub fn builtin_pwd(&self, args: &[String], stdin: &[u8], stdout: &mut Vec<u8>, stderr: &mut Vec<u8>) -> (r: Result<i32, ZillError>)
        ensures
            final(stdout)@ == old(stdout)@ + spec_pwd(self@).out,
            final(stderr)@ == old(stderr)@,
            r matches Ok(c) && c == 0,
    {
        write_line(stdout, self.cwd.as_str());
        Ok(0)
    }

    /// Changes the working directory.
    pub fn builtin_cd(&mut self, args: &[String], stdin: &[u8], stdout: &mut Vec<u8>, stderr: &mut Vec<u8>) -> (r: Result<i32, ZillError>)
        requires
            old(self).wf(),
        ensures
            final(self).wf(),
            final(self)@ == spec_cd(old(self)@, strs_view(args@)).st,
            final(stdout)@ == old(stdout)@,
            final(stderr)@ == old(stderr)@,
            crate::session::res_i32(r) == spec_cd(old(self)@, strs_view(args@)).res,
    {
        proof {
            reveal_strlit("/");
            assert("/"@ =~= slash());
        }
        let target: &str = if args.len() > 0 {
            args[0].as_str()
        } else {
            "/"
        };
        let new_path = self.vfs.canonicalize(target, self.cwd.as_str());
        let is_dir = match self.vfs.stat(new_path.as_str()) {
            Ok(n) => n.is_dir(),
            Err(e) => {
                return Err(e);
            },
        };
        if is_dir {
            self.cwd = new_path;
            Ok(0)
        } else {
            Err(ZillError::NotADirectory(owned(target)))
        }
    }

    /// Prints the arguments separated by spaces; leading `-n` arguments drop the newline.
    pub fn builtin_echo(&self, args: &[String], stdin: &[u8], stdout: &mut Vec<u8>, stderr: &mut Vec<u8>) -> (r: Result<i32, ZillError>)
        ensures
            final(stdout)@ == old(stdout)@ + spec_echo(self@, strs_view(args@)).out,
            final(stderr)@ == old(stderr)@,
            r matches Ok(c) && c == 0,
    {
        let ghost av = strs_view(args@);
        proof {
            reveal_strlit("-n");
        }
        let mut n: usize = 0;
        while n < args.len() && str_eq(args[n].as_str(), "-n")
            invariant
                n <= args@.len(),
                av == strs_view(args@),
                leading_n(av, 0) == leading_n(av, n as int),
            decreases args.len() - n,
        {
            n += 1;
        }
        let mut text = String::new();
        let mut k: usize = n;
        let ghost rest = av.subrange(n as int, av.len() as int);
        assert(rest.take(0) =~= Seq::<Seq<char>>::empty());
        while k < args.len()
            invariant
                n <= k <= args@.len(),
                av == strs_view(args@),
                rest == av.subrange(n as int, av.len() as int),
                text@ == join_spaces(rest.take(k - n)),
            decreases args.len() - k,
        {
            assert(rest.take(k - n + 1).drop_last() =~= rest.take(k - n));
            assert(rest.take(k - n + 1).last() == args@[k as int]@);
            if k > n {
                crate::text::push_char(&mut text, ' ');
            } else {
                assert(rest.take(1) =~= seq![rest[0]]);
            }
            text.append(args[k].as_str());
            k += 1;
        }
        assert(rest.take(k - n) =~= rest);
        write_str(stdout, text.as_str());
        if n == 0 {
            write_str(stdout, "\n");
            proof {
                reveal_strlit("\n");
                assert("\n"@ =~= nl());
            }
        }
        Ok(0)
    }

    /// Sets the modification time of each named file or directory to the time of the
    /// command, and creates each one that does not exist as an empty file.
    pub fn builtin_touch(&mut self, args: &[String], stdin: &[u8], stdout: &mut Vec<u8>, stderr: &mut Vec<u8>) -> (r: Result<i32, ZillError>)
        requires
            old(self).wf(),
        ensures
            final(self).wf(),
            final(self)@ == touch_from(old(self)@, strs_view(args@), 0).st,
            final(stdout)@ == old(stdout)@,
            final(stderr)@ == old(stderr)@,
            crate::session::res_i32(r) == touch_from(old(self)@, strs_view(args@), 0).res,
    {
        let ghost av = strs_view(args@);
        let ghost target = touch_from(self@, av, 0);
        let mut i: usize = 0;
        while i < args.len()
            invariant
                self.wf(),
                i <= args@.len(),
                av == strs_view(args@),
                target == touch_from(old(self)@, av, 0),
                touch_from(self@, av, i as int) == target,
                stderr@ == old(stderr)@,
                stdout@ == old(stdout)@,
            decreases args.len() - i,
        {
            let path = self.vfs.canonicalize(args[i].as_str(), self.cwd.as_str());
            let exists = self.vfs.stat(path.as_str()).is_ok();
            if exists {
                self.vfs.touch_at(path.as_str(), self.now);
            } else {
                match self.vfs.create_file_at(path.as_str(), Vec::new(), self.now) {
                    Ok(()) => {},
                    Err(e) => {
                        return Err(e);
                    },
                }
            }
            i += 1;
        }
        Ok(0)
    }

    /// Removes each named file; a directory is an error.
    pub fn builtin_rm(&mut self, args: &[String], stdin: &[u8], stdout: &mut Vec<u8>, stderr: &mut Vec<u8>) -> (r: Result<i32, ZillError>)
        requires
            old(self).wf(),
        ensures
            final(self).wf(),
            final(self)@ == rm_from(old(self)@, strs_view(args@), 0).st,
            final(stdout)@ == old(stdout)@,
            final(stderr)@ == old(stderr)@,
            crate::session::res_i32(r) == rm_from(old(self)@, strs_view(args@), 0).res,
    {
        let ghost av = strs_view(args@);
        let ghost target = rm_from(self@, av, 0);
        let mut i: usize = 0;
        while i < args.len()
            invariant
                self.wf(),
                i <= args@.len(),
                av == strs_view(args@),
                target == rm_from(old(self)@, av, 0),
                rm_from(self@, av, i as int) == target,
                stderr@ == old(stderr)@,
                stdout@ == old(stdout)@,
            decreases args.len() - i,
        {
            let path = self.vfs.canonicalize(args[i].as_str(), self.cwd.as_str());
            let is_dir = match self.vfs.stat(path.as_str()) {
                Ok(n) => n.is_dir(),
                Err(e) => {
                    return Err(e);
                },
            };
            if is_dir {
                return Err(ZillError::RmIsDirectory(owned(args[i].as_str())));
            }
            match self.vfs.remove_at(path.as_str(), self.now) {
                Ok(()) => {},
                Err(e) => {
                    return Err(e);
                },
            }
            i += 1;
        }
        Ok(0)
    }

    /// Creates directories; with `-p`, their parents too.
    pub fn builtin_mkdir(&mut self, args: &[String], stdin: &[u8], stdout: &mut Vec<u8>, stderr: &mut Vec<u8>) -> (r: Result<i32, ZillError>)
        requires
            old(self).wf(),
        ensures
            final(self).wf(),
            final(self)@ == spec_mkdir(old(self)@, strs_view(args@)).st,
            final(stdout)@ == old(stdout)@,
            final(stderr)@ == old(stderr)@ + spec_mkdir(old(self)@, strs_view(args@)).err,
            crate::session::res_i32(r) == spec_mkdir(old(self)@, strs_view(args@)).res,
    {
        let mut shorts: Vec<(char, bool)> = Vec::new();
        shorts.push(('p', false));
        let tbl = OptTable {
            shorts,
            longs: Vec::new(),
            usage: owned(MKDIR_USAGE),
            help: owned(MKDIR_HELP),
            values: Vec::new(),
        };
        assert(pairs_view(tbl.values@) =~= Seq::<(Seq<char>, Seq<char>)>::empty());
        assert(tbl.text() == mkdir_text());
        assert(tbl.shorts@ =~= mkdir_table());
        assert(crate::builtins::args::longs_view(tbl.longs@) =~= Seq::<(Seq<char>, char, bool)>::empty());
        let argv = crate::fs::clone_strings_slice(args);
        let parsed = match parse_options(&argv, &tbl) {
            Ok(p) => p,
            Err(msg) => {
                write_line(stderr, msg.as_str());
                return Ok(1);
            },
        };
        let parents = opt_given(&parsed.opts, 'p');
        let paths = &parsed.rest;
        let ghost pv = strs_view(paths@);
        let ghost target = spec_mkdir(self@, strs_view(args@));
        let mut i: usize = 0;
        while i < paths.len()
            invariant
                self.wf(),
                i <= paths@.len(),
                pv == strs_view(paths@),
                target == spec_mkdir(old(self)@, strs_view(args@)),
                mkdir_from(self@, pv, i as int, parents) == target,
                stderr@ == old(stderr)@,
                stdout@ == old(stdout)@,
            decreases paths.len() - i,
        {
            let path = self.vfs.canonicalize(paths[i].as_str(), self.cwd.as_str());
            if !parents {
                let par = match parent_path(path.as_str()) {
                    None => {
                        return Err(ZillError::InvalidPath(owned("No parent")));
                    },
                    Some(p) => p,
                };
                let pdir = match self.vfs.stat(par.as_str()) {
                    Ok(n) => n.is_dir(),
                    Err(e) => {
                        return Err(e);
                    },
                };
                if !pdir {
                    return Err(ZillError::NotADirectory(par));
                }
                if self.vfs.stat(path.as_str()).is_ok() {
                    return Err(ZillError::FileExists(owned(paths[i].as_str())));
                }
            }
            match self.vfs.mkdir_p_at(path.as_str(), self.now) {
                Ok(()) => {},
                Err(e) => {
                    return Err(e);
                },
            }
            i += 1;
        }
        Ok(0)
    }
}

} // verus!