//! `cat` and `ls`.
use vstd::prelude::*;
use crate::builtins::args::{CliText, OptTable, opts_view, pairs_view, parse_args, parse_options};
use crate::builtins::basic::{done, has_opt, nl, opt_given, write_line};
use crate::error::{ErrView, ZillError};
use crate::fs::{NodeView, spec_canonicalize, spec_read, spec_stat, join_path, join_path_exec, parent_path};
use crate::order::{names_set, sorted_names, sorted_of, insert_sorted, lemma_sorted_of};
use crate::path::{dot, dotdot, parent_of, slash};
use crate::text::{concat2, concat3};
use crate::session::{BOut, SessView, ZillSession, from_utf8_lossy, text_of, utf8, write_bytes, write_str};
use crate::text::{chars_of, decimal, decimal_string, owned, pad_left, pad_left_string, string_from_range, strs_view};

verus! {

pub open spec fn strip_cr(c: Seq<char>) -> Seq<char> {
    if c.len() > 0 && c.last() == '\r' {
        c.drop_last()
    } else {
        c
    }
}

/// The lines of `t` from position `i`, `cur` being the part of a line read so far,
/// as `str::lines` yields them: split at `\n`, a `\r` before it dropped, no empty last line.
pub open spec fn lines_from(t: Seq<char>, i: int, cur: Seq<char>) -> Seq<Seq<char>>
    decreases t.len() - i,
{
    if i < 0 || i >= t.len() {
        if cur.len() > 0 {
            seq![cur]
        } else {
            Seq::empty()
        }
    } else if t[i] == '\n' {
        seq![strip_cr(cur)] + lines_from(t, i + 1, Seq::empty())
    } else {
        lines_from(t, i + 1, cur.push(t[i]))
    }
}

pub open spec fn lines_of(t: Seq<char>) -> Seq<Seq<char>> {
    lines_from(t, 0, Seq::empty())
}

/// The lines of a string.
pub fn lines(t: &str) -> (r: Vec<String>)
    ensures
        strs_view(r@) == lines_of(t@),
{
    let cs = chars_of(t);
    let ghost tv = cs@;
    let mut r: Vec<String> = Vec::new();
    let mut start: usize = 0;
    let mut i: usize = 0;
    assert(strs_view(r@) =~= Seq::<Seq<char>>::empty());
    assert(cs@.subrange(0, 0) =~= Seq::<char>::empty());
    while i < cs.len()
        invariant
            start <= i <= cs@.len(),
            tv == cs@,
            tv == t@,
            lines_of(tv) == strs_view(r@) + lines_from(tv, i as int, tv.subrange(start as int, i as int)),
        decreases cs.len() - i,
    {
        if cs[i] == '\n' {
            let end = if i > start && cs[i - 1] == '\r' {
                i - 1
            } else {
                i
            };
            let line = string_from_range(cs.as_slice(), start, end);
            let ghost cur = tv.subrange(start as int, i as int);
            assert(line@ == strip_cr(cur));
            let ghost before = strs_view(r@);
            r.push(line);
            assert(strs_view(r@) =~= before.push(line@));
            assert(before + (seq![strip_cr(cur)] + lines_from(tv, i + 1, Seq::empty())) =~= before.push(line@)
                + lines_from(tv, i + 1, Seq::empty()));
            assert(tv.subrange(i + 1, i + 1) =~= Seq::<char>::empty());
            start = i + 1;
        } else {
            assert(tv.subrange(start as int, i as int).push(tv[i as int]) =~= tv.subrange(start as int, i + 1));
        }
        i += 1;
    }
    if start < cs.len() {
        let line = string_from_range(cs.as_slice(), start, cs.len());
        let ghost before = strs_view(r@);
        r.push(line);
        assert(strs_view(r@) =~= before.push(line@));
    } else {
        assert(strs_view(r@) + Seq::<Seq<char>>::empty() =~= strs_view(r@));
    }
    r
}

/// The usage line of `cat`, as `clap` shows it.
pub const CAT_USAGE: &'static str = "zill [OPTIONS] [PATHS]...";

/// The help text of `cat`, as `clap` shows it for `-h` and `--help`.
pub const CAT_HELP: &'static str = "Usage: zill [OPTIONS] [PATHS]...\n\nArguments:\n  [PATHS]...  \n\nOptions:\n  -n          \n  -h, --help  Print help\n";

/// What `cat` shows about its options.
pub open spec fn cat_text() -> CliText {
    CliText { usage: CAT_USAGE@, help: CAT_HELP@, values: Seq::empty() }
}

pub open spec fn cat_table() -> Seq<(char, bool)> {
    seq![('n', false)]
}

/// Lines numbered from `k + 1`, as `cat -n` prints them.
pub open spec fn numbered(ls: Seq<Seq<char>>, k: int) -> Seq<u8>
    decreases ls.len() - k,
{
    if k < 0 || k >= ls.len() {
        Seq::empty()
    } else {
        utf8(pad_left(decimal((k + 1) as nat), 6)) + utf8("  "@) + utf8(ls[k]) + utf8(seq!['\n'])
            + numbered(ls, k + 1)
    }
}

/// The output of `cat` for the paths from `i` and how it ends.
pub open spec fn cat_from(st: SessView, paths: Seq<Seq<char>>, i: int, number: bool) -> (Seq<u8>, Result<i32, ErrView>)
    decreases paths.len() - i,
{
    if i < 0 || i >= paths.len() {
        (Seq::empty(), Ok(0))
    } else {
        match spec_read(st.fs, spec_canonicalize(paths[i], st.cwd)) {
            Err(e) => (Seq::empty(), Err(e)),
            Ok(c) => {
                let text = text_of(c);
                let here = if number {
                    numbered(lines_of(text), 0)
                } else {
                    utf8(text)
                };
                let rest = cat_from(st, paths, i + 1, number);
                (here + rest.0, rest.1)
            },
        }
    }
}

/// `cat [-n] [paths]`: prints the files (decoded as UTF-8, invalid bytes replaced),
/// numbering lines with `-n`; without paths, copies standard input.
pub open spec fn spec_cat(st: SessView, args: Seq<Seq<char>>, stdin: Seq<u8>) -> BOut {
    match parse_args(args, cat_table(), Seq::empty(), cat_text()) {
        Err(msg) => done(st, Seq::empty(), utf8(msg) + utf8(nl()), Ok(1)),
        Ok(p) => if p.1.len() == 0 {
            done(st, stdin, Seq::empty(), Ok(0))
        } else {
            let r = cat_from(st, p.1, 0, has_opt(p.0, 'n'));
            done(st, r.0, Seq::empty(), r.1)
        },
    }
}

fn write_numbered(out: &mut Vec<u8>, ls: &Vec<String>)
    ensures
        final(out)@ == old(out)@ + numbered(strs_view(ls@), 0),
{
    let ghost lv = strs_view(ls@);
    let mut k: usize = 0;
    while k < ls.len()
        invariant
            k <= ls@.len(),
            lv == strs_view(ls@),
            old(out)@ + numbered(lv, 0) == out@ + numbered(lv, k as int),
        decreases ls.len() - k,
    {
        let num = decimal_string((k + 1) as u64);
        let padded = pad_left_string(num.as_str(), 6);
        let ghost o0 = out@;
        write_str(out, padded.as_str());
        write_str(out, "  ");
        write_str(out, ls[k].as_str());
        write_str(out, "\n");
        proof {
            reveal_strlit("\n");
            assert("\n"@ =~= seq!['\n']);
            assert(numbered(lv, k as int) == utf8(pad_left(decimal((k + 1) as nat), 6)) + utf8("  "@) + utf8(lv[k as int]) + utf8(seq!['\n'])
                + numbered(lv, k + 1));
            assert(out@ =~= o0 + (utf8(pad_left(decimal((k + 1) as nat), 6)) + utf8("  "@) + utf8(lv[k as int]) + utf8(seq!['\n'])));
        }
        k += 1;
    }
    assert(numbered(lv, k as int) =~= Seq::<u8>::empty());
}

impl ZillSession {
    /// Prints files, or copies standard input when no file is named.
    pub fn builtin_cat(&self, args: &[String], stdin: &[u8], stdout: &mut Vec<u8>, stderr: &mut Vec<u8>) -> (r: Result<i32, ZillError>)
        requires
            self.wf(),
        ensures
            final(stdout)@ == old(stdout)@ + spec_cat(self@, strs_view(args@), stdin@).out,
            final(stderr)@ == old(stderr)@ + spec_cat(self@, strs_view(args@), stdin@).err,
            crate::session::res_i32(r) == spec_cat(self@, strs_view(args@), stdin@).res,
    {
        let mut shorts: Vec<(char, bool)> = Vec::new();
        shorts.push(('n', false));
        let tbl = OptTable { shorts, longs: Vec::new(), usage: owned(CAT_USAGE), help: owned(CAT_HELP), values: Vec::new() };
        assert(pairs_view(tbl.values@) =~= Seq::<(Seq<char>, Seq<char>)>::empty());
        assert(tbl.text() == cat_text());
        assert(tbl.shorts@ =~= cat_table());
        assert(crate::builtins::args::longs_view(tbl.longs@) =~= Seq::<(Seq<char>, char, bool)>::empty());
        let argv = crate::fs::clone_strings_slice(args);
        let parsed = match parse_options(&argv, &tbl) {
            Ok(p) => p,
            Err(msg) => {
                write_line(stderr, msg.as_str());
                return Ok(1);
            },
        };
        let number = opt_given(&parsed.opts, 'n');
        let paths = &parsed.rest;
        if paths.len() == 0 {
            write_bytes(stdout, stdin);
            return Ok(0);
        }
        let ghost pv = strs_view(paths@);
        let ghost whole = cat_from(self@, pv, 0, number);
        let ghost o0 = stdout@;
        let ghost mut pre: Seq<u8> = Seq::empty();
        assert(stdout@ =~= o0 + pre);
        assert(spec_cat(self@, strs_view(args@), stdin@) == done(self@, whole.0, Seq::empty(), whole.1));
        let mut i: usize = 0;
        while i < paths.len()
            invariant
                self.wf(),
                i <= paths@.len(),
                pv == strs_view(paths@),
                whole == cat_from(self@, pv, 0, number),
                spec_cat(self@, strs_view(args@), stdin@) == done(self@, whole.0, Seq::empty(), whole.1),
                o0 == old(stdout)@,
                stderr@ == old(stderr)@,
                stdout@ == o0 + pre,
                whole.0 == pre + cat_from(self@, pv, i as int, number).0,
                whole.1 == cat_from(self@, pv, i as int, number).1,
            decreases paths.len() - i,
        {
            let path = self.vfs.canonicalize(paths[i].as_str(), self.cwd.as_str());
            let content = match self.vfs.read(path.as_str()) {
                Ok(c) => c,
                Err(e) => {
                    assert(cat_from(self@, pv, i as int, number).0 =~= Seq::<u8>::empty());
                    assert(whole.0 =~= pre);
                    return Err(e);
                },
            };
            let text = from_utf8_lossy(content);
            let ghost here = if number {
                numbered(lines_of(text@), 0)
            } else {
                utf8(text@)
            };
            if number {
                let ls = lines(text.as_str());
                write_numbered(stdout, &ls);
            } else {
                write_str(stdout, text.as_str());
            }
            assert(stdout@ =~= o0 + (pre + here));
            assert(whole.0 =~= (pre + here) + cat_from(self@, pv, i + 1, number).0);
            proof {
                pre = pre + here;
            }
            i += 1;
        }
        assert(cat_from(self@, pv, i as int, number).0 =~= Seq::<u8>::empty());
        assert(whole.0 =~= pre);
        Ok(0)
    }
}

/// How `ls -l` shows a modification time (`%b %d %H:%M` of `chrono`, in UTC).
pub uninterp spec fn ls_time(micros: i64) -> Seq<char>;

/// Formats a time for `ls -l` (calls `chrono::DateTime::from_timestamp_micros` and
/// `format("%b %d %H:%M")`); a time out of `chrono`'s range shows as the Unix epoch.
#[verifier::external_body]
fn format_ls_time(micros: i64) -> (r: String)
    ensures
        r@ == ls_time(micros),
{
    chrono::DateTime::from_timestamp_micros(micros).unwrap_or_default().format("%b %d %H:%M").to_string()
}

/// The usage line of `ls`, as `clap` shows it.
pub const LS_USAGE: &'static str = "zill [OPTIONS] [PATHS]...";

/// The help text of `ls`, as `clap` shows it for `-h` and `--help`.
pub const LS_HELP: &'static str = "Usage: zill [OPTIONS] [PATHS]...\n\nArguments:\n  [PATHS]...  \n\nOptions:\n  -a          \n  -l          \n  -1          \n  -h, --help  Print help\n";

/// What `ls` shows about its options.
pub open spec fn ls_text() -> CliText {
    CliText { usage: LS_USAGE@, help: LS_HELP@, values: Seq::empty() }
}

pub open spec fn ls_table() -> Seq<(char, bool)> {
    seq![('a', false), ('l', false), ('1', false)]
}

/// The entries that `ls` shows of a directory: with `-a`, also `.` and `..`.
pub open spec fn ls_entry_set(children: Set<Seq<char>>, all: bool) -> Set<Seq<char>> {
    if all {
        children.insert(dot()).insert(dotdot())
    } else {
        children
    }
}

/// The path that an entry of the listed directory `dir` stands for.
pub open spec fn ls_entry_path(dir: Seq<char>, entry: Seq<char>) -> Seq<char> {
    if entry == dot() {
        dir
    } else if entry == dotdot() {
        match parent_of(dir) {
            Some(p) => p,
            None => slash(),
        }
    } else {
        join_path(dir, entry)
    }
}

/// The line of `ls -l` for a node.
pub open spec fn long_line(n: NodeView, entry: Seq<char>) -> Seq<char> {
    let (t, size, m) = match n {
        NodeView::File { content, modified, .. } => ('-', content.len(), modified),
        NodeView::Dir { modified, .. } => ('d', 4096nat, modified),
    };
    seq![t] + "rwxr-xr-x 1 zill zill "@ + pad_left(decimal(size), 8) + " "@ + ls_time(m) + " "@ + entry + seq!['\n']
}

/// The output of `ls` for the entries from `k` of the directory `dir`.
pub open spec fn ls_entries(
    st: SessView,
    dir: Seq<char>,
    es: Seq<Seq<char>>,
    k: int,
    long: bool,
    one: bool,
) -> (Seq<u8>, Result<(), ErrView>)
    decreases es.len() - k,
{
    if k < 0 || k >= es.len() {
        (Seq::empty(), Ok(()))
    } else if long {
        match spec_stat(st.fs, ls_entry_path(dir, es[k])) {
            Err(e) => (Seq::empty(), Err(e)),
            Ok(n) => {
                let rest = ls_entries(st, dir, es, k + 1, long, one);
                (utf8(long_line(n, es[k])) + rest.0, rest.1)
            },
        }
    } else {
        let here = if one {
            es[k] + seq!['\n']
        } else {
            es[k] + "  "@
        };
        let rest = ls_entries(st, dir, es, k + 1, long, one);
        (utf8(here) + rest.0, rest.1)
    }
}

/// The output of `ls` for one argument `p`.
#[verifier::opaque]
pub open spec fn ls_one(st: SessView, p: Seq<char>, all: bool, long: bool, one: bool) -> (Seq<u8>, Result<(), ErrView>) {
    let dir = spec_canonicalize(p, st.cwd);
    match spec_stat(st.fs, dir) {
        Err(e) => (Seq::empty(), Err(e)),
        Ok(NodeView::File { .. }) => (utf8(p + seq!['\n']), Ok(())),
        Ok(NodeView::Dir { children, .. }) => {
            let es = sorted_of(ls_entry_set(children, all));
            let r = ls_entries(st, dir, es, 0, long, one);
            if r.1 is Err {
                r
            } else if !long && !one {
                (r.0 + utf8(seq!['\n']), Ok(()))
            } else {
                r
            }
        },
    }
}

/// The output of `ls` for the arguments from `i`.
pub open spec fn ls_from(st: SessView, paths: Seq<Seq<char>>, i: int, all: bool, long: bool, one: bool) -> (Seq<u8>, Result<i32, ErrView>)
    decreases paths.len() - i,
{
    if i < 0 || i >= paths.len() {
        (Seq::empty(), Ok(0))
    } else {
        let header = if paths.len() > 1 {
            utf8(paths[i] + ":"@ + seq!['\n'])
        } else {
            Seq::empty()
        };
        let r = ls_one(st, paths[i], all, long, one);
        if r.1 is Err {
            (header + r.0, Err(r.1->Err_0))
        } else {
            let sep = if i < paths.len() - 1 {
                utf8(seq!['\n'])
            } else {
                Seq::empty()
            };
            let rest = ls_from(st, paths, i + 1, all, long, one);
            (header + r.0 + sep + rest.0, rest.1)
        }
    }
}

/// `ls [-a] [-l] [-1] [paths]`: lists directories (sorted) and names files;
/// without paths, lists the working directory.
pub open spec fn spec_ls(st: SessView, args: Seq<Seq<char>>) -> BOut {
    match parse_args(args, ls_table(), Seq::empty(), ls_text()) {
        Err(msg) => done(st, Seq::empty(), utf8(msg) + utf8(nl()), Ok(1)),
        Ok(p) => {
            let paths = if p.1.len() == 0 {
                seq!["."@]
            } else {
                p.1
            };
            let r = ls_from(st, paths, 0, has_opt(p.0, 'a'), has_opt(p.0, 'l'), has_opt(p.0, '1'));
            done(st, r.0, Seq::empty(), r.1)
        },
    }
}

impl ZillSession {
    /// The output of `ls` for the entries of `dir`.
    fn ls_write_entries(&self, dir: &str, es: &Vec<String>, long: bool, one: bool, stdout: &mut Vec<u8>) -> (r: Result<(), ZillError>)
        requires
            self.wf(),
        ensures
            final(stdout)@ == old(stdout)@ + ls_entries(self@, dir@, strs_view(es@), 0, long, one).0,
            crate::fs::res_view(r) == ls_entries(self@, dir@, strs_view(es@), 0, long, one).1,
    {
        let ghost ev = strs_view(es@);
        let ghost whole = ls_entries(self@, dir@, ev, 0, long, one);
        let ghost o0 = stdout@;
        let ghost mut pre: Seq<u8> = Seq::empty();
        assert(stdout@ =~= o0 + pre);
        let mut k: usize = 0;
        while k < es.len()
            invariant
                self.wf(),
                k <= es@.len(),
                ev == strs_view(es@),
                whole == ls_entries(self@, dir@, ev, 0, long, one),
                o0 == old(stdout)@,
                stdout@ == o0 + pre,
                whole.0 == pre + ls_entries(self@, dir@, ev, k as int, long, one).0,
                whole.1 == ls_entries(self@, dir@, ev, k as int, long, one).1,
            decreases es.len() - k,
        {
            let entry = es[k].as_str();
            assert(ev[k as int] == entry@);
            proof {
                reveal_strlit(".");
                reveal_strlit("..");
                reveal_strlit("/");
                reveal_strlit("  ");
                reveal_strlit("\n");
                assert("."@ =~= dot());
                assert(".."@ =~= dotdot());
                assert("/"@ =~= slash());
                assert("\n"@ =~= seq!['\n']);
            }
            let line: String;
            if long {
                let entry_path = if crate::text::str_eq(entry, ".") {
                    owned(dir)
                } else if crate::text::str_eq(entry, "..") {
                    match parent_path(dir) {
                        Some(p) => p,
                        None => owned("/"),
                    }
                } else {
                    join_path_exec(dir, entry)
                };
                assert(entry_path@ == ls_entry_path(dir@, ev[k as int]));
                let ghost nv = spec_stat(self@.fs, entry_path@)->Ok_0;
                let (t, size, m) = match self.vfs.stat(entry_path.as_str()) {
                    Ok(crate::fs::Node::File(f)) => ('-', f.size, f.modified_at),
                    Ok(crate::fs::Node::Directory(d)) => ('d', 4096usize, d.modified_at),
                    Err(e) => {
                        assert(whole.0 =~= pre);
                        return Err(e);
                    },
                };
                assert(spec_stat(self@.fs, entry_path@) is Ok);
                let mut l = String::new();
                crate::text::push_char(&mut l, t);
                l.append("rwxr-xr-x 1 zill zill ");
                let num = decimal_string(size as u64);
                let padded = pad_left_string(num.as_str(), 8);
                l.append(padded.as_str());
                l.append(" ");
                let date = format_ls_time(m);
                l.append(date.as_str());
                l.append(" ");
                l.append(entry);
                crate::text::push_char(&mut l, '\n');
                assert(l@ =~= long_line(nv, ev[k as int]));
                line = l;
            } else if one {
                let mut l = owned(entry);
                crate::text::push_char(&mut l, '\n');
                assert(l@ =~= ev[k as int] + seq!['\n']);
                line = l;
            } else {
                line = concat2(entry, "  ");
            }
            assert(ls_entries(self@, dir@, ev, k as int, long, one).0 == utf8(line@) + ls_entries(self@, dir@, ev, k + 1, long, one).0);
            let ghost here = utf8(line@);
            write_str(stdout, line.as_str());
            proof {
                assert(whole.0 =~= (pre + here) + ls_entries(self@, dir@, ev, k + 1, long, one).0);
                pre = pre + here;
            }
            k += 1;
        }
        assert(whole.0 =~= pre);
        Ok(())
    }

    /// The output of `ls` for one argument.
    fn ls_write_one(&self, p: &str, all: bool, long: bool, one: bool, stdout: &mut Vec<u8>) -> (r: Result<(), ZillError>)
        requires
            self.wf(),
        ensures
            final(stdout)@ == old(stdout)@ + ls_one(self@, p@, all, long, one).0,
            crate::fs::res_view(r) == ls_one(self@, p@, all, long, one).1,
    {
        proof {
            reveal_strlit("\n");
            assert("\n"@ =~= seq!['\n']);
            reveal(ls_one);
        }
        let dir = self.vfs.canonicalize(p, self.cwd.as_str());
        match self.vfs.stat(dir.as_str()) {
            Err(e) => {
                return Err(e);
            },
            Ok(crate::fs::Node::File(_)) => {
                let mut l = owned(p);
                crate::text::push_char(&mut l, '\n');
                assert(l@ =~= p@ + seq!['\n']);
                write_str(stdout, l.as_str());
                Ok(())
            },
            Ok(crate::fs::Node::Directory(d)) => {
                let mut es = crate::fs::clone_strings(&d.children);
                if all {
                    insert_sorted(&mut es, ".");
                    insert_sorted(&mut es, "..");
                    proof {
                        reveal_strlit(".");
                        reveal_strlit("..");
                        assert("."@ =~= dot());
                        assert(".."@ =~= dotdot());
                    }
                }
                proof {
                    lemma_sorted_of(strs_view(es@));
                    assert(names_set(es@) == ls_entry_set(names_set(d.children@), all));
                    assert(strs_view(es@) == sorted_of(ls_entry_set(names_set(d.children@), all)));
                }
                let ghost o1 = stdout@;
                match self.ls_write_entries(dir.as_str(), &es, long, one, stdout) {
                    Ok(()) => {},
                    Err(e) => {
                        return Err(e);
                    },
                }
                if !long && !one {
                    write_str(stdout, "\n");
                }
                Ok(())
            },
        }
    }

    /// Lists directory contents.
    #[verifier::rlimit(80)]
    #[verifier::spinoff_prover]
    pub fn builtin_ls(&self, args: &[String], stdin: &[u8], stdout: &mut Vec<u8>, stderr: &mut Vec<u8>) -> (r: Result<i32, ZillError>)
        requires
            self.wf(),
        ensures
            final(stdout)@ == old(stdout)@ + spec_ls(self@, strs_view(args@)).out,
            final(stderr)@ == old(stderr)@ + spec_ls(self@, strs_view(args@)).err,
            crate::session::res_i32(r) == spec_ls(self@, strs_view(args@)).res,
    {
        let mut shorts: Vec<(char, bool)> = Vec::new();
        shorts.push(('a', false));
        shorts.push(('l', false));
        shorts.push(('1', false));
        let tbl = OptTable { shorts, longs: Vec::new(), usage: owned(LS_USAGE), help: owned(LS_HELP), values: Vec::new() };
        assert(pairs_view(tbl.values@) =~= Seq::<(Seq<char>, Seq<char>)>::empty());
        assert(tbl.text() == ls_text());
        assert(tbl.shorts@ =~= ls_table());
        assert(crate::builtins::args::longs_view(tbl.longs@) =~= Seq::<(Seq<char>, char, bool)>::empty());
        let argv = crate::fs::clone_strings_slice(args);
        let parsed = match parse_options(&argv, &tbl) {
            Ok(p) => p,
            Err(msg) => {
                write_line(stderr, msg.as_str());
                return Ok(1);
            },
        };
        let all = opt_given(&parsed.opts, 'a');
        let long = opt_given(&parsed.opts, 'l');
        let one = opt_given(&parsed.opts, '1');
        let mut paths: Vec<String> = crate::fs::clone_strings(&parsed.rest);
        if paths.len() == 0 {
            paths.push(owned("."));
            assert(strs_view(paths@) =~= seq!["."@]);
        }
        let ghost pv = strs_view(paths@);
        let ghost whole = ls_from(self@, pv, 0, all, long, one);
        assert(spec_ls(self@, strs_view(args@)) == done(self@, whole.0, Seq::empty(), whole.1));
        let ghost o0 = stdout@;
        let ghost mut pre: Seq<u8> = Seq::empty();
        assert(stdout@ =~= o0 + pre);
        let mut i: usize = 0;
        while i < paths.len()
            invariant
                self.wf(),
                i <= paths@.len(),
                pv == strs_view(paths@),
                whole == ls_from(self@, pv, 0, all, long, one),
                spec_ls(self@, strs_view(args@)) == done(self@, whole.0, Seq::empty(), whole.1),
                o0 == old(stdout)@,
                stderr@ == old(stderr)@,
                stdout@ == o0 + pre,
                whole.0 == pre + ls_from(self@, pv, i as int, all, long, one).0,
                whole.1 == ls_from(self@, pv, i as int, all, long, one).1,
            decreases paths.len() - i,
        {
            proof {
                reveal_strlit(":");
                reveal_strlit("\n");
                assert("\n"@ =~= seq!['\n']);
            }
            let p = paths[i].as_str();
            let ghost h0 = stdout@;
            if paths.len() > 1 {
                let h = concat3(p, ":", "\n");
                write_str(stdout, h.as_str());
            }
            let ghost header = if paths@.len() > 1 { utf8(p@ + ":"@ + seq!['\n']) } else { Seq::empty() };
            assert(stdout@ =~= h0 + header);
            let ghost b0 = stdout@;
            let ghost one_r = ls_one(self@, p@, all, long, one);
            match self.ls_write_one(p, all, long, one, stdout) {
                Ok(()) => {},
                Err(e) => {
                    assert(whole.0 =~= pre + header + one_r.0);
                    assert(stdout@ =~= o0 + (pre + header + one_r.0));
                    return Err(e);
                },
            }
            assert(stdout@ =~= b0 + one_r.0);
            let ghost s0 = stdout@;
            if i < paths.len() - 1 {
                write_str(stdout, "\n");
            }
            let ghost sep = if i < paths@.len() - 1 { utf8(seq!['\n']) } else { Seq::<u8>::empty() };
            assert(stdout@ =~= s0 + sep);
            proof {
                assert(whole.0 =~= (pre + header + one_r.0 + sep) + ls_from(self@, pv, i + 1, all, long, one).0);
                pre = pre + header + one_r.0 + sep;
            }
            i += 1;
        }
        assert(whole.0 =~= pre);
        Ok(0)
    }
}

} // verus!
