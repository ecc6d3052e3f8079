//! `fd`: finds entries of the file system by name, extension and kind.
use vstd::prelude::*;
use crate::builtins::args::{
    OptTable, Parsed, ParsedArgs, all_values, all_values_of, last_value, last_value_of, longs_view, opt_str,
    parse_args, parse_options, unexpected, CliText, invalid_number, invalid_number_text, pairs_view, unexpected_text,
};
use crate::builtins::basic::{has_opt, opt_given};
use crate::builtins::files::{lines, lines_of};
use crate::builtins::rg::{CmdView, cmd_view};
use crate::error::{ErrView, ZillError};
use crate::fs::{FsMap, Node, NodeView, clone_strings_slice, join_path, join_path_exec, spec_canonicalize, spec_read, spec_stat};
use crate::order::{lemma_sorted_of, sort_names, sort_strings, sorted_of};
use crate::path::{extension_of, file_name_of, last_dot};
use crate::session::{CmdOutput, ZillSession, from_utf8_lossy, text_of, SessView};
use crate::text::{chars_of, concat2, concat3, owned, parse_u64, parse_u64_spec, str_eq, string_from_range, strs_view};

verus! {

/// The error that `globset` reports for a glob, if it rejects it.
pub uninterp spec fn glob_error(glob: Seq<char>) -> Option<Seq<char>>;

#[verifier::external_type_specification]
#[verifier::external_body]
pub struct ExGlobSet(globset::GlobSet);

#[verifier::external_type_specification]
#[verifier::external_body]
pub struct ExGitignore(ignore::gitignore::Gitignore);

/// A compiled glob, with the glob it was compiled from.
struct GlobMatcher {
    set: globset::GlobSet,
    glob: Ghost<Seq<char>>,
}

impl GlobMatcher {
    closed spec fn glob(&self) -> Seq<char> {
        self.glob@
    }
}

/// Compiles a glob once for a command, with `/` not treated specially, into a set of one
/// glob (calls `globset::GlobBuilder::build` and `globset::GlobSetBuilder::build`); the
/// error text when either rejects it is `glob_error(glob)`.
#[verifier::external_body]
fn compile_glob(glob: &str) -> (r: Result<GlobMatcher, String>)
    ensures
        match glob_error(glob@) {
            Some(e) => r matches Err(s) && s@ == e,
            None => r matches Ok(m) && m.glob() == glob@,
        },
{
    match globset::GlobBuilder::new(glob).literal_separator(false).build() {
        Err(e) => Err(e.to_string()),
        Ok(g) => match globset::GlobSetBuilder::new().add(g).build() {
            Ok(set) => Ok(GlobMatcher { set, glob: Ghost(glob@) }),
            Err(e) => Err(e.to_string()),
        },
    }
}

/// Whether `path` matches the glob, as `globset::GlobSet::is_match` decides it.
pub uninterp spec fn glob_matches(glob: Seq<char>, path: Seq<char>) -> bool;

/// Matches a path against a compiled glob (calls `globset::GlobSet::is_match`): the
/// answer is `glob_matches` of the glob it was compiled from.
#[verifier::external_body]
fn glob_is_match(m: &GlobMatcher, path: &str) -> (r: bool)
    ensures
        r == glob_matches(m.glob(), path@),
{
    m.set.is_match(path)
}

/// The error that `ignore` reports for the lines of a `.gitignore`, if it rejects them.
pub uninterp spec fn gitignore_error(lines: Seq<Seq<char>>) -> Option<Seq<char>>;

/// A compiled `.gitignore`, with the lines it was compiled from.
struct IgnoreMatcher {
    gi: ignore::gitignore::Gitignore,
    lines: Ghost<Seq<Seq<char>>>,
}

impl IgnoreMatcher {
    closed spec fn lines(&self) -> Seq<Seq<char>> {
        self.lines@
    }
}

/// Builds a gitignore matcher rooted at `/` from the lines, once for a command (calls
/// `ignore::gitignore::GitignoreBuilder::add_line` and `build`); the error text of the
/// first line or of the build that fails is `gitignore_error(lines)`.
#[verifier::external_body]
fn compile_gitignore(lines: &Vec<String>) -> (r: Result<IgnoreMatcher, String>)
    ensures
        match gitignore_error(strs_view(lines@)) {
            Some(e) => r matches Err(s) && s@ == e,
            None => r matches Ok(m) && m.lines() == strs_view(lines@),
        },
{
    let mut b = ignore::gitignore::GitignoreBuilder::new("/");
    for l in lines.iter() {
        if let Err(e) = b.add_line(None, l) {
            return Err(e.to_string());
        }
    }
    match b.build() {
        Ok(gi) => Ok(IgnoreMatcher { gi, lines: Ghost(strs_view(lines@)) }),
        Err(e) => Err(e.to_string()),
    }
}

/// Whether the gitignore made of `lines` ignores `path`, as
/// `ignore::gitignore::Gitignore::matched(..).is_ignore()` decides it.
pub uninterp spec fn ignored(lines: Seq<Seq<char>>, path: Seq<char>, is_dir: bool) -> bool;

/// Asks a compiled gitignore about `path` (calls `ignore::gitignore::Gitignore::matched`):
/// the answer is `ignored` of the lines it was compiled from.
#[verifier::external_body]
fn gitignore_ignores(m: &IgnoreMatcher, path: &str, is_dir: bool) -> (r: bool)
    ensures
        r == ignored(m.lines(), path@, is_dir),
{
    m.gi.matched(path, is_dir).is_ignore()
}

/// The options of `fd`.
pub struct FdCli {
    pub pattern: Option<Seq<char>>,
    pub path: Option<Seq<char>>,
    pub extensions: Seq<Seq<char>>,
    pub file_type: Option<Seq<char>>,
    pub max_depth: Option<usize>,
    pub hidden: bool,
}

pub open spec fn fd_shorts() -> Seq<(char, bool)> {
    seq![('e', true), ('t', true), ('d', true), ('H', false)]
}

/// The usage line of `fd`, as `clap` shows it.
pub const FD_USAGE: &'static str = "zill [OPTIONS] [PATTERN] [PATH]";

/// The help text of `fd`, as `clap` shows it for `-h` and `--help`.
pub const FD_HELP: &'static str = "Usage: zill [OPTIONS] [PATTERN] [PATH]\n\nArguments:\n  [PATTERN]  \n  [PATH]     \n\nOptions:\n  -e <EXTENSION>  \n  -t <FILE_TYPE>  \n  -d <MAX_DEPTH>  \n  -H, --hidden    \n  -h, --help      Print help\n";

/// What `fd` shows about its options.
pub open spec fn fd_text() -> CliText {
    CliText {
        usage: FD_USAGE@,
        help: FD_HELP@,
        values: seq![("-e"@, "EXTENSION"@), ("-t"@, "FILE_TYPE"@), ("-d"@, "MAX_DEPTH"@)],
    }
}

pub open spec fn fd_longs() -> Seq<(Seq<char>, char, bool)> {
    seq![("hidden"@, 'H', false)]
}

pub open spec fn invalid_max_depth(v: Seq<char>) -> Seq<char> {
    invalid_number(fd_text(), "-d"@, v)
}

/// The options of `fd`, or the message that rejects them.
pub open spec fn fd_cli(p: Parsed) -> Result<FdCli, Seq<char>> {
    if p.1.len() > 2 {
        Err(unexpected(fd_text(), p.1[2]))
    } else {
        let d = last_value(p.0, 'd');
        let parsed_d = match d {
            Some(v) => match parse_u64_spec(v) {
                Some(n) => if n <= usize::MAX {
                    Some(n as usize)
                } else {
                    None
                },
                None => None,
            },
            None => None,
        };
        if d is Some && parsed_d is None {
            Err(invalid_max_depth(d->Some_0))
        } else {
            Ok(
                FdCli {
                    pattern: if p.1.len() >= 1 {
                        Some(p.1[0])
                    } else {
                        None
                    },
                    path: if p.1.len() >= 2 {
                        Some(p.1[1])
                    } else {
                        None
                    },
                    extensions: all_values(p.0, 'e'),
                    file_type: last_value(p.0, 't'),
                    max_depth: parsed_d,
                    hidden: has_opt(p.0, 'H'),
                },
            )
        }
    }
}

/// A pattern without any of `* ? [ { \` is searched for anywhere in the path.
pub open spec fn is_simple(p: Seq<char>) -> bool {
    forall|k: int|
        0 <= k < p.len() ==> #[trigger] p[k] != '*' && p[k] != '?' && p[k] != '[' && p[k] != '{' && p[k] != '\\'
}

/// The glob that a pattern stands for.
pub open spec fn fd_glob(p: Seq<char>) -> Seq<char> {
    if is_simple(p) {
        "*"@ + p + "*"@
    } else {
        p
    }
}

/// What the walk of `fd` works with: the root of the search, the options, the glob
/// of the pattern and the lines of `/.gitignore`.
pub struct FdEnv {
    pub root: Seq<char>,
    pub cli: FdCli,
    pub glob: Option<Seq<char>>,
    pub ignore: Option<Seq<Seq<char>>>,
}

/// The file name of `p`, empty when it has none.
pub open spec fn name_or_empty(p: Seq<char>) -> Seq<char> {
    match file_name_of(p) {
        Some(n) => n,
        None => Seq::empty(),
    }
}

/// A hidden entry (other than the root of the search) that `-H` did not ask for.
pub open spec fn skipped_hidden(env: FdEnv, cur: Seq<char>) -> bool {
    let name = name_or_empty(cur);
    &&& !env.cli.hidden
    &&& name.len() > 0 && name[0] == '.'
    &&& name != seq!['.'] && name != seq!['.', '.']
    &&& cur != env.root
}

/// Whether the entry at `cur` passes the filters of pattern, extension and kind.
pub open spec fn selected(env: FdEnv, cur: Seq<char>, node: NodeView) -> bool {
    let by_glob = match env.glob {
        Some(g) => glob_matches(g, cur),
        None => true,
    };
    let by_ext = env.cli.extensions.len() == 0 || match extension_of(name_or_empty(cur)) {
        Some(x) => env.cli.extensions.contains(x),
        None => false,
    };
    let by_kind = match env.cli.file_type {
        Some(t) => if t == seq!['f'] {
            node is File
        } else if t == seq!['d'] {
            node is Dir
        } else {
            true
        },
        None => true,
    };
    by_glob && by_ext && by_kind
}

/// The paths that the walk from `cur` (at `depth`, at most `fuel` levels deep) reports,
/// in the order visited, or the error that stops it.
pub open spec fn walk(fs: FsMap, env: FdEnv, cur: Seq<char>, depth: nat, fuel: nat) -> Result<Seq<Seq<char>>, ErrView>
    decreases fuel, 0int, 0int,
{
    if fuel == 0 {
        Ok(Seq::empty())
    } else if env.cli.max_depth is Some && depth > env.cli.max_depth->Some_0 {
        Ok(Seq::empty())
    } else {
        match spec_stat(fs, cur) {
            Err(e) => Err(e),
            Ok(node) => if skipped_hidden(env, cur) {
                Ok(Seq::empty())
            } else if env.ignore is Some && ignored(env.ignore->Some_0, cur, node is Dir) {
                Ok(Seq::empty())
            } else {
                let here = if selected(env, cur, node) && cur != seq!['/'] && cur != seq!['.'] {
                    seq![cur]
                } else {
                    Seq::empty()
                };
                match node {
                    NodeView::Dir { children, .. } => match walk_in(
                        fs,
                        env,
                        cur,
                        sorted_of(children),
                        0,
                        depth + 1,
                        (fuel - 1) as nat,
                    ) {
                        Ok(r) => Ok(here + r),
                        Err(e) => Err(e),
                    },
                    NodeView::File { .. } => Ok(here),
                }
            },
        }
    }
}

/// The walk of the entries `cs` of the directory `dir`, from the `k`-th.
pub open spec fn walk_in(
    fs: FsMap,
    env: FdEnv,
    dir: Seq<char>,
    cs: Seq<Seq<char>>,
    k: int,
    depth: nat,
    fuel: nat,
) -> Result<Seq<Seq<char>>, ErrView>
    decreases fuel, 1int, cs.len() - k,
{
    if k < 0 || k >= cs.len() {
        Ok(Seq::empty())
    } else {
        match walk(fs, env, join_path(dir, cs[k]), depth, fuel) {
            Err(e) => Err(e),
            Ok(a) => match walk_in(fs, env, dir, cs, k + 1, depth, fuel) {
                Ok(b) => Ok(a + b),
                Err(e) => Err(e),
            },
        }
    }
}

/// Each path followed by a newline.
pub open spec fn join_lines(q: Seq<Seq<char>>) -> Seq<char>
    decreases q.len(),
{
    if q.len() == 0 {
        Seq::empty()
    } else {
        join_lines(q.drop_last()) + q.last() + seq!['\n']
    }
}

/// `fd [-H] [-e EXT].. [-t f|d] [-d DEPTH] [PATTERN] [PATH]`: the paths under PATH
/// (default `.`) whose name matches the pattern, sorted, one per line.
pub open spec fn spec_fd(st: SessView, args: Seq<Seq<char>>) -> Result<CmdView, ErrView> {
    match parse_args(args, fd_shorts(), fd_longs(), fd_text()) {
        Err(msg) => Ok((Seq::empty(), msg, 1)),
        Ok(p) => match fd_cli(p) {
            Err(msg) => Ok((Seq::empty(), msg, 1)),
            Ok(cli) => {
                let root = spec_canonicalize(
                    match cli.path {
                        Some(x) => x,
                        None => "."@,
                    },
                    st.cwd,
                );
                let glob = match cli.pattern {
                    Some(x) => Some(fd_glob(x)),
                    None => None,
                };
                if glob is Some && glob_error(glob->Some_0) is Some {
                    Err(ErrView::Generic(glob_error(glob->Some_0)->Some_0))
                } else {
                    let gi = match spec_read(st.fs, "/.gitignore"@) {
                        Ok(c) => Some(lines_of(text_of(c))),
                        Err(_) => None,
                    };
                    if gi is Some && gitignore_error(gi->Some_0) is Some {
                        Err(ErrView::Generic(gitignore_error(gi->Some_0)->Some_0))
                    } else {
                        let env = FdEnv { root, cli, glob, ignore: gi };
                        match walk(st.fs, env, root, 0, st.fs.len()) {
                            Err(e) => Err(e),
                            Ok(v) => Ok((join_lines(sort_names(v)), Seq::empty(), 0)),
                        }
                    }
                }
            },
        },
    }
}

/// The options of `fd`, as parsed.
pub struct FdArgs {
    pub pattern: Option<String>,
    pub path: Option<String>,
    pub extensions: Vec<String>,
    pub file_type: Option<String>,
    pub max_depth: Option<usize>,
    pub hidden: bool,
}

impl View for FdArgs {
    type V = FdCli;

    open spec fn view(&self) -> FdCli {
        FdCli {
            pattern: opt_str(self.pattern),
            path: opt_str(self.path),
            extensions: strs_view(self.extensions@),
            file_type: opt_str(self.file_type),
            max_depth: self.max_depth,
            hidden: self.hidden,
        }
    }
}

/// The option table of `fd`.
fn fd_table() -> (t: OptTable)
    ensures
        t.shorts@ == fd_shorts(),
        longs_view(t.longs@) == fd_longs(),
        t.text() == fd_text(),
{
    let mut shorts: Vec<(char, bool)> = Vec::new();
    shorts.push(('e', true));
    shorts.push(('t', true));
    shorts.push(('d', true));
    shorts.push(('H', false));
    let mut longs: Vec<(String, char, bool)> = Vec::new();
    longs.push((owned("hidden"), 'H', false));
    assert(shorts@ =~= fd_shorts());
    assert(longs_view(longs@) =~= fd_longs());
    let mut values: Vec<(String, String)> = Vec::new();
    values.push((owned("-e"), owned("EXTENSION")));
    values.push((owned("-t"), owned("FILE_TYPE")));
    values.push((owned("-d"), owned("MAX_DEPTH")));
    let t = OptTable { shorts, longs, usage: owned(FD_USAGE), help: owned(FD_HELP), values };
    assert(pairs_view(t.values@) =~= seq![("-e"@, "EXTENSION"@), ("-t"@, "FILE_TYPE"@), ("-d"@, "MAX_DEPTH"@)]);
    t
}

/// The options of `fd` from the parsed arguments, or the message that rejects them.
fn fd_args_from(p: ParsedArgs) -> (r: Result<FdArgs, String>)
    ensures
        match fd_cli(p.view_pair()) {
            Ok(c) => r matches Ok(a) && a@ == c,
            Err(m) => r matches Err(e) && e@ == m,
        },
{
    let ghost pv = p.view_pair();
    if p.rest.len() > 2 {
        assert(pv.1[2] == p.rest@[2]@);
        let tbl = fd_table();
        return Err(unexpected_text(&tbl, p.rest[2].as_str()));
    }
    let d = last_value_of(&p.opts, 'd');
    let max_depth: Option<usize> = match &d {
        Some(v) => {
            let n = parse_u64(v.as_str());
            match n {
                Some(x) => {
                    if x <= usize::MAX as u64 {
                        Some(x as usize)
                    } else {
                        {
                            let tbl = fd_table();
                            return Err(invalid_number_text(&tbl, "-d", v.as_str()));
                        }
                    }
                },
                None => {
                    {
                            let tbl = fd_table();
                            return Err(invalid_number_text(&tbl, "-d", v.as_str()));
                        }
                },
            }
        },
        None => None,
    };
    let extensions = all_values_of(&p.opts, 'e');
    let file_type = last_value_of(&p.opts, 't');
    let hidden = opt_given(&p.opts, 'H');
    let pattern = if p.rest.len() >= 1 {
        Some(owned(p.rest[0].as_str()))
    } else {
        None
    };
    let path = if p.rest.len() >= 2 {
        Some(owned(p.rest[1].as_str()))
    } else {
        None
    };
    Ok(FdArgs { pattern, path, extensions, file_type, max_depth, hidden })
}

/// Whether a pattern has none of the characters of a glob.
fn simple_pattern(p: &str) -> (r: bool)
    ensures
        r == is_simple(p@),
{
    let cs = chars_of(p);
    let mut i: usize = 0;
    while i < cs.len()
        invariant
            i <= cs@.len(),
            cs@ == p@,
            forall|k: int|
                0 <= k < i ==> #[trigger] cs@[k] != '*' && cs@[k] != '?' && cs@[k] != '[' && cs@[k] != '{'
                    && cs@[k] != '\\',
        decreases cs.len() - i,
    {
        let c = cs[i];
        if c == '*' || c == '?' || c == '[' || c == '{' || c == '\\' {
            assert(!(cs@[i as int] != '*' && cs@[i as int] != '?' && cs@[i as int] != '[' && cs@[i as int] != '{'
                && cs@[i as int] != '\\'));
            return false;
        }
        i += 1;
    }
    true
}

/// The extension of a file name.
fn extension(name: &str) -> (r: Option<String>)
    ensures
        opt_str(r) == extension_of(name@),
{
    let cs = chars_of(name);
    if cs.len() == 2 && cs[0] == '.' && cs[1] == '.' {
        assert(cs@ =~= crate::path::dotdot());
        return None;
    }
    proof {
        if cs@ == crate::path::dotdot() {
            assert(cs@.len() == 2 && cs@[0] == '.' && cs@[1] == '.');
        }
    }
    let mut n = cs.len();
    while n > 0 && cs[n - 1] != '.'
        invariant
            n <= cs@.len(),
            cs@ == name@,
            last_dot(cs@, cs@.len() as int) == last_dot(cs@, n as int),
        decreases n,
    {
        n -= 1;
    }
    if n == 0 || n == 1 {
        None
    } else {
        Some(string_from_range(cs.as_slice(), n, cs.len()))
    }
}

/// Whether `x` is one of the strings of `v`.
fn contains_str(v: &Vec<String>, x: &str) -> (r: bool)
    ensures
        r == strs_view(v@).contains(x@),
{
    let mut i: usize = 0;
    while i < v.len()
        invariant
            i <= v@.len(),
            forall|k: int| 0 <= k < i ==> v@[k]@ != x@,
        decreases v.len() - i,
    {
        if str_eq(v[i].as_str(), x) {
            assert(strs_view(v@)[i as int] == x@);
            return true;
        }
        i += 1;
    }
    proof {
        if strs_view(v@).contains(x@) {
            let k = choose|k: int| 0 <= k < strs_view(v@).len() && strs_view(v@)[k] == x@;
            assert(v@[k]@ == x@);
        }
    }
    false
}

/// The exec form of [`FdEnv`].
struct Walker {
    root: String,
    cli: FdArgs,
    glob: Option<GlobMatcher>,
    ignore: Option<IgnoreMatcher>,
}

impl View for Walker {
    type V = FdEnv;

    closed spec fn view(&self) -> FdEnv {
        FdEnv {
            root: self.root@,
            cli: self.cli@,
            glob: match self.glob {
                Some(g) => Some(g.glob()),
                None => None,
            },
            ignore: match self.ignore {
                Some(g) => Some(g.lines()),
                None => None,
            },
        }
    }
}

impl Walker {
    /// The glob and the gitignore are accepted by their crates.
    spec fn ok(&self) -> bool {
        &&& (self@.glob is Some ==> glob_error(self@.glob->Some_0) is None)
        &&& (self@.ignore is Some ==> gitignore_error(self@.ignore->Some_0) is None)
    }

    /// The name of `cur`, empty when it has none.
    fn name_of(cur: &str) -> (r: String)
        ensures
            r@ == name_or_empty(cur@),
    {
        match crate::fs::file_name(cur) {
            Some(n) => n,
            None => String::new(),
        }
    }

    fn is_skipped_hidden(&self, cur: &str) -> (r: bool)
        ensures
            r == skipped_hidden(self@, cur@),
    {
        let name = Self::name_of(cur);
        let cs = chars_of(name.as_str());
        let dotted = cs.len() > 0 && cs[0] == '.';
        let special = (cs.len() == 1 && cs[0] == '.') || (cs.len() == 2 && cs[0] == '.' && cs[1] == '.');
        proof {
            if cs@ == seq!['.'] {
                assert(cs@.len() == 1 && cs@[0] == '.');
            }
            if cs@ == seq!['.', '.'] {
                assert(cs@.len() == 2 && cs@[0] == '.' && cs@[1] == '.');
            }
            if cs@.len() == 1 && cs@[0] == '.' {
                assert(cs@ =~= seq!['.']);
            }
            if cs@.len() == 2 && cs@[0] == '.' && cs@[1] == '.' {
                assert(cs@ =~= seq!['.', '.']);
            }
        }
        !self.cli.hidden && dotted && !special && !str_eq(cur, self.root.as_str())
    }

    fn is_selected(&self, cur: &str, node: &Node) -> (r: bool)
        requires
            self.ok(),
        ensures
            r == selected(self@, cur@, node@),
    {
        let by_glob = match &self.glob {
            Some(g) => glob_is_match(g, cur),
            None => true,
        };
        let by_ext = if self.cli.extensions.len() == 0 {
            true
        } else {
            let name = Self::name_of(cur);
            match extension(name.as_str()) {
                Some(x) => contains_str(&self.cli.extensions, x.as_str()),
                None => false,
            }
        };
        let by_kind = match &self.cli.file_type {
            Some(t) => {
                let tc = chars_of(t.as_str());
                proof {
                    if tc@ == seq!['f'] {
                        assert(tc@.len() == 1 && tc@[0] == 'f');
                    }
                    if tc@ == seq!['d'] {
                        assert(tc@.len() == 1 && tc@[0] == 'd');
                    }
                    if tc@.len() == 1 {
                        assert(tc@ =~= seq![tc@[0]]);
                    }
                }
                if tc.len() == 1 && tc[0] == 'f' {
                    node.is_file()
                } else if tc.len() == 1 && tc[0] == 'd' {
                    node.is_dir()
                } else {
                    true
                }
            },
            None => true,
        };
        by_glob && by_ext && by_kind
    }
}

/// Whether `p` is the one-character path `c`.
fn is_char_path(p: &str, c: char) -> (r: bool)
    ensures
        r == (p@ == seq![c]),
{
    let cs = chars_of(p);
    proof {
        if cs@ == seq![c] {
            assert(cs@.len() == 1 && cs@[0] == c);
        }
        if cs@.len() == 1 && cs@[0] == c {
            assert(cs@ =~= seq![c]);
        }
    }
    cs.len() == 1 && cs[0] == c
}

impl ZillSession {
    /// Walks the entries from `cur`, appending the paths that pass the filters.
    fn walk_vfs(&self, w: &Walker, cur: &str, depth: usize, fuel: usize, results: &mut Vec<String>) -> (r: Result<
        (),
        ZillError,
    >)
        requires
            self.wf(),
            w.ok(),
            depth + fuel <= usize::MAX,
        ensures
            match walk(self@.fs, w@, cur@, depth as nat, fuel as nat) {
                Ok(v) => r is Ok && strs_view(final(results)@) == strs_view(old(results)@) + v,
                Err(e) => r matches Err(x) && x@ == e,
            },
        decreases fuel,
    {
        let ghost start = strs_view(results@);
        if fuel == 0 {
            assert(start + Seq::<Seq<char>>::empty() =~= start);
            return Ok(());
        }
        match w.cli.max_depth {
            Some(m) => {
                if depth > m {
                    assert(start + Seq::<Seq<char>>::empty() =~= start);
                    return Ok(());
                }
            },
            None => {},
        }
        let node = match self.vfs.stat(cur) {
            Ok(n) => n,
            Err(e) => {
                return Err(e);
            },
        };
        if w.is_skipped_hidden(cur) {
            assert(start + Seq::<Seq<char>>::empty() =~= start);
            return Ok(());
        }
        match &w.ignore {
            Some(ls) => {
                if gitignore_ignores(ls, cur, node.is_dir()) {
                    assert(start + Seq::<Seq<char>>::empty() =~= start);
                    return Ok(());
                }
            },
            None => {},
        }
        let ghost here: Seq<Seq<char>> = if selected(w@, cur@, node@) && cur@ != seq!['/'] && cur@ != seq!['.'] {
            seq![cur@]
        } else {
            Seq::empty()
        };
        if w.is_selected(cur, node) && !is_char_path(cur, '/') && !is_char_path(cur, '.') {
            results.push(owned(cur));
            assert(strs_view(results@) =~= start + here);
        } else {
            assert(strs_view(results@) =~= start + here);
        }
        match node {
            Node::File(_) => Ok(()),
            Node::Directory(m) => {
                let ghost cs = strs_view(m.children@);
                proof {
                    lemma_sorted_of(cs);
                }
                let ghost sub = (fuel - 1) as nat;
                let ghost target = walk_in(self@.fs, w@, cur@, cs, 0, (depth + 1) as nat, sub);
                let ghost mid = strs_view(results@);
                let mut k: usize = 0;
                let ghost whole = walk(self@.fs, w@, cur@, depth as nat, fuel as nat);
                assert(whole == match target {
                    Ok(r) => Ok::<Seq<Seq<char>>, ErrView>(here + r),
                    Err(e) => Err(e),
                });
                proof {
                    if target is Ok {
                        let e = Seq::<Seq<char>>::empty();
                        assert(strs_view(results@) == mid + e);
                        assert(target->Ok_0 =~= e + target->Ok_0);
                    }
                }
                while k < m.children.len()
                    invariant
                        self.wf(),
                        w.ok(),
                        k <= m.children@.len(),
                        fuel > 0,
                        depth + fuel <= usize::MAX,
                        sub == fuel - 1,
                        cs == strs_view(m.children@),
                        target == walk_in(self@.fs, w@, cur@, cs, 0, (depth + 1) as nat, sub),
                        whole == walk(self@.fs, w@, cur@, depth as nat, fuel as nat),
                        whole == match target {
                            Ok(r) => Ok::<Seq<Seq<char>>, ErrView>(here + r),
                            Err(e) => Err(e),
                        },
                        match target {
                            Ok(all) => exists|done: Seq<Seq<char>>|
                                {
                                    &&& strs_view(results@) == mid + done
                                    &&& walk_in(self@.fs, w@, cur@, cs, k as int, (depth + 1) as nat, sub) matches Ok(
                                        rest,
                                    ) && all == done + rest
                                },
                            Err(e) => match walk_in(self@.fs, w@, cur@, cs, k as int, (depth + 1) as nat, sub) {
                                Ok(_) => false,
                                Err(e2) => e2 == e,
                            },
                        },
                    decreases m.children@.len() - k,
                {
                    assert(cs[k as int] == m.children@[k as int]@);
                    let child = join_path_exec(cur, m.children[k].as_str());
                    let ghost before = strs_view(results@);
                    let res = self.walk_vfs(w, child.as_str(), depth + 1, fuel - 1, results);
                    match res {
                        Err(e) => {
                            proof {
                                assert(walk_in(self@.fs, w@, cur@, cs, k as int, (depth + 1) as nat, sub) == Err::<
                                    Seq<Seq<char>>,
                                    ErrView,
                                >(e@));
                            }
                            return Err(e);
                        },
                        Ok(()) => {},
                    }
                    proof {
                        let a = walk(self@.fs, w@, join_path(cur@, cs[k as int]), (depth + 1) as nat, sub);
                        let a_v = a->Ok_0;
                        if target is Ok {
                            let done = choose|done: Seq<Seq<char>>|
                                {
                                    &&& before == mid + done
                                    &&& walk_in(self@.fs, w@, cur@, cs, k as int, (depth + 1) as nat, sub) matches Ok(
                                        rest,
                                    ) && target->Ok_0 == done + rest
                                };
                            let rest = walk_in(self@.fs, w@, cur@, cs, k as int, (depth + 1) as nat, sub)->Ok_0;
                            let rest2 = walk_in(self@.fs, w@, cur@, cs, k + 1, (depth + 1) as nat, sub)->Ok_0;
                            assert(rest == a_v + rest2);
                            assert(strs_view(results@) =~= mid + (done + a_v));
                            assert(target->Ok_0 =~= (done + a_v) + rest2);
                        }
                    }
                    k += 1;
                }
                proof {
                    assert(walk_in(self@.fs, w@, cur@, cs, k as int, (depth + 1) as nat, sub) == Ok::<
                        Seq<Seq<char>>,
                        ErrView,
                    >(Seq::empty()));
                    if target is Ok {
                        let done = choose|done: Seq<Seq<char>>|
                            {
                                &&& strs_view(results@) == mid + done
                                &&& walk_in(self@.fs, w@, cur@, cs, k as int, (depth + 1) as nat, sub) matches Ok(
                                    rest,
                                ) && target->Ok_0 == done + rest
                            };
                        assert(target->Ok_0 =~= done);
                        assert(strs_view(results@) =~= start + (here + done));
                    }
                }
                Ok(())
            },
        }
    }

    /// `fd [-H] [-e EXT].. [-t f|d] [-d DEPTH] [PATTERN] [PATH]`: prints the paths under
    /// PATH (default `.`) that pass the filters, sorted, one per line.
    pub fn builtin_fd(&self, args: &[String]) -> (r: Result<CmdOutput, ZillError>)
        requires
            self.wf(),
        ensures
            cmd_view(r) == spec_fd(self@, strs_view(args@)),
    {
        let argv = clone_strings_slice(args);
        let tbl = fd_table();
        let p = match parse_options(&argv, &tbl) {
            Ok(p) => p,
            Err(m) => {
                return Ok(CmdOutput::error(m, 1));
            },
        };
        let cli = match fd_args_from(p) {
            Ok(c) => c,
            Err(m) => {
                return Ok(CmdOutput::error(m, 1));
            },
        };
        let root = match &cli.path {
            Some(x) => self.vfs.canonicalize(x.as_str(), self.cwd.as_str()),
            None => self.vfs.canonicalize(".", self.cwd.as_str()),
        };
        let glob = match &cli.pattern {
            Some(x) => {
                let g = if simple_pattern(x.as_str()) {
                    concat3("*", x.as_str(), "*")
                } else {
                    owned(x.as_str())
                };
                match compile_glob(g.as_str()) {
                    Err(e) => {
                        return Err(ZillError::Generic(e));
                    },
                    Ok(m) => Some(m),
                }
            },
            None => None,
        };
        let ignore = match self.vfs.read("/.gitignore") {
            Ok(content) => {
                let text = from_utf8_lossy(content);
                let ls = lines(text.as_str());
                match compile_gitignore(&ls) {
                    Err(e) => {
                        return Err(ZillError::Generic(e));
                    },
                    Ok(m) => Some(m),
                }
            },
            Err(_) => None,
        };
        let w = Walker { root, cli, glob, ignore };
        let fuel = self.vfs.node_count();
        let mut results: Vec<String> = Vec::new();
        assert(strs_view(results@) =~= Seq::<Seq<char>>::empty());
        match self.walk_vfs(&w, w.root.as_str(), 0, fuel, &mut results) {
            Err(e) => {
                return Err(e);
            },
            Ok(()) => {},
        }
        assert(strs_view(results@) =~= Seq::<Seq<char>>::empty() + strs_view(results@));
        let sorted = sort_strings(&results);
        let ghost q = strs_view(sorted@);
        let mut out = String::new();
        let mut i: usize = 0;
        proof {
            reveal_strlit("\n");
            assert(seq!['\n'] =~= "\n"@);
        }
        assert(q.take(0) =~= Seq::<Seq<char>>::empty());
        while i < sorted.len()
            invariant
                i <= sorted@.len(),
                q == strs_view(sorted@),
                out@ == join_lines(q.take(i as int)),
                seq!['\n'] == "\n"@,
            decreases sorted.len() - i,
        {
            assert(q.take(i + 1).drop_last() =~= q.take(i as int));
            assert(q[i as int] == sorted@[i as int]@);
            out.append(sorted[i].as_str());
            out.append("\n");
            i += 1;
        }
        assert(q.take(sorted@.len() as int) =~= q);
        Ok(CmdOutput::success(out))
    }
}

/// An entry name that `-H` is needed for: it starts with `.` and is neither `.` nor `..`.
pub open spec fn hidden_name(d: Seq<char>) -> bool {
    let nm = name_or_empty(d);
    nm.len() > 0 && nm[0] == '.' && nm != seq!['.'] && nm != seq!['.', '.']
}

/// `p` lies at or inside `x`, and no path between them (`x` itself excepted when it is the
/// root of the search) has a hidden name.
pub open spec fn clear_below(env: FdEnv, x: Seq<char>, p: Seq<char>) -> bool {
    &&& crate::tree::under(p, x)
    &&& forall|d: Seq<char>|
        #![trigger crate::tree::under(p, d), crate::tree::under(d, x)]
        crate::tree::under(p, d) && crate::tree::under(d, x) && d != env.root ==> !hidden_name(d)
}

proof fn lemma_empty_not_hidden()
    ensures
        !hidden_name(Seq::<char>::empty()),
{
    let e = Seq::<char>::empty();
    assert(crate::path::pieces_from(e, 0, e) == seq![e]);
    assert(crate::path::keep_pieces(seq![e]) == crate::path::keep_pieces(seq![e].drop_last()));
    assert(seq![e].drop_last() =~= Seq::<Seq<char>>::empty());
    assert(crate::path::comps(e) =~= Seq::<Seq<char>>::empty());
}

proof fn lemma_under_antisym(a: Seq<char>, b: Seq<char>)
    requires
        a.len() > 0,
        b.len() > 0,
        crate::tree::under(a, b),
        crate::tree::under(b, a),
    ensures
        a == b,
{
    if b == crate::path::slash() {
        assert(a == crate::path::slash() || a == b || a.len() < 1);
    } else if a == crate::path::slash() {
    }
}

/// A path inside the child `c` of `cur` is inside `cur`; and a path between it and `cur`
/// is `cur`, is empty, or lies at or inside the child.
proof fn lemma_under_step(p: Seq<char>, cur: Seq<char>, c: Seq<char>, d: Seq<char>)
    requires
        crate::path::good_key(cur),
        crate::path::valid_name(c),
        crate::tree::under(p, crate::path::child_key(cur, c)),
    ensures
        crate::tree::under(p, cur),
        crate::tree::under(p, d) && crate::tree::under(d, cur) ==> d == cur || d.len() == 0 || crate::tree::under(
            d,
            crate::path::child_key(cur, c),
        ),
{
    let ch = crate::path::child_key(cur, c);
    let slash = crate::path::slash();
    crate::path::lemma_root_comps();
    crate::path::lemma_good_abs(cur);
    assert forall|k: int| 0 <= k < c.len() implies c[k] != '/' by {}
    if cur == slash {
        assert(ch =~= slash + c);
    } else {
        crate::tree_laws::lemma_good_split(cur);
        assert(ch =~= cur + slash + c);
        assert(cur.len() > 1) by {
            if cur.len() <= 1 {
                assert(cur =~= slash);
            }
        }
    }
    let n = ch.len() as int;
    assert(p == ch || (n < p.len() && p.subrange(0, n) == ch && p[n] == '/'));
    assert forall|k: int| 0 <= k < n implies p[k] == ch[k] by {
        if p != ch {
            assert(p.subrange(0, n)[k] == p[k]);
        }
    }
    if cur != slash {
        assert(p.subrange(0, cur.len() as int) =~= cur);
        assert(p[cur.len() as int] == '/');
    }
    if crate::tree::under(p, d) && crate::tree::under(d, cur) && d != cur && d.len() != 0 {
        let m = d.len() as int;
        assert(d != slash);
        assert(p == d || (m < p.len() && p.subrange(0, m) == d && p[m] == '/'));
        assert forall|k: int| 0 <= k < m implies d[k] == p[k] by {
            if p != d {
                assert(p.subrange(0, m)[k] == p[k]);
            }
        }
        if cur != slash {
            assert(m > cur.len());
        }
        if m < n {
            if p == d {
                assert(false);
            }
            if cur == slash {
                assert(ch[m] == c[m - 1]);
            } else {
                assert(m >= cur.len() + 1) by {
                    if m == cur.len() + 1 {
                    }
                }
                assert(d[cur.len() as int] == '/');
                if m == cur.len() + 1 {
                    assert(ch[m] == c[0]);
                } else {
                    assert(ch[m] == c[m - cur.len() - 1]);
                }
            }
            assert(p[m] == ch[m]);
            assert(false);
        } else if m == n {
            assert(d =~= ch);
        } else {
            assert(d.subrange(0, n) =~= ch);
            assert(p != ch);
            assert(d[n] == p[n]);
        }
    }
}

proof fn lemma_walk_clear(fs: FsMap, env: FdEnv, cur: Seq<char>, depth: nat, fuel: nat)
    requires
        crate::tree::is_tree(fs),
        !env.cli.hidden,
        crate::path::good_key(cur),
    ensures
        walk(fs, env, cur, depth, fuel) matches Ok(out) ==> forall|i: int|
            0 <= i < out.len() ==> #[trigger] clear_below(env, cur, out[i]),
    decreases fuel, 0int, 0int,
{
    if fuel == 0 || (env.cli.max_depth is Some && depth > env.cli.max_depth->Some_0) {
    } else {
        crate::path::lemma_root_comps();
        if cur != crate::path::slash() {
            crate::tree_laws::lemma_good_split(cur);
        }
        assert(crate::path::norm(cur) == cur);
        match spec_stat(fs, cur) {
            Err(_) => {},
            Ok(node) => if skipped_hidden(env, cur) {
            } else if env.ignore is Some && ignored(env.ignore->Some_0, cur, node is Dir) {
            } else {
                let here = if selected(env, cur, node) && cur != seq!['/'] && cur != seq!['.'] {
                    seq![cur]
                } else {
                    Seq::empty()
                };
                assert forall|i: int| 0 <= i < here.len() implies #[trigger] clear_below(env, cur, here[i]) by {
                    assert(here[i] == cur);
                    assert forall|d: Seq<char>|
                        crate::tree::under(cur, d) && crate::tree::under(d, cur) && d != env.root implies !hidden_name(d) by {
                        if d.len() == 0 {
                            lemma_empty_not_hidden();
                        } else {
                            lemma_under_antisym(cur, d);
                        }
                    }
                }
                match node {
                    NodeView::Dir { children, .. } => {
                        assert(fs[cur] is Dir);
                        crate::order::lemma_sorted_of_set(children);
                        lemma_walk_in_clear(fs, env, cur, sorted_of(children), 0, depth + 1, (fuel - 1) as nat);
                        match walk_in(fs, env, cur, sorted_of(children), 0, depth + 1, (fuel - 1) as nat) {
                            Ok(r) => {
                                assert forall|i: int| 0 <= i < (here + r).len() implies #[trigger] clear_below(
                                    env,
                                    cur,
                                    (here + r)[i],
                                ) by {
                                    if i < here.len() {
                                        assert((here + r)[i] == here[i]);
                                    } else {
                                        assert((here + r)[i] == r[i - here.len()]);
                                    }
                                }
                            },
                            Err(_) => {},
                        }
                    },
                    NodeView::File { .. } => {},
                }
            },
        }
    }
}

proof fn lemma_walk_in_clear(
    fs: FsMap,
    env: FdEnv,
    dir: Seq<char>,
    cs: Seq<Seq<char>>,
    k: int,
    depth: nat,
    fuel: nat,
)
    requires
        crate::tree::is_tree(fs),
        !env.cli.hidden,
        crate::path::good_key(dir),
        fs.contains_key(dir) && fs[dir] is Dir,
        forall|j: int| 0 <= j < cs.len() ==> fs[dir]->Dir_children.contains(#[trigger] cs[j]),
        dir == env.root || !hidden_name(dir),
    ensures
        walk_in(fs, env, dir, cs, k, depth, fuel) matches Ok(out) ==> forall|i: int|
            0 <= i < out.len() ==> #[trigger] clear_below(env, dir, out[i]),
    decreases fuel, 1int, cs.len() - k,
{
    if 0 <= k < cs.len() {
        let c = cs[k];
        assert(fs[dir]->Dir_children.contains(c));
        assert(crate::path::valid_name(c));
        crate::path::lemma_child_key(dir, c);
        let ch = crate::path::child_key(dir, c);
        assert(join_path(dir, c) == ch);
        lemma_walk_clear(fs, env, ch, depth, fuel);
        lemma_walk_in_clear(fs, env, dir, cs, k + 1, depth, fuel);
        match walk(fs, env, ch, depth, fuel) {
            Err(_) => {},
            Ok(a) => match walk_in(fs, env, dir, cs, k + 1, depth, fuel) {
                Err(_) => {},
                Ok(b) => {
                    assert forall|i: int| 0 <= i < a.len() implies #[trigger] clear_below(env, dir, a[i]) by {
                        let p = a[i];
                        assert(clear_below(env, ch, p));
                        lemma_under_step(p, dir, c, p);
                        assert forall|d: Seq<char>|
                            crate::tree::under(p, d) && crate::tree::under(d, dir) && d != env.root implies !hidden_name(
                            d,
                        ) by {
                            lemma_under_step(p, dir, c, d);
                            if d.len() == 0 {
                                lemma_empty_not_hidden();
                            } else if d != dir {
                                assert(crate::tree::under(d, ch));
                            }
                        }
                    }
                    assert forall|i: int| 0 <= i < (a + b).len() implies #[trigger] clear_below(env, dir, (a + b)[i]) by {
                        if i < a.len() {
                            assert((a + b)[i] == a[i]);
                        } else {
                            assert((a + b)[i] == b[i - a.len()]);
                        }
                    }
                },
            },
        }
    }
}

/// Without `-H`, `fd` reports nothing inside a hidden entry: for every reported path and
/// every path between it and the root of the search (the root excepted), that path's
/// name does not start with `.` (other than `.` and `..`). A hidden directory is skipped
/// with everything under it.
pub proof fn law_fd_skips_hidden(fs: FsMap, env: FdEnv, depth: nat, fuel: nat)
    requires
        crate::tree::is_tree(fs),
        !env.cli.hidden,
        crate::path::good_key(env.root),
    ensures
        walk(fs, env, env.root, depth, fuel) matches Ok(out) ==> forall|i: int, d: Seq<char>|
            0 <= i < out.len() && crate::tree::under(#[trigger] out[i], d) && #[trigger] crate::tree::under(d, env.root)
                && d != env.root ==> !hidden_name(d),
{
    lemma_walk_clear(fs, env, env.root, depth, fuel);
    if let Ok(out) = walk(fs, env, env.root, depth, fuel) {
        assert forall|i: int, d: Seq<char>|
            0 <= i < out.len() && crate::tree::under(#[trigger] out[i], d) && #[trigger] crate::tree::under(d, env.root)
                && d != env.root implies !hidden_name(d) by {
            assert(clear_below(env, env.root, out[i]));
        }
    }
}

} // verus!
