//! `rg`: searches file contents with a regular expression.
use vstd::prelude::*;
use crate::builtins::args::{
    CliText, OptTable, Parsed, ParsedArgs, invalid_number, invalid_number_text, last_value, last_value_of, longs_view,
    opt_str, pairs_view, parse_args, parse_options,
};
use crate::builtins::basic::{has_opt, opt_given};
use crate::error::{ErrView, ZillError};
use crate::fs::{
    FsMap, Node, NodeView, VirtualFs, clone_strings, clone_strings_slice, join_path, join_path_exec,
    spec_canonicalize, spec_read, spec_stat,
};
use crate::order::{names_set, sorted_of, lemma_sorted_of};
use crate::session::{CmdOutput, SessView, ZillSession, lemma_utf8_concat, text_of, from_utf8_lossy, utf8};
use crate::text::{concat2, concat3, decimal, decimal_string, owned, parse_u64, parse_u64_spec, strs_view};

verus! {

/// The error that `grep_regex` reports for a pattern, if it rejects it.
pub uninterp spec fn regex_error(pattern: Seq<char>, ignore_case: bool) -> Option<Seq<char>>;

#[verifier::external_type_specification]
#[verifier::external_body]
pub struct ExRegexMatcher(grep_regex::RegexMatcher);

/// A compiled pattern, with the pattern and the case rule it was compiled from.
pub struct Regex {
    matcher: grep_regex::RegexMatcher,
    pattern: Ghost<Seq<char>>,
    ignore_case: Ghost<bool>,
}

impl Regex {
    /// The pattern it was compiled from.
    pub closed spec fn pattern(&self) -> Seq<char> {
        self.pattern@
    }

    /// Whether it ignores case.
    pub closed spec fn ignore_case(&self) -> bool {
        self.ignore_case@
    }
}

/// Compiles a pattern once for a command (calls `grep_regex::RegexMatcherBuilder::build`);
/// the error text when it is rejected.
#[verifier::external_body]
fn compile_regex(pattern: &str, ignore_case: bool) -> (r: Result<Regex, String>)
    ensures
        match regex_error(pattern@, ignore_case) {
            Some(e) => r matches Err(s) && s@ == e,
            None => r matches Ok(m) && m.pattern() == pattern@ && m.ignore_case() == ignore_case,
        },
{
    match grep_regex::RegexMatcherBuilder::new().case_insensitive(ignore_case).build(pattern) {
        Ok(m) => Ok(Regex { matcher: m, pattern: Ghost(pattern@), ignore_case: Ghost(ignore_case) }),
        Err(e) => Err(e.to_string()),
    }
}

/// The matching lines of `content`: line number and bytes (line terminator included),
/// as `grep_searcher::Searcher::search_slice` with the default searcher reports them.
pub uninterp spec fn grep_lines(pattern: Seq<char>, ignore_case: bool, content: Seq<u8>) -> Seq<(u64, Seq<u8>)>;

pub open spec fn matches_view(v: Seq<(u64, Vec<u8>)>) -> Seq<(u64, Seq<u8>)> {
    v.map_values(|p: (u64, Vec<u8>)| (p.0, p.1@))
}

/// Adds one reported match to a list.
pub fn record_match(found: &mut Vec<(u64, Vec<u8>)>, n: u64, line: &[u8])
    ensures
        matches_view(final(found)@) == matches_view(old(found)@).push((n, line@)),
{
    let mut copy: Vec<u8> = Vec::new();
    crate::session::write_bytes(&mut copy, line);
    let ghost before = old(found)@;
    found.push((n, copy));
    assert(matches_view(found@) =~= matches_view(before).push((n, line@)));
}

/// Searches `content` line by line with a compiled pattern (calls
/// `grep_searcher::Searcher::search_slice`); the matching lines are `grep_lines(..)` of
/// the pattern and case rule it was compiled from.
#[verifier::external_body]
fn search_lines(m: &Regex, content: &[u8]) -> (r: Vec<(u64, Vec<u8>)>)
    ensures
        matches_view(r@) == grep_lines(m.pattern(), m.ignore_case(), content@),
{
    let mut found: Vec<(u64, Vec<u8>)> = Vec::new();
    let sink = grep_searcher::sinks::Bytes(|n, line| {
        record_match(&mut found, n, line);
        Ok(true)
    });
    let _ = grep_searcher::Searcher::new().search_slice(&m.matcher, content, sink);
    found
}

/// The files under `path`, depth first, entries in sorted order, at most `fuel` levels deep.
pub open spec fn files_under(fs: FsMap, path: Seq<char>, fuel: nat) -> Seq<Seq<char>>
    decreases fuel, 0int, 0int,
{
    if fuel == 0 {
        Seq::empty()
    } else {
        match spec_stat(fs, path) {
            Err(_) => Seq::empty(),
            Ok(NodeView::File { .. }) => seq![path],
            Ok(NodeView::Dir { children, .. }) => files_in(fs, path, sorted_of(children), 0, (fuel - 1) as nat),
        }
    }
}

pub open spec fn files_in(fs: FsMap, dir: Seq<char>, cs: Seq<Seq<char>>, k: int, fuel: nat) -> Seq<Seq<char>>
    decreases fuel, 1int, cs.len() - k,
{
    if k < 0 || k >= cs.len() {
        Seq::empty()
    } else {
        files_under(fs, join_path(dir, cs[k]), fuel) + files_in(fs, dir, cs, k + 1, fuel)
    }
}

/// The options of `rg`.
pub struct RgCli {
    pub pattern: Seq<char>,
    pub paths: Seq<Seq<char>>,
    pub line_number: bool,
    pub ignore_case: bool,
    pub count: bool,
    pub files_with_matches: bool,
    pub max_count: Option<u64>,
}

pub open spec fn rg_shorts() -> Seq<(char, bool)> {
    seq![('n', false), ('i', false), ('c', false), ('l', false)]
}

/// The usage line of `rg`, as `clap` shows it.
pub const RG_USAGE: &'static str = "zill [OPTIONS] <PATTERN> [PATHS]...";

/// The help text of `rg`, as `clap` shows it for `-h` and `--help`.
pub const RG_HELP: &'static str = "Usage: zill [OPTIONS] <PATTERN> [PATHS]...\n\nArguments:\n  <PATTERN>   \n  [PATHS]...  \n\nOptions:\n  -n                           \n  -i                           \n  -c                           \n  -l                           \n      --max-count <MAX_COUNT>  \n  -h, --help                   Print help\n";

/// What `rg` shows about its options.
pub open spec fn rg_text() -> CliText {
    CliText { usage: RG_USAGE@, help: RG_HELP@, values: seq![("--max-count"@, "MAX_COUNT"@)] }
}

/// `--max-count` stands for the key `M`, which no short option uses.
pub open spec fn rg_longs() -> Seq<(Seq<char>, char, bool)> {
    seq![("max-count"@, 'M', true)]
}

pub open spec fn missing_pattern() -> Seq<char> {
    MISSING_PATTERN@
}

/// What `clap` reports when the pattern is missing.
pub const MISSING_PATTERN: &'static str = "error: the following required arguments were not provided:\n  <PATTERN>\n\nUsage: zill <PATTERN> [PATHS]...\n\nFor more information, try '--help'.\n";

pub open spec fn invalid_max_count(v: Seq<char>) -> Seq<char> {
    invalid_number(rg_text(), "--max-count"@, v)
}

/// The options of `rg`, or the message that rejects them.
pub open spec fn rg_cli(p: Parsed) -> Result<RgCli, Seq<char>> {
    if p.1.len() == 0 {
        Err(missing_pattern())
    } else {
        let mc = last_value(p.0, 'M');
        let parsed_mc = match mc {
            Some(v) => parse_u64_spec(v),
            None => None,
        };
        if mc is Some && parsed_mc is None {
            Err(invalid_max_count(mc->Some_0))
        } else {
            Ok(
                RgCli {
                    pattern: p.1[0],
                    paths: p.1.drop_first(),
                    line_number: has_opt(p.0, 'n'),
                    ignore_case: has_opt(p.0, 'i'),
                    count: has_opt(p.0, 'c'),
                    files_with_matches: has_opt(p.0, 'l'),
                    max_count: parsed_mc,
                },
            )
        }
    }
}

/// What `rg` writes for one matching line.
pub open spec fn match_text(line_number: bool, disp: Seq<char>, m: (u64, Seq<u8>)) -> Seq<char> {
    let head = if line_number {
        disp + ":"@ + decimal(m.0 as nat) + ":"@
    } else {
        disp + ":"@
    };
    let body = text_of(m.1);
    if m.1.len() > 0 && m.1.last() == 10u8 {
        head + body
    } else {
        head + body + seq!['\n']
    }
}

/// The matches of one file from `j`: the output so far, the number of matches counted,
/// and whether any was found. `left` is how many matches the command may still report:
/// once the count reaches it, no further match is reported.
pub open spec fn sink_run(
    cli: RgCli,
    disp: Seq<char>,
    ms: Seq<(u64, Seq<u8>)>,
    j: int,
    out: Seq<char>,
    mc: nat,
    found: bool,
    max_output: usize,
    left: nat,
) -> (Seq<char>, nat, bool)
    decreases ms.len() - j,
{
    if j < 0 || j >= ms.len() {
        (out, mc, found)
    } else if mc >= left {
        (out, mc, found)
    } else if cli.files_with_matches {
        (out + disp + seq!['\n'], mc + 1, true)
    } else {
        let out1 = if !cli.count {
            out + match_text(cli.line_number, disp, ms[j])
        } else {
            out
        };
        if cli.max_count is Some && mc + 1 >= cli.max_count->Some_0 {
            (out1, mc + 1, true)
        } else if utf8(out1).len() > max_output {
            (out1, mc + 1, true)
        } else {
            sink_run(cli, disp, ms, j + 1, out1, mc + 1, true, max_output, left)
        }
    }
}

/// How many matches a command with `total` already counted may still report.
pub open spec fn budget_left(max: u64, total: u64) -> nat {
    if total < max {
        (max - total) as nat
    } else {
        0
    }
}

/// The largest number of matches that `--max-count N` lets one file count.
pub open spec fn count_cap(n: u64) -> nat {
    if n == 0 {
        1
    } else {
        n as nat
    }
}

proof fn lemma_sink_count(
    cli: RgCli,
    disp: Seq<char>,
    ms: Seq<(u64, Seq<u8>)>,
    j: int,
    out: Seq<char>,
    mc: nat,
    found: bool,
    max_output: usize,
    left: nat,
)
    requires
        0 <= j <= ms.len(),
    ensures
        ({
            let r = sink_run(cli, disp, ms, j, out, mc, found, max_output, left);
            &&& mc <= r.1 <= mc + ms.len() - j
            &&& r.2 == (found || (j < ms.len() && mc < left))
            &&& mc >= left ==> r.0 == out && r.1 == mc
            &&& (cli.max_count is Some && mc < count_cap(cli.max_count->Some_0)) ==> r.1 <= count_cap(
                cli.max_count->Some_0,
            )
            &&& (cli.files_with_matches && j < ms.len() && mc < left) ==> r.0 == out + disp + seq!['\n']
            &&& mc <= left ==> r.1 <= left
        }),
    decreases ms.len() - j,
{
    if j < ms.len() && mc < left && !cli.files_with_matches {
        let out1 = if !cli.count {
            out + match_text(cli.line_number, disp, ms[j])
        } else {
            out
        };
        lemma_sink_count(cli, disp, ms, j + 1, out1, mc + 1, true, max_output, left);
    }
}

/// What one file adds to the output of `rg`: the number of matches counted is at most
/// the number of matching lines, at least one when a line matches, with
/// `--max-count N` at most N (one when N is 0), and at most the `left` matches that the
/// command may still report; when none is left, the file adds nothing. With `-l` the
/// file's path is printed once when a line matches and a match is left, and nothing
/// otherwise.
pub proof fn law_rg_one_file(
    cli: RgCli,
    disp: Seq<char>,
    ms: Seq<(u64, Seq<u8>)>,
    out: Seq<char>,
    max_output: usize,
    left: nat,
)
    ensures
        ({
            let r = sink_run(cli, disp, ms, 0, out, 0, false, max_output, left);
            &&& r.1 <= ms.len()
            &&& r.2 == (ms.len() > 0 && left > 0)
            &&& ms.len() > 0 && left > 0 ==> r.1 >= 1
            &&& cli.max_count is Some ==> r.1 <= count_cap(cli.max_count->Some_0)
            &&& r.1 <= left
            &&& left == 0 ==> r.0 == out && r.1 == 0
            &&& cli.files_with_matches ==> r.0 == (if ms.len() > 0 && left > 0 {
                out + disp + seq!['\n']
            } else {
                out
            })
        }),
{
    lemma_sink_count(cli, disp, ms, 0, out, 0, false, max_output, left);
    if ms.len() > 0 && left > 0 && !cli.files_with_matches {
        let out1 = if !cli.count {
            out + match_text(cli.line_number, disp, ms[0])
        } else {
            out
        };
        lemma_sink_count(cli, disp, ms, 1, out1, 1, true, max_output, left);
    }
}

pub open spec fn sat_add(a: u64, b: nat) -> u64 {
    if a + b > u64::MAX {
        u64::MAX
    } else {
        (a + b) as u64
    }
}

/// The search of the files from `k`: the output, the total of matches, and whether a limit stopped it.
pub open spec fn search_files(
    st: SessView,
    cli: RgCli,
    files: Seq<Seq<char>>,
    k: int,
    out: Seq<char>,
    total: u64,
) -> (Seq<char>, u64, bool)
    decreases files.len() - k,
{
    if k < 0 || k >= files.len() {
        (out, total, false)
    } else {
        match spec_read(st.fs, files[k]) {
            Err(_) => search_files(st, cli, files, k + 1, out, total),
            Ok(content) => {
                let ms = grep_lines(cli.pattern, cli.ignore_case, content);
                let r = sink_run(
                    cli,
                    files[k],
                    ms,
                    0,
                    out,
                    0,
                    false,
                    st.limits.max_output_size,
                    budget_left(st.limits.max_match_count, total),
                );
                let out3 = if cli.count && r.2 {
                    r.0 + files[k] + ":"@ + decimal(r.1) + seq!['\n']
                } else {
                    r.0
                };
                let total2 = sat_add(total, r.1);
                if total2 >= st.limits.max_match_count || utf8(out3).len() > st.limits.max_output_size {
                    (out3, total2, true)
                } else {
                    search_files(st, cli, files, k + 1, out3, total2)
                }
            },
        }
    }
}

/// The search of the paths from `i`: the output and the total of matches.
pub open spec fn search_paths(
    st: SessView,
    cli: RgCli,
    paths: Seq<Seq<char>>,
    i: int,
    out: Seq<char>,
    total: u64,
) -> (Seq<char>, u64)
    decreases paths.len() - i,
{
    if i < 0 || i >= paths.len() {
        (out, total)
    } else {
        let files = files_under(st.fs, spec_canonicalize(paths[i], st.cwd), st.fs.len());
        let r = search_files(st, cli, files, 0, out, total);
        if r.1 >= st.limits.max_match_count || utf8(r.0).len() > st.limits.max_output_size {
            (r.0, r.1)
        } else {
            search_paths(st, cli, paths, i + 1, r.0, r.1)
        }
    }
}

proof fn lemma_files_total(st: SessView, cli: RgCli, files: Seq<Seq<char>>, k: int, out: Seq<char>, total: u64)
    requires
        0 <= k <= files.len(),
        total <= st.limits.max_match_count,
    ensures
        search_files(st, cli, files, k, out, total).1 <= st.limits.max_match_count,
    decreases files.len() - k,
{
    if k < files.len() {
        match spec_read(st.fs, files[k]) {
            Err(_) => lemma_files_total(st, cli, files, k + 1, out, total),
            Ok(content) => {
                let ms = grep_lines(cli.pattern, cli.ignore_case, content);
                let left = budget_left(st.limits.max_match_count, total);
                law_rg_one_file(cli, files[k], ms, out, st.limits.max_output_size, left);
                let r = sink_run(cli, files[k], ms, 0, out, 0, false, st.limits.max_output_size, left);
                let out3 = if cli.count && r.2 {
                    r.0 + files[k] + ":"@ + decimal(r.1) + seq!['\n']
                } else {
                    r.0
                };
                let total2 = sat_add(total, r.1);
                if !(total2 >= st.limits.max_match_count || utf8(out3).len() > st.limits.max_output_size) {
                    lemma_files_total(st, cli, files, k + 1, out3, total2);
                }
            },
        }
    }
}

proof fn lemma_paths_total(st: SessView, cli: RgCli, paths: Seq<Seq<char>>, i: int, out: Seq<char>, total: u64)
    requires
        0 <= i <= paths.len(),
        total <= st.limits.max_match_count,
    ensures
        search_paths(st, cli, paths, i, out, total).1 <= st.limits.max_match_count,
    decreases paths.len() - i,
{
    if i < paths.len() {
        let files = files_under(st.fs, spec_canonicalize(paths[i], st.cwd), st.fs.len());
        lemma_files_total(st, cli, files, 0, out, total);
        let r = search_files(st, cli, files, 0, out, total);
        if !(r.1 >= st.limits.max_match_count || utf8(r.0).len() > st.limits.max_output_size) {
            lemma_paths_total(st, cli, paths, i + 1, r.0, r.1);
        }
    }
}

/// The matches that one `rg` command counts over all its files and paths are at most the
/// session's `max_match_count`: no match is reported once the command's budget is used
/// up, and no file is searched after that.
pub proof fn law_rg_match_cap(st: SessView, cli: RgCli, paths: Seq<Seq<char>>)
    ensures
        search_paths(st, cli, paths, 0, Seq::empty(), 0).1 <= st.limits.max_match_count,
{
    lemma_paths_total(st, cli, paths, 0, Seq::empty(), 0);
}

/// What one file gives when no limit of the session interferes: the text written, the
/// matches counted, and whether any was found.
pub open spec fn sink_free(cli: RgCli, disp: Seq<char>, ms: Seq<(u64, Seq<u8>)>, j: int, mc: nat, found: bool) -> (
    Seq<char>,
    nat,
    bool,
)
    decreases ms.len() - j,
{
    if j < 0 || j >= ms.len() {
        (Seq::empty(), mc, found)
    } else if cli.files_with_matches {
        (disp + seq!['\n'], mc + 1, true)
    } else {
        let t = if !cli.count {
            match_text(cli.line_number, disp, ms[j])
        } else {
            Seq::empty()
        };
        if cli.max_count is Some && mc + 1 >= cli.max_count->Some_0 {
            (t, mc + 1, true)
        } else {
            let r = sink_free(cli, disp, ms, j + 1, mc + 1, true);
            (t + r.0, r.1, r.2)
        }
    }
}

/// What the files from the `k`-th give when no limit of the session interferes.
pub open spec fn free_files(st: SessView, cli: RgCli, files: Seq<Seq<char>>, k: int) -> (Seq<char>, nat)
    decreases files.len() - k,
{
    if k < 0 || k >= files.len() {
        (Seq::empty(), 0)
    } else {
        match spec_read(st.fs, files[k]) {
            Err(_) => free_files(st, cli, files, k + 1),
            Ok(content) => {
                let ms = grep_lines(cli.pattern, cli.ignore_case, content);
                let f = sink_free(cli, files[k], ms, 0, 0, false);
                let t = if cli.count && f.2 {
                    f.0 + files[k] + ":"@ + decimal(f.1) + seq!['\n']
                } else {
                    f.0
                };
                let r = free_files(st, cli, files, k + 1);
                (t + r.0, f.1 + r.1)
            },
        }
    }
}

/// What the paths from the `i`-th give when no limit of the session interferes.
pub open spec fn free_paths(st: SessView, cli: RgCli, paths: Seq<Seq<char>>, i: int) -> (Seq<char>, nat)
    decreases paths.len() - i,
{
    if i < 0 || i >= paths.len() {
        (Seq::empty(), 0)
    } else {
        let g = free_files(st, cli, files_under(st.fs, spec_canonicalize(paths[i], st.cwd), st.fs.len()), 0);
        let r = free_paths(st, cli, paths, i + 1);
        (g.0 + r.0, g.1 + r.1)
    }
}

proof fn lemma_utf8_grows(a: Seq<char>, b: Seq<char>)
    ensures
        utf8(a + b).len() == utf8(a).len() + utf8(b).len(),
{
    lemma_utf8_concat(a, b);
}

proof fn lemma_sink_free_count(cli: RgCli, disp: Seq<char>, ms: Seq<(u64, Seq<u8>)>, j: int, mc: nat, found: bool)
    ensures
        sink_free(cli, disp, ms, j, mc, found).1 >= mc,
        0 <= j < ms.len() ==> sink_free(cli, disp, ms, j, mc, found).1 >= mc + 1,
    decreases ms.len() - j,
{
    if 0 <= j < ms.len() && !cli.files_with_matches && !(cli.max_count is Some && mc + 1 >= cli.max_count->Some_0) {
        lemma_sink_free_count(cli, disp, ms, j + 1, mc + 1, true);
    }
}

/// One file under the limits: the sink gives what the free sink gives.
proof fn lemma_sink_within(
    cli: RgCli,
    disp: Seq<char>,
    ms: Seq<(u64, Seq<u8>)>,
    j: int,
    out: Seq<char>,
    mc: nat,
    found: bool,
    max_output: usize,
    left: nat,
)
    requires
        sink_free(cli, disp, ms, j, mc, found).1 <= left,
        utf8(out + sink_free(cli, disp, ms, j, mc, found).0).len() <= max_output,
    ensures
        sink_run(cli, disp, ms, j, out, mc, found, max_output, left) == (
            out + sink_free(cli, disp, ms, j, mc, found).0,
            sink_free(cli, disp, ms, j, mc, found).1,
            sink_free(cli, disp, ms, j, mc, found).2,
        ),
    decreases ms.len() - j,
{
    let f = sink_free(cli, disp, ms, j, mc, found);
    if j < 0 || j >= ms.len() {
        assert(out + f.0 =~= out);
    } else {
        lemma_sink_free_count(cli, disp, ms, j, mc, found);
        if cli.files_with_matches {
        } else {
            let t = if !cli.count {
                match_text(cli.line_number, disp, ms[j])
            } else {
                Seq::empty()
            };
            let out1 = out + t;
            if cli.max_count is Some && mc + 1 >= cli.max_count->Some_0 {
            } else {
                let r = sink_free(cli, disp, ms, j + 1, mc + 1, true);
                assert(out + f.0 =~= out1 + r.0);
                lemma_utf8_grows(out1, r.0);
                lemma_sink_within(cli, disp, ms, j + 1, out1, mc + 1, true, max_output, left);
            }
        }
    }
}

/// The sink keeps what was written before and never counts fewer than it started with.
proof fn lemma_sink_grows(
    cli: RgCli,
    disp: Seq<char>,
    ms: Seq<(u64, Seq<u8>)>,
    j: int,
    out: Seq<char>,
    mc: nat,
    found: bool,
    max_output: usize,
    left: nat,
)
    ensures
        ({
            let r = sink_run(cli, disp, ms, j, out, mc, found, max_output, left);
            &&& r.1 >= mc
            &&& r.0.len() >= out.len()
            &&& r.0 == out + r.0.subrange(out.len() as int, r.0.len() as int)
        }),
    decreases ms.len() - j,
{
    let r = sink_run(cli, disp, ms, j, out, mc, found, max_output, left);
    if j < 0 || j >= ms.len() || mc >= left {
        assert(out =~= out + out.subrange(out.len() as int, out.len() as int));
    } else if cli.files_with_matches {
        assert(r.0 =~= out + r.0.subrange(out.len() as int, r.0.len() as int));
    } else {
        let t = if !cli.count {
            match_text(cli.line_number, disp, ms[j])
        } else {
            Seq::empty()
        };
        let out1 = out + t;
        lemma_sink_grows(cli, disp, ms, j + 1, out1, mc + 1, true, max_output, left);
        assert(r.0 =~= out + r.0.subrange(out.len() as int, r.0.len() as int));
    }
}

/// One file whose sink ended under both limits gave what the free sink gives.
proof fn lemma_sink_ended_within(
    cli: RgCli,
    disp: Seq<char>,
    ms: Seq<(u64, Seq<u8>)>,
    j: int,
    out: Seq<char>,
    mc: nat,
    found: bool,
    max_output: usize,
    left: nat,
)
    requires
        sink_run(cli, disp, ms, j, out, mc, found, max_output, left).1 < left,
        utf8(sink_run(cli, disp, ms, j, out, mc, found, max_output, left).0).len() <= max_output,
    ensures
        sink_free(cli, disp, ms, j, mc, found).1 <= left,
        utf8(out + sink_free(cli, disp, ms, j, mc, found).0).len() <= max_output,
    decreases ms.len() - j,
{
    let f = sink_free(cli, disp, ms, j, mc, found);
    let r = sink_run(cli, disp, ms, j, out, mc, found, max_output, left);
    if j < 0 || j >= ms.len() {
        assert(out + f.0 =~= out);
    } else {
        lemma_sink_grows(cli, disp, ms, j, out, mc, found, max_output, left);
        assert(mc < left);
        if cli.files_with_matches {
            assert(out + f.0 =~= r.0);
        } else {
            let t = if !cli.count {
                match_text(cli.line_number, disp, ms[j])
            } else {
                Seq::empty()
            };
            let out1 = out + t;
            if cli.max_count is Some && mc + 1 >= cli.max_count->Some_0 {
                assert(out + f.0 =~= r.0);
            } else {
                let rf = sink_free(cli, disp, ms, j + 1, mc + 1, true);
                assert(out + f.0 =~= out1 + rf.0);
                if utf8(out1).len() > max_output {
                    assert(r.0 == out1);
                    assert(false);
                }
                assert(r == sink_run(cli, disp, ms, j + 1, out1, mc + 1, true, max_output, left));
                lemma_sink_ended_within(cli, disp, ms, j + 1, out1, mc + 1, true, max_output, left);
            }
        }
    }
}

proof fn lemma_files_within(st: SessView, cli: RgCli, files: Seq<Seq<char>>, k: int, out: Seq<char>, total: u64)
    requires
        0 <= k,
        total + free_files(st, cli, files, k).1 < st.limits.max_match_count,
        utf8(out + free_files(st, cli, files, k).0).len() <= st.limits.max_output_size,
    ensures
        search_files(st, cli, files, k, out, total) == (
            out + free_files(st, cli, files, k).0,
            (total + free_files(st, cli, files, k).1) as u64,
            false,
        ),
    decreases files.len() - k,
{
    let g = free_files(st, cli, files, k);
    if k >= files.len() {
        assert(out + g.0 =~= out);
    } else {
        match spec_read(st.fs, files[k]) {
            Err(_) => lemma_files_within(st, cli, files, k + 1, out, total),
            Ok(content) => {
                let ms = grep_lines(cli.pattern, cli.ignore_case, content);
                let f = sink_free(cli, files[k], ms, 0, 0, false);
                let t = if cli.count && f.2 {
                    f.0 + files[k] + ":"@ + decimal(f.1) + seq!['\n']
                } else {
                    f.0
                };
                let rr = free_files(st, cli, files, k + 1);
                assert(g == (t + rr.0, f.1 + rr.1));
                let left = budget_left(st.limits.max_match_count, total);
                assert(left == st.limits.max_match_count - total);
                assert(f.1 <= left);
                let tail = t.subrange(f.0.len() as int, t.len() as int) + rr.0;
                assert(t =~= f.0 + t.subrange(f.0.len() as int, t.len() as int));
                assert(out + g.0 =~= (out + f.0) + tail);
                lemma_utf8_grows(out + f.0, tail);
                lemma_sink_within(cli, files[k], ms, 0, out, 0, false, st.limits.max_output_size, left);
                let sr = sink_run(cli, files[k], ms, 0, out, 0, false, st.limits.max_output_size, left);
                assert(sr == (out + f.0, f.1, f.2));
                let out3 = out + t;
                let out3b = if cli.count && sr.2 {
                    sr.0 + files[k] + ":"@ + decimal(sr.1) + seq!['\n']
                } else {
                    sr.0
                };
                assert(out3b =~= out3);
                assert(sat_add(total, sr.1) == (total + f.1) as u64);
                assert(out3 + rr.0 =~= out + g.0);
                lemma_utf8_grows(out3, rr.0);
                lemma_files_within(st, cli, files, k + 1, out3, (total + f.1) as u64);
            },
        }
    }
}

proof fn lemma_files_grow(st: SessView, cli: RgCli, files: Seq<Seq<char>>, k: int, out: Seq<char>, total: u64)
    ensures
        ({
            let r = search_files(st, cli, files, k, out, total);
            &&& r.1 >= total
            &&& r.0.len() >= out.len()
            &&& r.0 == out + r.0.subrange(out.len() as int, r.0.len() as int)
        }),
    decreases files.len() - k,
{
    let r = search_files(st, cli, files, k, out, total);
    if k < 0 || k >= files.len() {
        assert(out =~= out + out.subrange(out.len() as int, out.len() as int));
    } else {
        match spec_read(st.fs, files[k]) {
            Err(_) => lemma_files_grow(st, cli, files, k + 1, out, total),
            Ok(content) => {
                let ms = grep_lines(cli.pattern, cli.ignore_case, content);
                let left = budget_left(st.limits.max_match_count, total);
                lemma_sink_grows(cli, files[k], ms, 0, out, 0, false, st.limits.max_output_size, left);
                let sr = sink_run(cli, files[k], ms, 0, out, 0, false, st.limits.max_output_size, left);
                let out3 = if cli.count && sr.2 {
                    sr.0 + files[k] + ":"@ + decimal(sr.1) + seq!['\n']
                } else {
                    sr.0
                };
                let total2 = sat_add(total, sr.1);
                lemma_files_grow(st, cli, files, k + 1, out3, total2);
                assert(r.0 =~= out + r.0.subrange(out.len() as int, r.0.len() as int));
            },
        }
    }
}

proof fn lemma_files_ended_within(st: SessView, cli: RgCli, files: Seq<Seq<char>>, k: int, out: Seq<char>, total: u64)
    requires
        0 <= k,
        search_files(st, cli, files, k, out, total).1 < st.limits.max_match_count,
        utf8(search_files(st, cli, files, k, out, total).0).len() <= st.limits.max_output_size,
    ensures
        total + free_files(st, cli, files, k).1 < st.limits.max_match_count,
        utf8(out + free_files(st, cli, files, k).0).len() <= st.limits.max_output_size,
    decreases files.len() - k,
{
    let g = free_files(st, cli, files, k);
    let r = search_files(st, cli, files, k, out, total);
    if k >= files.len() {
        assert(out + g.0 =~= out);
    } else {
        match spec_read(st.fs, files[k]) {
            Err(_) => lemma_files_ended_within(st, cli, files, k + 1, out, total),
            Ok(content) => {
                let ms = grep_lines(cli.pattern, cli.ignore_case, content);
                let left = budget_left(st.limits.max_match_count, total);
                let sr = sink_run(cli, files[k], ms, 0, out, 0, false, st.limits.max_output_size, left);
                let out3 = if cli.count && sr.2 {
                    sr.0 + files[k] + ":"@ + decimal(sr.1) + seq!['\n']
                } else {
                    sr.0
                };
                let total2 = sat_add(total, sr.1);
                lemma_sink_grows(cli, files[k], ms, 0, out, 0, false, st.limits.max_output_size, left);
                assert(out3 =~= sr.0 + out3.subrange(sr.0.len() as int, out3.len() as int));
                lemma_utf8_grows(sr.0, out3.subrange(sr.0.len() as int, out3.len() as int));
                if total2 >= st.limits.max_match_count || utf8(out3).len() > st.limits.max_output_size {
                    assert(r == (out3, total2, true));
                } else {
                    lemma_files_grow(st, cli, files, k + 1, out3, total2);
                    assert(r.0 =~= out3 + r.0.subrange(out3.len() as int, r.0.len() as int));
                    lemma_utf8_grows(out3, r.0.subrange(out3.len() as int, r.0.len() as int));
                    assert(sr.1 < left);
                    lemma_sink_ended_within(cli, files[k], ms, 0, out, 0, false, st.limits.max_output_size, left);
                    lemma_sink_within(cli, files[k], ms, 0, out, 0, false, st.limits.max_output_size, left);
                    lemma_files_ended_within(st, cli, files, k + 1, out3, total2);
                    let f = sink_free(cli, files[k], ms, 0, 0, false);
                    let t = if cli.count && f.2 {
                        f.0 + files[k] + ":"@ + decimal(f.1) + seq!['\n']
                    } else {
                        f.0
                    };
                    let rr = free_files(st, cli, files, k + 1);
                    assert(out3 == out + t);
                    assert(out + g.0 =~= out3 + rr.0);
                }
            },
        }
    }
}

proof fn lemma_paths_within(st: SessView, cli: RgCli, paths: Seq<Seq<char>>, i: int, out: Seq<char>, total: u64)
    requires
        0 <= i,
        total + free_paths(st, cli, paths, i).1 < st.limits.max_match_count,
        utf8(out + free_paths(st, cli, paths, i).0).len() <= st.limits.max_output_size,
    ensures
        search_paths(st, cli, paths, i, out, total) == (
            out + free_paths(st, cli, paths, i).0,
            (total + free_paths(st, cli, paths, i).1) as u64,
        ),
    decreases paths.len() - i,
{
    let p = free_paths(st, cli, paths, i);
    if i >= paths.len() {
        assert(out + p.0 =~= out);
    } else {
        let files = files_under(st.fs, spec_canonicalize(paths[i], st.cwd), st.fs.len());
        let g = free_files(st, cli, files, 0);
        let rr = free_paths(st, cli, paths, i + 1);
        assert(out + p.0 =~= (out + g.0) + rr.0);
        lemma_utf8_grows(out + g.0, rr.0);
        lemma_files_within(st, cli, files, 0, out, total);
        lemma_paths_within(st, cli, paths, i + 1, out + g.0, (total + g.1) as u64);
    }
}

proof fn lemma_paths_grow(st: SessView, cli: RgCli, paths: Seq<Seq<char>>, i: int, out: Seq<char>, total: u64)
    ensures
        ({
            let r = search_paths(st, cli, paths, i, out, total);
            &&& r.1 >= total
            &&& r.0 == out + r.0.subrange(out.len() as int, r.0.len() as int)
        }),
    decreases paths.len() - i,
{
    let r = search_paths(st, cli, paths, i, out, total);
    if i < 0 || i >= paths.len() {
        assert(out =~= out + out.subrange(out.len() as int, out.len() as int));
    } else {
        let files = files_under(st.fs, spec_canonicalize(paths[i], st.cwd), st.fs.len());
        lemma_files_grow(st, cli, files, 0, out, total);
        let rf = search_files(st, cli, files, 0, out, total);
        lemma_paths_grow(st, cli, paths, i + 1, rf.0, rf.1);
        assert(r.0 =~= out + r.0.subrange(out.len() as int, r.0.len() as int));
    }
}

proof fn lemma_paths_ended_within(st: SessView, cli: RgCli, paths: Seq<Seq<char>>, i: int, out: Seq<char>, total: u64)
    requires
        0 <= i,
        search_paths(st, cli, paths, i, out, total).1 < st.limits.max_match_count,
        utf8(search_paths(st, cli, paths, i, out, total).0).len() <= st.limits.max_output_size,
    ensures
        total + free_paths(st, cli, paths, i).1 < st.limits.max_match_count,
        utf8(out + free_paths(st, cli, paths, i).0).len() <= st.limits.max_output_size,
    decreases paths.len() - i,
{
    let p = free_paths(st, cli, paths, i);
    if i >= paths.len() {
        assert(out + p.0 =~= out);
    } else {
        let files = files_under(st.fs, spec_canonicalize(paths[i], st.cwd), st.fs.len());
        let rf = search_files(st, cli, files, 0, out, total);
        let r = search_paths(st, cli, paths, i, out, total);
        lemma_paths_grow(st, cli, paths, i + 1, rf.0, rf.1);
        if !(rf.1 >= st.limits.max_match_count || utf8(rf.0).len() > st.limits.max_output_size) {
            assert(r.0 =~= rf.0 + r.0.subrange(rf.0.len() as int, r.0.len() as int));
            lemma_utf8_grows(rf.0, r.0.subrange(rf.0.len() as int, r.0.len() as int));
        }
        lemma_files_ended_within(st, cli, files, 0, out, total);
        lemma_files_within(st, cli, files, 0, out, total);
        let g = free_files(st, cli, files, 0);
        lemma_paths_ended_within(st, cli, paths, i + 1, out + g.0, (total + g.1) as u64);
        let rr = free_paths(st, cli, paths, i + 1);
        assert(out + p.0 =~= (out + g.0) + rr.0);
    }
}

/// `rg` searches every path it is given, in order: as long as the session's limits are not
/// reached, the output for paths `a` then `b` is the output for `a` followed by the output
/// for `b`, and the matches counted add up.
pub proof fn law_rg_paths_concatenate(st: SessView, cli: RgCli, a: Seq<char>, b: Seq<char>)
    requires
        search_paths(st, cli, seq![a], 0, Seq::empty(), 0).1 + search_paths(st, cli, seq![b], 0, Seq::empty(), 0).1
            < st.limits.max_match_count,
        utf8(search_paths(st, cli, seq![a], 0, Seq::empty(), 0).0 + search_paths(st, cli, seq![b], 0, Seq::empty(), 0).0).len()
            <= st.limits.max_output_size,
    ensures
        search_paths(st, cli, seq![a, b], 0, Seq::empty(), 0).0 == search_paths(st, cli, seq![a], 0, Seq::empty(), 0).0
            + search_paths(st, cli, seq![b], 0, Seq::empty(), 0).0,
        search_paths(st, cli, seq![a, b], 0, Seq::empty(), 0).1 == search_paths(st, cli, seq![a], 0, Seq::empty(), 0).1
            + search_paths(st, cli, seq![b], 0, Seq::empty(), 0).1,
{
    let e = Seq::<char>::empty();
    let ra = search_paths(st, cli, seq![a], 0, e, 0);
    let rb = search_paths(st, cli, seq![b], 0, e, 0);
    lemma_utf8_grows(ra.0, rb.0);
    lemma_paths_ended_within(st, cli, seq![a], 0, e, 0);
    lemma_paths_ended_within(st, cli, seq![b], 0, e, 0);
    lemma_paths_within(st, cli, seq![a], 0, e, 0);
    lemma_paths_within(st, cli, seq![b], 0, e, 0);
    let pa = free_paths(st, cli, seq![a], 0);
    let pb = free_paths(st, cli, seq![b], 0);
    assert(e + pa.0 =~= pa.0);
    assert(e + pb.0 =~= pb.0);
    let fa = free_files(st, cli, files_under(st.fs, spec_canonicalize(a, st.cwd), st.fs.len()), 0);
    let fb = free_files(st, cli, files_under(st.fs, spec_canonicalize(b, st.cwd), st.fs.len()), 0);
    assert(free_paths(st, cli, seq![a], 1) == (e, 0nat));
    assert(free_paths(st, cli, seq![b], 1) == (e, 0nat));
    assert(free_paths(st, cli, seq![a, b], 2) == (e, 0nat));
    assert(seq![a, b][1] == b);
    assert(free_paths(st, cli, seq![a, b], 1) == (fb.0 + e, fb.1 + 0));
    assert(pa == (fa.0 + e, fa.1 + 0));
    assert(pb == (fb.0 + e, fb.1 + 0));
    let pab = free_paths(st, cli, seq![a, b], 0);
    assert(pab.0 =~= pa.0 + pb.0);
    assert(e + pab.0 =~= pab.0);
    lemma_paths_within(st, cli, seq![a, b], 0, e, 0);
}

/// The output of a builtin that reports through a [`CmdOutput`]: standard output,
/// standard error, exit code.
pub type CmdView = (Seq<char>, Seq<char>, i32);

pub open spec fn cmd_view(r: Result<CmdOutput, ZillError>) -> Result<CmdView, ErrView> {
    match r {
        Ok(o) => Ok((o.stdout@, o.stderr@, o.exit_code)),
        Err(e) => Err(e@),
    }
}

/// `rg [-n] [-i] [-c] [-l] [--max-count N] PATTERN [paths]`: the lines of the files under
/// the paths (default `.`) that match the pattern, as `path:line`, within the limits of the session.
pub open spec fn spec_rg(st: SessView, args: Seq<Seq<char>>) -> Result<CmdView, ErrView> {
    match parse_args(args, rg_shorts(), rg_longs(), rg_text()) {
        Err(msg) => Ok((Seq::empty(), msg, 1)),
        Ok(p) => match rg_cli(p) {
            Err(msg) => Ok((Seq::empty(), msg, 1)),
            Ok(cli) => match regex_error(cli.pattern, cli.ignore_case) {
                Some(e) => Err(ErrView::Generic("invalid regex: "@ + e)),
                None => {
                    let paths = if cli.paths.len() == 0 {
                        seq!["."@]
                    } else {
                        cli.paths
                    };
                    Ok((search_paths(st, cli, paths, 0, Seq::empty(), 0).0, Seq::empty(), 0))
                },
            },
        },
    }
}

/// Output text kept together with its UTF-8 bytes, whose count the limits are checked against.
struct OutBuf {
    text: String,
    bytes: Vec<u8>,
}

impl OutBuf {
    spec fn wf(&self) -> bool {
        self.bytes@ == utf8(self.text@)
    }

    fn new() -> (r: Self)
        ensures
            r.wf(),
            r.text@ == Seq::<char>::empty(),
    {
        let r = OutBuf { text: String::new(), bytes: Vec::new() };
        assert(utf8(Seq::<char>::empty()) =~= Seq::<u8>::empty());
        r
    }

    fn push(&mut self, s: &str)
        requires
            old(self).wf(),
        ensures
            final(self).wf(),
            final(self).text@ == old(self).text@ + s@,
    {
        proof {
            lemma_utf8_concat(self.text@, s@);
        }
        self.text.append(s);
        crate::session::write_str(&mut self.bytes, s);
    }

    fn byte_len(&self) -> (r: usize)
        requires
            self.wf(),
        ensures
            r == utf8(self.text@).len(),
    {
        self.bytes.len()
    }
}

/// The options of `rg`, as parsed.
pub struct RgArgs {
    pub pattern: String,
    pub paths: Vec<String>,
    pub line_number: bool,
    pub ignore_case: bool,
    pub count: bool,
    pub files_with_matches: bool,
    pub max_count: Option<u64>,
}

impl View for RgArgs {
    type V = RgCli;

    open spec fn view(&self) -> RgCli {
        RgCli {
            pattern: self.pattern@,
            paths: strs_view(self.paths@),
            line_number: self.line_number,
            ignore_case: self.ignore_case,
            count: self.count,
            files_with_matches: self.files_with_matches,
            max_count: self.max_count,
        }
    }
}

/// The option table of `rg`.
fn rg_table() -> (t: OptTable)
    ensures
        t.shorts@ == rg_shorts(),
        longs_view(t.longs@) == rg_longs(),
        t.text() == rg_text(),
{
    let mut shorts: Vec<(char, bool)> = Vec::new();
    shorts.push(('n', false));
    shorts.push(('i', false));
    shorts.push(('c', false));
    shorts.push(('l', false));
    let mut longs: Vec<(String, char, bool)> = Vec::new();
    longs.push((owned("max-count"), 'M', true));
    assert(shorts@ =~= rg_shorts());
    assert(longs_view(longs@) =~= rg_longs());
    let mut values: Vec<(String, String)> = Vec::new();
    values.push((owned("--max-count"), owned("MAX_COUNT")));
    let t = OptTable { shorts, longs, usage: owned(RG_USAGE), help: owned(RG_HELP), values };
    assert(pairs_view(t.values@) =~= seq![("--max-count"@, "MAX_COUNT"@)]);
    t
}

/// The options of `rg` from the parsed arguments, or the message that rejects them.
fn rg_args_from(p: ParsedArgs) -> (r: Result<RgArgs, String>)
    ensures
        match rg_cli(p.view_pair()) {
            Ok(c) => r matches Ok(a) && a@ == c,
            Err(m) => r matches Err(e) && e@ == m,
        },
{
    let ghost pv = p.view_pair();
    if p.rest.len() == 0 {
        return Err(owned(MISSING_PATTERN));
    }
    let mc = last_value_of(&p.opts, 'M');
    let parsed_mc = match &mc {
        Some(v) => {
            let n = parse_u64(v.as_str());
            if n.is_none() {
                let tbl = rg_table();
                return Err(invalid_number_text(&tbl, "--max-count", v.as_str()));
            }
            n
        },
        None => None,
    };
    let line_number = opt_given(&p.opts, 'n');
    let ignore_case = opt_given(&p.opts, 'i');
    let count = opt_given(&p.opts, 'c');
    let files_with_matches = opt_given(&p.opts, 'l');
    let mut rest = p.rest;
    let ghost before = rest@;
    let pattern = rest.remove(0);
    proof {
        assert(strs_view(rest@) =~= strs_view(before).drop_first());
    }
    Ok(RgArgs { pattern, paths: rest, line_number, ignore_case, count, files_with_matches, max_count: parsed_mc })
}

/// Appends the files under `path` to `files`.
fn collect_files(vfs: &VirtualFs, path: &str, fuel: usize, files: &mut Vec<String>)
    requires
        vfs.wf(),
    ensures
        strs_view(final(files)@) == strs_view(old(files)@) + files_under(vfs@, path@, fuel as nat),
    decreases fuel,
{
    let ghost start = strs_view(files@);
    if fuel == 0 {
        assert(start + Seq::<Seq<char>>::empty() =~= start);
        return;
    }
    match vfs.stat(path) {
        Err(_) => {
            assert(start + Seq::<Seq<char>>::empty() =~= start);
        },
        Ok(Node::File(_)) => {
            files.push(owned(path));
            assert(strs_view(files@) =~= start + seq![path@]);
        },
        Ok(Node::Directory(m)) => {
            let ghost cs = strs_view(m.children@);
            proof {
                lemma_sorted_of(cs);
            }
            let ghost sub = (fuel - 1) as nat;
            let mut k: usize = 0;
            assert(strs_view(files@) =~= start);
            while k < m.children.len()
                invariant
                    vfs.wf(),
                    k <= m.children@.len(),
                    fuel > 0,
                    sub == fuel - 1,
                    cs == strs_view(m.children@),
                    strs_view(files@) + files_in(vfs@, path@, cs, k as int, sub) == start + files_in(
                        vfs@,
                        path@,
                        cs,
                        0,
                        sub,
                    ),
                decreases m.children@.len() - k,
            {
                let child = join_path_exec(path, m.children[k].as_str());
                let ghost mid = strs_view(files@);
                collect_files(vfs, child.as_str(), fuel - 1, files);
                proof {
                    assert(cs[k as int] == m.children@[k as int]@);
                    let u = files_under(vfs@, join_path(path@, cs[k as int]), sub);
                    let rest = files_in(vfs@, path@, cs, k + 1, sub);
                    assert(files_in(vfs@, path@, cs, k as int, sub) == u + rest);
                    assert(mid + (u + rest) =~= (mid + u) + rest);
                }
                k += 1;
            }
            proof {
                let e = files_in(vfs@, path@, cs, k as int, sub);
                assert(e =~= Seq::<Seq<char>>::empty());
                assert(strs_view(files@) + e =~= strs_view(files@));
            }
        },
    }
}

/// Appends what `rg` writes for one matching line.
fn push_match(out: &mut OutBuf, line_number: bool, disp: &str, n: u64, line: &Vec<u8>)
    requires
        old(out).wf(),
    ensures
        final(out).wf(),
        final(out).text@ == old(out).text@ + match_text(line_number, disp@, (n, line@)),
{
    proof {
        reveal_strlit(":");
        reveal_strlit("\n");
    }
    out.push(disp);
    out.push(":");
    if line_number {
        let d = decimal_string(n);
        out.push(d.as_str());
        out.push(":");
    }
    let body = from_utf8_lossy(line.as_slice());
    out.push(body.as_str());
    if !(line.len() > 0 && line[line.len() - 1] == 10u8) {
        out.push("\n");
    }
    proof {
        let head = if line_number {
            disp@ + ":"@ + decimal(n as nat) + ":"@
        } else {
            disp@ + ":"@
        };
        assert(seq!['\n'] =~= "\n"@);
        if line@.len() > 0 && line@.last() == 10u8 {
            assert(out.text@ =~= old(out).text@ + (head + text_of(line@)));
        } else {
            assert(out.text@ =~= old(out).text@ + (head + text_of(line@) + seq!['\n']));
        }
    }
}

/// Runs the matches of one file through the sink of `rg`: the number of matches counted
/// and whether any was found.
fn sink_file(cli: &RgArgs, disp: &str, ms: &Vec<(u64, Vec<u8>)>, out: &mut OutBuf, max_output: usize, left: u64) -> (r: (
    usize,
    bool,
))
    requires
        old(out).wf(),
    ensures
        final(out).wf(),
        (final(out).text@, r.0 as nat, r.1) == sink_run(
            cli@,
            disp@,
            matches_view(ms@),
            0,
            old(out).text@,
            0,
            false,
            max_output,
            left as nat,
        ),
{
    let ghost mv = matches_view(ms@);
    let ghost target = sink_run(cli@, disp@, mv, 0, old(out).text@, 0, false, max_output, left as nat);
    let mut j: usize = 0;
    let mut mc: usize = 0;
    let mut found = false;
    let mut stopped = false;
    while j < ms.len() && !stopped
        invariant
            out.wf(),
            j <= ms@.len(),
            mv == matches_view(ms@),
            mv.len() == ms@.len(),
            !stopped ==> mc == j,
            stopped ==> target == (out.text@, mc as nat, found),
            !stopped ==> target == sink_run(cli@, disp@, mv, j as int, out.text@, mc as nat, found, max_output, left as nat),
        decreases ms@.len() - j + (if stopped { 0int } else { 1int }),
    {
        assert(mv[j as int] == (ms@[j as int].0, ms@[j as int].1@));
        if mc as u64 >= left {
            stopped = true;
        } else if cli.files_with_matches {
            proof {
                reveal_strlit("\n");
                assert(seq!['\n'] =~= "\n"@);
            }
            out.push(disp);
            out.push("\n");
            mc += 1;
            found = true;
            stopped = true;
        } else {
            if !cli.count {
                push_match(out, cli.line_number, disp, ms[j].0, &ms[j].1);
            }
            mc += 1;
            found = true;
            j += 1;
            match cli.max_count {
                Some(m) => {
                    if mc as u64 >= m {
                        stopped = true;
                    }
                },
                None => {},
            }
            if !stopped && out.byte_len() > max_output {
                stopped = true;
            }
        }
    }
    (mc, found)
}

impl ZillSession {
    /// Searches the files in order, writing to `out` and adding to `total`;
    /// true when a limit of the session stopped the search.
    fn search_file_list(&self, cli: &RgArgs, re: &Regex, files: &Vec<String>, out: &mut OutBuf, total: &mut u64) -> (r: bool)
        requires
            self.wf(),
            old(out).wf(),
            re.pattern() == cli@.pattern && re.ignore_case() == cli@.ignore_case,
        ensures
            final(out).wf(),
            (final(out).text@, *final(total), r) == search_files(
                self@,
                cli@,
                strs_view(files@),
                0,
                old(out).text@,
                *old(total),
            ),
    {
        let ghost fv = strs_view(files@);
        let ghost target = search_files(self@, cli@, fv, 0, out.text@, *total);
        let mut k: usize = 0;
        let mut stopped = false;
        while k < files.len() && !stopped
            invariant
                self.wf(),
                out.wf(),
                re.pattern() == cli@.pattern && re.ignore_case() == cli@.ignore_case,
                k <= files@.len(),
                fv == strs_view(files@),
                !stopped ==> target == search_files(self@, cli@, fv, k as int, out.text@, *total),
                stopped ==> target == (out.text@, *total, true),
            decreases files@.len() - k,
        {
            assert(fv[k as int] == files@[k as int]@);
            match self.vfs.read(files[k].as_str()) {
                Err(_) => {},
                Ok(content) => {
                    let ms = search_lines(re, content);
                    let left = if *total < self.limits.max_match_count {
                        self.limits.max_match_count - *total
                    } else {
                        0
                    };
                    let (mc, found) = sink_file(cli, files[k].as_str(), &ms, out, self.limits.max_output_size, left);
                    if cli.count && found {
                        proof {
                            reveal_strlit(":");
                            reveal_strlit("\n");
                            assert(seq!['\n'] =~= "\n"@);
                        }
                        let ghost o = out.text@;
                        let d = decimal_string(mc as u64);
                        out.push(files[k].as_str());
                        out.push(":");
                        out.push(d.as_str());
                        out.push("\n");
                        assert(out.text@ =~= o + fv[k as int] + ":"@ + decimal(mc as nat) + seq!['\n']);
                    }
                    let t = *total;
                    let m = mc as u64;
                    let t2 = if t > u64::MAX - m {
                        u64::MAX
                    } else {
                        t + m
                    };
                    *total = t2;
                    if t2 >= self.limits.max_match_count || out.byte_len() > self.limits.max_output_size {
                        stopped = true;
                    }
                },
            }
            k += 1;
        }
        stopped
    }

    /// `rg [-n] [-i] [-c] [-l] [--max-count N] PATTERN [paths]`: prints the lines of the
    /// files under the paths (default `.`) that match the pattern.
    pub fn builtin_rg(&self, args: &[String]) -> (r: Result<CmdOutput, ZillError>)
        requires
            self.wf(),
        ensures
            cmd_view(r) == spec_rg(self@, strs_view(args@)),
    {
        let argv = clone_strings_slice(args);
        let tbl = rg_table();
        let p = match parse_options(&argv, &tbl) {
            Ok(p) => p,
            Err(m) => {
                return Ok(CmdOutput::error(m, 1));
            },
        };
        let cli = match rg_args_from(p) {
            Ok(c) => c,
            Err(m) => {
                return Ok(CmdOutput::error(m, 1));
            },
        };
        let re = match compile_regex(cli.pattern.as_str(), cli.ignore_case) {
            Err(e) => {
                return Err(ZillError::Generic(concat2("invalid regex: ", e.as_str())));
            },
            Ok(m) => m,
        };
        let paths: Vec<String> = if cli.paths.len() == 0 {
            let mut v: Vec<String> = Vec::new();
            v.push(owned("."));
            assert(strs_view(v@) =~= seq!["."@]);
            v
        } else {
            clone_strings(&cli.paths)
        };
        let ghost st = self@;
        let ghost pv = strs_view(paths@);
        let ghost target = search_paths(st, cli@, pv, 0, Seq::empty(), 0);
        let fuel = self.vfs.node_count();
        let mut out = OutBuf::new();
        let mut total: u64 = 0;
        let mut i: usize = 0;
        let mut stopped = false;
        while i < paths.len() && !stopped
            invariant
                self.wf(),
                out.wf(),
                st == self@,
                re.pattern() == cli@.pattern && re.ignore_case() == cli@.ignore_case,
                fuel == st.fs.len(),
                i <= paths@.len(),
                pv == strs_view(paths@),
                !stopped ==> target == search_paths(st, cli@, pv, i as int, out.text@, total),
                stopped ==> target == (out.text@, total),
            decreases paths@.len() - i,
        {
            assert(pv[i as int] == paths@[i as int]@);
            let canonical = self.vfs.canonicalize(paths[i].as_str(), self.cwd.as_str());
            let mut files: Vec<String> = Vec::new();
            collect_files(&self.vfs, canonical.as_str(), fuel, &mut files);
            assert(strs_view(files@) =~= files_under(st.fs, canonical@, st.fs.len()));
            let _ = self.search_file_list(&cli, &re, &files, &mut out, &mut total);
            if total >= self.limits.max_match_count || out.byte_len() > self.limits.max_output_size {
                stopped = true;
            }
            i += 1;
        }
        Ok(CmdOutput::success(out.text))
    }
}

} // verus!
