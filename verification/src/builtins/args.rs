//! Command-line options of the builtins: short flags (grouped or not, with values
//! attached or separate), long options, and `--` ending the options.
use vstd::prelude::*;
use crate::text::{chars_of, concat3, owned, str_eq, string_from_range, strs_view};

verus! {

/// The options that a builtin accepts: short ones by letter, long ones by name
/// (each mapped to the letter that stands for it); the flag says whether it takes a value.
pub struct OptTable {
    pub shorts: Vec<(char, bool)>,
    pub longs: Vec<(String, char, bool)>,
    /// The usage line, the help text, and the value name of each option that takes one.
    pub usage: String,
    pub help: String,
    pub values: Vec<(String, String)>,
}

/// What a builtin shows about its options, in the words of `clap`: its usage line, its
/// help text (for `-h` and `--help`), and the value name of each option that takes one.
pub struct CliText {
    pub usage: Seq<char>,
    pub help: Seq<char>,
    pub values: Seq<(Seq<char>, Seq<char>)>,
}

pub open spec fn pairs_view(v: Seq<(String, String)>) -> Seq<(Seq<char>, Seq<char>)> {
    v.map_values(|p: (String, String)| (p.0@, p.1@))
}

impl OptTable {
    pub open spec fn text(&self) -> CliText {
        CliText { usage: self.usage@, help: self.help@, values: pairs_view(self.values@) }
    }
}

/// The value name of the option written `t`.
pub open spec fn value_name(vals: Seq<(Seq<char>, Seq<char>)>, t: Seq<char>) -> Seq<char>
    decreases vals.len(),
{
    if vals.len() == 0 {
        Seq::empty()
    } else if vals.last().0 == t {
        vals.last().1
    } else {
        value_name(vals.drop_last(), t)
    }
}

/// How an option with its value name is shown: `--max-count <MAX_COUNT>`.
pub open spec fn shown_with_value(tx: CliText, t: Seq<char>) -> Seq<char> {
    t + " <"@ + value_name(tx.values, t) + ">"@
}

/// The end of every error message.
pub open spec fn more_info() -> Seq<char> {
    "\n\nFor more information, try '--help'.\n"@
}

pub open spec fn short_def(defs: Seq<(char, bool)>, c: char) -> Option<bool>
    decreases defs.len(),
{
    if defs.len() == 0 {
        None
    } else if defs.last().0 == c {
        Some(defs.last().1)
    } else {
        short_def(defs.drop_last(), c)
    }
}

/// The long options of a table, each name by its characters.
pub open spec fn longs_view(defs: Seq<(String, char, bool)>) -> Seq<(Seq<char>, char, bool)> {
    defs.map_values(|d: (String, char, bool)| (d.0@, d.1, d.2))
}

pub open spec fn long_def(defs: Seq<(Seq<char>, char, bool)>, n: Seq<char>) -> Option<(char, bool)>
    decreases defs.len(),
{
    if defs.len() == 0 {
        None
    } else if defs.last().0 == n {
        Some((defs.last().1, defs.last().2))
    } else {
        long_def(defs.drop_last(), n)
    }
}

/// Options given (by letter, with their values) and the other arguments, in order.
pub type Parsed = (Seq<(char, Option<Seq<char>>)>, Seq<Seq<char>>);

/// The tip that an unexpected argument that looks like an option gets.
pub open spec fn dash_tip(t: Seq<char>) -> Seq<char> {
    if t.len() > 0 && t[0] == '-' {
        "  tip: to pass '"@ + t + "' as a value, use '-- "@ + t + "'\n\n"@
    } else {
        Seq::empty()
    }
}

pub open spec fn unexpected(tx: CliText, t: Seq<char>) -> Seq<char> {
    "error: unexpected argument '"@ + t + "' found\n\n"@ + dash_tip(t) + "Usage: "@ + tx.usage + more_info()
}

pub open spec fn value_required(tx: CliText, t: Seq<char>) -> Seq<char> {
    "error: a value is required for '"@ + shown_with_value(tx, t) + "' but none was supplied"@ + more_info()
}

/// A value that is not a number: the message names the option and what is wrong with it.
pub open spec fn invalid_number(tx: CliText, t: Seq<char>, v: Seq<char>) -> Seq<char> {
    "error: invalid value '"@ + v + "' for '"@ + shown_with_value(tx, t) + "': "@ + crate::text::int_error(v)
        + more_info()
}

/// The position of the first `=` in `t` from `j`, or `t.len()`.
pub open spec fn eq_pos(t: Seq<char>, j: int) -> int
    decreases t.len() - j,
{
    if j < 0 || j >= t.len() {
        t.len() as int
    } else if t[j] == '=' {
        j
    } else {
        eq_pos(t, j + 1)
    }
}

/// The rest of a group of short flags after a flag that takes a value.
pub open spec fn attached_value(t: Seq<char>, j: int) -> Seq<char> {
    if t[j] == '=' {
        t.subrange(j + 1, t.len() as int)
    } else {
        t.subrange(j, t.len() as int)
    }
}

pub open spec fn is_option_word(t: Seq<char>) -> bool {
    t.len() >= 2 && t[0] == '-'
}

/// Parses the arguments from position `i`, after `--` when `dd`.
pub open spec fn parse_from(
    toks: Seq<Seq<char>>,
    i: int,
    tbl_s: Seq<(char, bool)>,
    tbl_l: Seq<(Seq<char>, char, bool)>,
    tx: CliText,
    dd: bool,
    acc: Parsed,
) -> Result<Parsed, Seq<char>>
    decreases toks.len() - i, 1int,
{
    if i < 0 || i >= toks.len() {
        Ok(acc)
    } else {
        let t = toks[i];
        if dd || !is_option_word(t) {
            parse_from(toks, i + 1, tbl_s, tbl_l, tx, dd, (acc.0, acc.1.push(t)))
        } else if t == "--"@ {
            parse_from(toks, i + 1, tbl_s, tbl_l, tx, true, acc)
        } else if t[1] == '-' {
            let e = eq_pos(t, 2);
            let n = t.subrange(2, e);
            match long_def(tbl_l, n) {
                None => if n == "help"@ {
                    Err(tx.help)
                } else {
                    Err(unexpected(tx, t))
                },
                Some((key, takes)) => if !takes {
                    if e < t.len() {
                        Err(unexpected(tx, t))
                    } else {
                        parse_from(toks, i + 1, tbl_s, tbl_l, tx, dd, (acc.0.push((key, None)), acc.1))
                    }
                } else if e < t.len() {
                    parse_from(
                        toks,
                        i + 1,
                        tbl_s,
                        tbl_l,
                        tx,
                        dd,
                        (acc.0.push((key, Some(t.subrange(e + 1, t.len() as int)))), acc.1),
                    )
                } else if i + 1 < toks.len() {
                    parse_from(toks, i + 2, tbl_s, tbl_l, tx, dd, (acc.0.push((key, Some(toks[i + 1]))), acc.1))
                } else {
                    Err(value_required(tx, "--"@ + n))
                },
            }
        } else {
            parse_group(toks, i, 1, tbl_s, tbl_l, tx, dd, acc)
        }
    }
}

/// Parses the group of short flags `toks[i]` from its character `j`.
pub open spec fn parse_group(
    toks: Seq<Seq<char>>,
    i: int,
    j: int,
    tbl_s: Seq<(char, bool)>,
    tbl_l: Seq<(Seq<char>, char, bool)>,
    tx: CliText,
    dd: bool,
    acc: Parsed,
) -> Result<Parsed, Seq<char>>
    decreases toks.len() - i, 0int, toks[i].len() - j,
{
    if i < 0 || i >= toks.len() {
        Ok(acc)
    } else {
        let t = toks[i];
        if j < 1 || j >= t.len() {
            parse_from(toks, i + 1, tbl_s, tbl_l, tx, dd, acc)
        } else {
            let c = t[j];
            match short_def(tbl_s, c) {
                None => if c == 'h' {
                    Err(tx.help)
                } else {
                    Err(unexpected(tx, seq!['-', c]))
                },
                Some(false) => parse_group(toks, i, j + 1, tbl_s, tbl_l, tx, dd, (acc.0.push((c, None)), acc.1)),
                Some(true) => if j + 1 < t.len() {
                    parse_from(toks, i + 1, tbl_s, tbl_l, tx, dd, (acc.0.push((c, Some(attached_value(t, j + 1)))), acc.1))
                } else if i + 1 < toks.len() {
                    parse_from(toks, i + 2, tbl_s, tbl_l, tx, dd, (acc.0.push((c, Some(toks[i + 1]))), acc.1))
                } else {
                    Err(value_required(tx, seq!['-', c]))
                },
            }
        }
    }
}

pub open spec fn parse_args(
    toks: Seq<Seq<char>>,
    tbl_s: Seq<(char, bool)>,
    tbl_l: Seq<(Seq<char>, char, bool)>,
    tx: CliText,
) -> Result<Parsed, Seq<char>> {
    parse_from(toks, 0, tbl_s, tbl_l, tx, false, (Seq::empty(), Seq::empty()))
}

/// The options given and the other arguments.
pub struct ParsedArgs {
    pub opts: Vec<(char, Option<String>)>,
    pub rest: Vec<String>,
}

pub open spec fn opts_view(v: Seq<(char, Option<String>)>) -> Seq<(char, Option<Seq<char>>)> {
    v.map_values(
        |o: (char, Option<String>)|
            (
                o.0,
                match o.1 {
                    Some(s) => Some(s@),
                    None => None,
                },
            ),
    )
}

impl ParsedArgs {
    pub open spec fn view_pair(&self) -> Parsed {
        (opts_view(self.opts@), strs_view(self.rest@))
    }
}

fn find_short(defs: &Vec<(char, bool)>, c: char) -> (r: Option<bool>)
    ensures
        r == short_def(defs@, c),
{
    let mut i = defs.len();
    assert(defs@.take(i as int) =~= defs@);
    while i > 0
        invariant
            i <= defs@.len(),
            short_def(defs@, c) == short_def(defs@.take(i as int), c),
        decreases i,
    {
        assert(defs@.take(i as int).drop_last() =~= defs@.take(i - 1));
        if defs[i - 1].0 == c {
            return Some(defs[i - 1].1);
        }
        i -= 1;
    }
    None
}

fn find_long(defs: &Vec<(String, char, bool)>, n: &str) -> (r: Option<(char, bool)>)
    ensures
        r == long_def(longs_view(defs@), n@),
{
    let mut i = defs.len();
    assert(longs_view(defs@).take(i as int) =~= longs_view(defs@));
    while i > 0
        invariant
            i <= defs@.len(),
            long_def(longs_view(defs@), n@) == long_def(longs_view(defs@).take(i as int), n@),
        decreases i,
    {
        assert(longs_view(defs@).take(i as int).drop_last() =~= longs_view(defs@).take(i - 1));
        if str_eq(defs[i - 1].0.as_str(), n) {
            return Some((defs[i - 1].1, defs[i - 1].2));
        }
        i -= 1;
    }
    None
}

proof fn lemma_opts_push(v: Seq<(char, Option<String>)>, o: (char, Option<String>))
    ensures
        opts_view(v.push(o)) == opts_view(v).push(
            (
                o.0,
                match o.1 {
                    Some(s) => Some(s@),
                    None => None,
                },
            ),
        ),
{
    assert(opts_view(v.push(o)) =~= opts_view(v).push(
        (
            o.0,
            match o.1 {
                Some(s) => Some(s@),
                None => None,
            },
        ),
    ));
}

fn find_value_name(vals: &Vec<(String, String)>, t: &str) -> (r: String)
    ensures
        r@ == value_name(pairs_view(vals@), t@),
{
    let mut i = vals.len();
    assert(pairs_view(vals@).take(i as int) =~= pairs_view(vals@));
    while i > 0
        invariant
            i <= vals@.len(),
            value_name(pairs_view(vals@), t@) == value_name(pairs_view(vals@).take(i as int), t@),
        decreases i,
    {
        assert(pairs_view(vals@).take(i as int).drop_last() =~= pairs_view(vals@).take(i - 1));
        if str_eq(vals[i - 1].0.as_str(), t) {
            return owned(vals[i - 1].1.as_str());
        }
        i -= 1;
    }
    String::new()
}

/// The message for an unexpected argument `t`.
pub fn unexpected_text(tbl: &OptTable, t: &str) -> (r: String)
    ensures
        r@ == unexpected(tbl.text(), t@),
{
    let mut r = concat3("error: unexpected argument '", t, "' found\n\n");
    let cs = chars_of(t);
    if cs.len() > 0 && cs[0] == '-' {
        r.append("  tip: to pass '");
        r.append(t);
        r.append("' as a value, use '-- ");
        r.append(t);
        r.append("'\n\n");
    }
    r.append("Usage: ");
    r.append(tbl.usage.as_str());
    r.append("\n\nFor more information, try '--help'.\n");
    r
}

/// The message for an option `t` that was given no value.
pub fn value_required_text(tbl: &OptTable, t: &str) -> (r: String)
    ensures
        r@ == value_required(tbl.text(), t@),
{
    let vn = find_value_name(&tbl.values, t);
    let mut r = owned("error: a value is required for '");
    r.append(t);
    r.append(" <");
    r.append(vn.as_str());
    r.append(">");
    r.append("' but none was supplied");
    r.append("\n\nFor more information, try '--help'.\n");
    assert(r@ =~= value_required(tbl.text(), t@));
    r
}

/// The message for a value `v` of option `t` that is not a number.
pub fn invalid_number_text(tbl: &OptTable, t: &str, v: &str) -> (r: String)
    ensures
        r@ == invalid_number(tbl.text(), t@, v@),
{
    let vn = find_value_name(&tbl.values, t);
    let why = crate::text::int_error_text(v);
    let mut r = owned("error: invalid value '");
    r.append(v);
    r.append("' for '");
    r.append(t);
    r.append(" <");
    r.append(vn.as_str());
    r.append(">");
    r.append("': ");
    r.append(why.as_str());
    r.append("\n\nFor more information, try '--help'.\n");
    assert(r@ =~= invalid_number(tbl.text(), t@, v@));
    r
}

/// Parses `args` against the option table.
pub fn parse_options(args: &Vec<String>, tbl: &OptTable) -> (r: Result<ParsedArgs, String>)
    ensures
        match parse_args(strs_view(args@), tbl.shorts@, longs_view(tbl.longs@), tbl.text()) {
            Ok(p) => r matches Ok(pa) && pa.view_pair() == p,
            Err(e) => r matches Err(m) && m@ == e,
        },
{
    let ghost toks = strs_view(args@);
    let ghost target = parse_args(toks, tbl.shorts@, longs_view(tbl.longs@), tbl.text());
    let mut opts: Vec<(char, Option<String>)> = Vec::new();
    let mut rest: Vec<String> = Vec::new();
    let mut dd = false;
    let mut i: usize = 0;
    proof {
        reveal_strlit("--");
        assert(opts_view(opts@) =~= Seq::<(char, Option<Seq<char>>)>::empty());
        assert(strs_view(rest@) =~= Seq::<Seq<char>>::empty());
    }
    while i < args.len()
        invariant
            i <= args@.len(),
            toks == strs_view(args@),
            target == parse_args(toks, tbl.shorts@, longs_view(tbl.longs@), tbl.text()),
            target == parse_from(toks, i as int, tbl.shorts@, longs_view(tbl.longs@), tbl.text(), dd, (opts_view(opts@), strs_view(rest@))),
        decreases args@.len() - i, 1int,
    {
        let t = chars_of(args[i].as_str());
        assert(t@ == toks[i as int]);
        let ghost acc = (opts_view(opts@), strs_view(rest@));
        if dd || !(t.len() >= 2 && t[0] == '-') {
            let x = owned(args[i].as_str());
            proof {
                assert(strs_view(rest@.push(x)) =~= strs_view(rest@).push(toks[i as int]));
            }
            rest.push(x);
            i += 1;
            assert(target == parse_from(toks, i as int, tbl.shorts@, longs_view(tbl.longs@), tbl.text(), dd, (opts_view(opts@), strs_view(rest@))));
        } else if str_eq(args[i].as_str(), "--") {
            dd = true;
            i += 1;
            assert(target == parse_from(toks, i as int, tbl.shorts@, longs_view(tbl.longs@), tbl.text(), dd, (opts_view(opts@), strs_view(rest@))));
        } else if t[1] == '-' {
            let mut e: usize = 2;
            while e < t.len() && t[e] != '='
                invariant
                    2 <= e <= t@.len(),
                    eq_pos(t@, 2) == eq_pos(t@, e as int),
                decreases t.len() - e,
            {
                e += 1;
            }
            let n = string_from_range(t.as_slice(), 2, e);
            match find_long(&tbl.longs, n.as_str()) {
                None => {
                    if str_eq(n.as_str(), "help") {
                        return Err(owned(tbl.help.as_str()));
                    }
                    return Err(unexpected_text(tbl, args[i].as_str()));
                },
                Some((key, takes)) => {
                    if !takes {
                        if e < t.len() {
                            return Err(unexpected_text(tbl, args[i].as_str()));
                        }
                        proof {
                            lemma_opts_push(opts@, (key, None));
                        }
                        opts.push((key, None));
                        i += 1;
                        assert(target == parse_from(toks, i as int, tbl.shorts@, longs_view(tbl.longs@), tbl.text(), dd, (opts_view(opts@), strs_view(rest@))));
                    } else if e < t.len() {
                        let v = string_from_range(t.as_slice(), e + 1, t.len());
                        proof {
                            lemma_opts_push(opts@, (key, Some(v)));
                        }
                        opts.push((key, Some(v)));
                        i += 1;
                        assert(target == parse_from(toks, i as int, tbl.shorts@, longs_view(tbl.longs@), tbl.text(), dd, (opts_view(opts@), strs_view(rest@))));
                    } else if i + 1 < args.len() {
                        let v = owned(args[i + 1].as_str());
                        proof {
                            lemma_opts_push(opts@, (key, Some(v)));
                        }
                        opts.push((key, Some(v)));
                        i += 2;
                        assert(target == parse_from(toks, i as int, tbl.shorts@, longs_view(tbl.longs@), tbl.text(), dd, (opts_view(opts@), strs_view(rest@))));
                    } else {
                        let dn = crate::text::concat2("--", n.as_str());
                        return Err(value_required_text(tbl, dn.as_str()));
                    }
                },
            }
        } else {
            // a group of short flags
            let mut j: usize = 1;
            let mut adv: usize = 1;
            let ghost i0 = i as int;
            loop
                invariant_except_break
                    1 <= j <= t@.len(),
                    target == parse_group(toks, i0, j as int, tbl.shorts@, longs_view(tbl.longs@), tbl.text(), dd, (opts_view(opts@), strs_view(rest@))),
                invariant
                    i < args@.len(),
                    i0 == i,
                    t@ == toks[i0],
                    toks == strs_view(args@),
                    toks.len() == args@.len(),
                    target == parse_args(toks, tbl.shorts@, longs_view(tbl.longs@), tbl.text()),
                ensures
                    1 <= adv <= 2,
                    i0 + adv <= toks.len(),
                    target == parse_from(toks, i0 + adv, tbl.shorts@, longs_view(tbl.longs@), tbl.text(), dd, (opts_view(opts@), strs_view(rest@))),
                decreases t@.len() - j,
            {
                if j >= t.len() {
                    adv = 1;
                    break;
                }
                let c = t[j];
                match find_short(&tbl.shorts, c) {
                    None => {
                        if c == 'h' {
                            return Err(owned(tbl.help.as_str()));
                        }
                        let mut u: Vec<char> = Vec::new();
                        u.push('-');
                        u.push(c);
                        let us = crate::text::string_from_chars(u.as_slice());
                        assert(u@ =~= seq!['-', c]);
                        return Err(unexpected_text(tbl, us.as_str()));
                    },
                    Some(false) => {
                        proof {
                            lemma_opts_push(opts@, (c, None));
                        }
                        opts.push((c, None));
                        j += 1;
                    },
                    Some(true) => {
                        if j + 1 < t.len() {
                            let start = if t[j + 1] == '=' {
                                j + 2
                            } else {
                                j + 1
                            };
                            let v = string_from_range(t.as_slice(), start, t.len());
                            proof {
                                lemma_opts_push(opts@, (c, Some(v)));
                            }
                            opts.push((c, Some(v)));
                            adv = 1;
                            break;
                        } else if args.len() - i > 1 {
                            let v = owned(args[i + 1].as_str());
                            proof {
                                lemma_opts_push(opts@, (c, Some(v)));
                            }
                            opts.push((c, Some(v)));
                            adv = 2;
                            break;
                        } else {
                            let mut u: Vec<char> = Vec::new();
                            u.push('-');
                            u.push(c);
                            let us = crate::text::string_from_chars(u.as_slice());
                            assert(u@ =~= seq!['-', c]);
                            return Err(value_required_text(tbl, us.as_str()));
                        }
                    },
                }
            }
            i = i + adv;
        }
    }
    Ok(ParsedArgs { opts, rest })
}

/// The value of the last occurrence of option `c`.
pub open spec fn last_value(opts: Seq<(char, Option<Seq<char>>)>, c: char) -> Option<Seq<char>>
    decreases opts.len(),
{
    if opts.len() == 0 {
        None
    } else if opts.last().0 == c {
        opts.last().1
    } else {
        last_value(opts.drop_last(), c)
    }
}

pub open spec fn opt_str(o: Option<String>) -> Option<Seq<char>> {
    match o {
        Some(s) => Some(s@),
        None => None,
    }
}

/// The value of the last occurrence of option `c`.
pub fn last_value_of(opts: &Vec<(char, Option<String>)>, c: char) -> (r: Option<String>)
    ensures
        opt_str(r) == last_value(opts_view(opts@), c),
{
    let ghost ov = opts_view(opts@);
    let mut i = opts.len();
    assert(ov.take(i as int) =~= ov);
    while i > 0
        invariant
            i <= opts@.len(),
            ov == opts_view(opts@),
            last_value(ov, c) == last_value(ov.take(i as int), c),
        decreases i,
    {
        assert(ov.take(i as int).drop_last() =~= ov.take(i - 1));
        if opts[i - 1].0 == c {
            return match &opts[i - 1].1 {
                Some(v) => Some(owned(v.as_str())),
                None => None,
            };
        }
        i -= 1;
    }
    None
}

/// The values of every occurrence of option `c`, in order.
pub open spec fn all_values(opts: Seq<(char, Option<Seq<char>>)>, c: char) -> Seq<Seq<char>>
    decreases opts.len(),
{
    if opts.len() == 0 {
        Seq::empty()
    } else {
        let r = all_values(opts.drop_last(), c);
        if opts.last().0 == c && opts.last().1 is Some {
            r.push(opts.last().1->Some_0)
        } else {
            r
        }
    }
}

/// The values of every occurrence of option `c`, in order.
pub fn all_values_of(opts: &Vec<(char, Option<String>)>, c: char) -> (r: Vec<String>)
    ensures
        strs_view(r@) == all_values(opts_view(opts@), c),
{
    let ghost ov = opts_view(opts@);
    let mut r: Vec<String> = Vec::new();
    let mut i: usize = 0;
    assert(ov.take(0) =~= Seq::<(char, Option<Seq<char>>)>::empty());
    assert(strs_view(r@) =~= Seq::<Seq<char>>::empty());
    while i < opts.len()
        invariant
            i <= opts@.len(),
            ov == opts_view(opts@),
            strs_view(r@) == all_values(ov.take(i as int), c),
        decreases opts.len() - i,
    {
        assert(ov.take(i + 1).drop_last() =~= ov.take(i as int));
        assert(ov[i as int].0 == opts@[i as int].0);
        if opts[i].0 == c {
            match &opts[i].1 {
                Some(v) => {
                    let x = owned(v.as_str());
                    assert(strs_view(r@.push(x)) =~= strs_view(r@).push(x@));
                    r.push(x);
                },
                None => {},
            }
        }
        i += 1;
    }
    assert(ov.take(opts@.len() as int) =~= ov);
    r
}

} // verus!
