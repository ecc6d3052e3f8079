//! Properties of running command lines that hold for every command.
use vstd::prelude::*;
use crate::builtins::args::parse_args;
use crate::builtins::basic::{has_opt, mkdir_from, mkdir_table, mkdir_text, rm_from, spec_cd, touch_from};
use crate::fs::{spec_canonicalize, spec_create_file, spec_mkdir_p, spec_remove, spec_stat, spec_touch};
use crate::fs_laws::{law_mkdir_p_within, law_remove_within, law_write_within, within};
use crate::parser::{AstView, LogicalOperator};
use crate::session::SessView;
use crate::tree::is_tree;
use crate::tree_laws::lemma_canonical_good;
use crate::shell::{
    Exec, exec_node, for_from, into_file, pipe_from, redirect_from, seq_from, spec_builtin, spec_command,
};

verus! {

/// The file system of a session is within the limits of the session.
pub open spec fn session_within(st: SessView) -> bool {
    within(st.fs, st.node_limit, st.size_limit)
}

/// What no command changes: the limits, the time of the changes, the environment.
pub open spec fn same_frame(a: SessView, b: SessView) -> bool {
    &&& a.limits == b.limits
    &&& a.node_limit == b.node_limit
    &&& a.size_limit == b.size_limit
    &&& a.now == b.now
    &&& a.env == b.env
}

proof fn lemma_touch_within(st: SessView, args: Seq<Seq<char>>, i: int)
    requires
        session_within(st),
    ensures
        session_within(touch_from(st, args, i).st),
        same_frame(st, touch_from(st, args, i).st),
    decreases args.len() - i,
{
    if 0 <= i < args.len() {
        let path = spec_canonicalize(args[i], st.cwd);
        if spec_stat(st.fs, path) is Ok {
            crate::fs_laws::lemma_touch_within(st.fs, path, st.now, st.node_limit, st.size_limit);
            lemma_touch_within(SessView { fs: spec_touch(st.fs, path, st.now), ..st }, args, i + 1);
        } else {
            law_write_within(st.fs, path, Seq::empty(), st.now, st.node_limit, st.size_limit);
            let (fs1, r) = spec_create_file(st.fs, path, Seq::empty(), st.now, st.node_limit, st.size_limit);
            lemma_touch_within(SessView { fs: fs1, ..st }, args, i + 1);
        }
    }
}

proof fn lemma_rm_within(st: SessView, args: Seq<Seq<char>>, i: int)
    requires
        session_within(st),
    ensures
        session_within(rm_from(st, args, i).st),
        same_frame(st, rm_from(st, args, i).st),
    decreases args.len() - i,
{
    if 0 <= i < args.len() {
        let path = spec_canonicalize(args[i], st.cwd);
        law_remove_within(st.fs, path, st.now, st.node_limit, st.size_limit);
        let (fs1, r) = spec_remove(st.fs, path, st.now);
        lemma_rm_within(SessView { fs: fs1, ..st }, args, i + 1);
    }
}

proof fn lemma_mkdir_within(st: SessView, paths: Seq<Seq<char>>, i: int, parents: bool)
    requires
        session_within(st),
    ensures
        session_within(mkdir_from(st, paths, i, parents).st),
        same_frame(st, mkdir_from(st, paths, i, parents).st),
    decreases paths.len() - i,
{
    if 0 <= i < paths.len() {
        let path = spec_canonicalize(paths[i], st.cwd);
        law_mkdir_p_within(st.fs, path, st.now, st.node_limit, st.size_limit);
        let make = spec_mkdir_p(st.fs, path, st.now, st.node_limit);
        lemma_mkdir_within(SessView { fs: make.0, ..st }, paths, i + 1, parents);
    }
}

/// A builtin keeps the file system within the limits of the session.
pub proof fn law_builtin_within(st: SessView, name: Seq<char>, args: Seq<Seq<char>>, stdin: Seq<u8>)
    requires
        session_within(st),
    ensures
        session_within(spec_builtin(st, name, args, stdin).st),
        same_frame(st, spec_builtin(st, name, args, stdin).st),
{
    lemma_touch_within(st, args, 0);
    lemma_rm_within(st, args, 0);
    match parse_args(args, mkdir_table(), Seq::empty(), mkdir_text()) {
        Ok(p) => lemma_mkdir_within(st, p.1, 0, has_opt(p.0, 'p')),
        Err(_) => {},
    }
}

/// A simple command keeps the file system within the limits of the session.
pub proof fn law_command_within(st: SessView, argv: Seq<Seq<char>>, rs: Seq<crate::parser::RedirectionView>, input: Seq<u8>)
    requires
        session_within(st),
    ensures
        session_within(spec_command(st, argv, rs, input).st),
        same_frame(st, spec_command(st, argv, rs, input).st),
{
    let ex = crate::shell::expand_all(argv, st);
    if ex.len() > 0 && !(ex.len() == 1 && crate::builtins::args::eq_pos(ex[0], 0) < ex[0].len()) {
        match redirect_from(st, rs, 0, input, None) {
            Err(_) => {},
            Ok((cmd_in, target)) => {
                let b = spec_builtin(st, ex[0], ex.drop_first(), cmd_in);
                law_builtin_within(st, ex[0], ex.drop_first(), cmd_in);
                match target {
                    None => {},
                    Some((path, append)) => {
                        let bst = b.st;
                        if b.res is Ok {
                            let existing: Result<Seq<u8>, crate::error::ErrView> = if append {
                                match crate::fs::spec_read(bst.fs, path) {
                                    Ok(d) => Ok(d),
                                    Err(crate::error::ErrView::NotFound(_)) => Ok(Seq::empty()),
                                    Err(e) => Err(e),
                                }
                            } else {
                                Ok(Seq::empty())
                            };
                            if let Ok(d) = existing {
                                law_write_within(bst.fs, path, d + b.out, bst.now, bst.node_limit, bst.size_limit);
                            }
                        }
                    },
                }
            },
        }
    }
}

/// Running a node keeps the file system within the limits of the session: no command
/// makes more nodes than the limit allows, or stores a file longer than the limit.
pub proof fn law_exec_within(st: SessView, n: AstView, input: Seq<u8>)
    requires
        session_within(st),
    ensures
        session_within(exec_node(st, n, input).st),
        same_frame(st, exec_node(st, n, input).st),
    decreases n, 0int,
{
    match n {
        AstView::Command { argv, redirects } => law_command_within(st, argv, redirects, input),
        AstView::Pipeline { nodes } => lemma_pipe_within(st, nodes, 0, input, Seq::empty(), 0),
        AstView::Sequence { nodes } => lemma_seq_within(st, nodes, 0, input, 0),
        AstView::Logical { left, right, operator } => {
            law_exec_within(st, *left, input);
            let a = exec_node(st, *left, input);
            law_exec_within(a.st, *right, a.input);
        },
        AstView::Subshell { node } => {
            law_exec_within(st, *node, input);
        },
        AstView::If { condition, then_part, else_part } => {
            law_exec_within(st, *condition, Seq::empty());
            let c = exec_node(st, *condition, Seq::empty());
            law_exec_within(c.st, *then_part, input);
            match else_part {
                Some(e) => law_exec_within(c.st, *e, input),
                None => {},
            }
        },
        AstView::For { variable, items, body } => lemma_for_within(st, variable, items, *body, 0, input, 0),
    }
}

proof fn lemma_pipe_within(st: SessView, nodes: Seq<AstView>, i: int, input: Seq<u8>, piped: Seq<u8>, last: i32)
    requires
        session_within(st),
    ensures
        session_within(pipe_from(st, nodes, i, input, piped, last).st),
        same_frame(st, pipe_from(st, nodes, i, input, piped, last).st),
    decreases nodes, nodes.len() - i,
{
    if 0 <= i < nodes.len() {
        let inp = if i == 0 {
            input
        } else {
            piped
        };
        law_exec_within(st, nodes[i], inp);
        let a = exec_node(st, nodes[i], inp);
        if i == 0 {
            lemma_pipe_within(a.st, nodes, i + 1, a.input, a.out, 0);
            if let Ok(c) = a.res {
                lemma_pipe_within(a.st, nodes, i + 1, a.input, a.out, c);
            }
        } else if i == nodes.len() - 1 {
            if let Ok(c) = a.res {
                lemma_pipe_within(a.st, nodes, i + 1, input, Seq::empty(), c);
            }
        } else {
            if let Ok(c) = a.res {
                lemma_pipe_within(a.st, nodes, i + 1, input, a.out, c);
            }
        }
    }
}

proof fn lemma_seq_within(st: SessView, nodes: Seq<AstView>, i: int, input: Seq<u8>, last: i32)
    requires
        session_within(st),
    ensures
        session_within(seq_from(st, nodes, i, input, last).st),
        same_frame(st, seq_from(st, nodes, i, input, last).st),
    decreases nodes, nodes.len() - i,
{
    if 0 <= i < nodes.len() {
        law_exec_within(st, nodes[i], input);
        let a = exec_node(st, nodes[i], input);
        if let Ok(c) = a.res {
            lemma_seq_within(a.st, nodes, i + 1, a.input, c);
        }
    }
}

proof fn lemma_for_within(
    st: SessView,
    variable: Seq<char>,
    items: Seq<Seq<char>>,
    body: AstView,
    k: int,
    input: Seq<u8>,
    last: i32,
)
    requires
        session_within(st),
    ensures
        session_within(for_from(st, variable, items, body, k, input, last).st),
        same_frame(st, for_from(st, variable, items, body, k, input, last).st),
    decreases body, items.len() - k + 1,
{
    if 0 <= k < items.len() {
        let st1 = SessView { vars: st.vars.insert(variable, items[k]), ..st };
        law_exec_within(st1, body, input);
        let a = exec_node(st1, body, input);
        if let Ok(c) = a.res {
            lemma_for_within(a.st, variable, items, body, k + 1, a.input, c);
        }
    }
}


/// The file that a command's output is redirected to is a key.
proof fn lemma_redirect_target_good(
    st: SessView,
    rs: Seq<crate::parser::RedirectionView>,
    j: int,
    input: Seq<u8>,
    target: Option<(Seq<char>, bool)>,
)
    requires
        target matches Some(t) ==> crate::path::good_key(t.0),
    ensures
        redirect_from(st, rs, j, input, target) matches Ok((_, Some(t))) ==> crate::path::good_key(t.0),
    decreases rs.len() - j,
{
    if 0 <= j < rs.len() {
        match rs[j] {
            crate::parser::RedirectionView::Stdin(p) => {
                match crate::fs::spec_read(st.fs, spec_canonicalize(p, st.cwd)) {
                    Ok(c) => lemma_redirect_target_good(st, rs, j + 1, c, target),
                    Err(_) => {},
                }
            },
            crate::parser::RedirectionView::StdoutOverwrite(p) => {
                lemma_canonical_good(p, st.cwd);
                lemma_redirect_target_good(st, rs, j + 1, input, Some((spec_canonicalize(p, st.cwd), false)));
            },
            crate::parser::RedirectionView::StdoutAppend(p) => {
                lemma_canonical_good(p, st.cwd);
                lemma_redirect_target_good(st, rs, j + 1, input, Some((spec_canonicalize(p, st.cwd), true)));
            },
        }
    }
}

/// The file system of a session is shaped as a tree.
pub open spec fn tree_of(st: SessView) -> bool {
    is_tree(st.fs)
}

proof fn lemma_touch_tree(st: SessView, args: Seq<Seq<char>>, i: int)
    requires
        tree_of(st),
    ensures
        tree_of(touch_from(st, args, i).st),
    decreases args.len() - i,
{
    if 0 <= i < args.len() {
        let path = spec_canonicalize(args[i], st.cwd);
        if spec_stat(st.fs, path) is Ok {
            crate::tree_laws::lemma_touch_keeps_tree(st.fs, path, st.now);
            lemma_touch_tree(SessView { fs: spec_touch(st.fs, path, st.now), ..st }, args, i + 1);
        } else {
            lemma_canonical_good(args[i], st.cwd);
            crate::tree_laws::lemma_create_file_tree(st.fs, path, Seq::empty(), st.now, st.node_limit, st.size_limit);
            let (fs1, r) = spec_create_file(st.fs, path, Seq::empty(), st.now, st.node_limit, st.size_limit);
            lemma_touch_tree(SessView { fs: fs1, ..st }, args, i + 1);
        }
    }
}

proof fn lemma_rm_tree(st: SessView, args: Seq<Seq<char>>, i: int)
    requires
        tree_of(st),
    ensures
        tree_of(rm_from(st, args, i).st),
    decreases args.len() - i,
{
    if 0 <= i < args.len() {
        let path = spec_canonicalize(args[i], st.cwd);
        lemma_canonical_good(args[i], st.cwd);
        crate::tree_laws::lemma_remove_tree(st.fs, path, st.now);
        let (fs1, r) = spec_remove(st.fs, path, st.now);
        lemma_rm_tree(SessView { fs: fs1, ..st }, args, i + 1);
    }
}

proof fn lemma_mkdir_tree(st: SessView, paths: Seq<Seq<char>>, i: int, parents: bool)
    requires
        tree_of(st),
    ensures
        tree_of(mkdir_from(st, paths, i, parents).st),
    decreases paths.len() - i,
{
    if 0 <= i < paths.len() {
        let path = spec_canonicalize(paths[i], st.cwd);
        lemma_canonical_good(paths[i], st.cwd);
        crate::tree_laws::lemma_mkdir_p_tree(st.fs, path, st.now, st.node_limit);
        let make = spec_mkdir_p(st.fs, path, st.now, st.node_limit);
        lemma_mkdir_tree(SessView { fs: make.0, ..st }, paths, i + 1, parents);
    }
}

/// A builtin keeps the file system shaped as a tree.
pub proof fn law_builtin_tree(st: SessView, name: Seq<char>, args: Seq<Seq<char>>, stdin: Seq<u8>)
    requires
        tree_of(st),
    ensures
        tree_of(spec_builtin(st, name, args, stdin).st),
{
    lemma_touch_tree(st, args, 0);
    lemma_rm_tree(st, args, 0);
    match parse_args(args, mkdir_table(), Seq::empty(), mkdir_text()) {
        Ok(p) => lemma_mkdir_tree(st, p.1, 0, has_opt(p.0, 'p')),
        Err(_) => {},
    }
}

/// A simple command keeps the file system shaped as a tree.
pub proof fn law_command_tree(st: SessView, argv: Seq<Seq<char>>, rs: Seq<crate::parser::RedirectionView>, input: Seq<u8>)
    requires
        tree_of(st),
    ensures
        tree_of(spec_command(st, argv, rs, input).st),
{
    let ex = crate::shell::expand_all(argv, st);
    if ex.len() > 0 && !(ex.len() == 1 && crate::builtins::args::eq_pos(ex[0], 0) < ex[0].len()) {
        match redirect_from(st, rs, 0, input, None) {
            Err(_) => {},
            Ok((cmd_in, target)) => {
                let b = spec_builtin(st, ex[0], ex.drop_first(), cmd_in);
                law_builtin_tree(st, ex[0], ex.drop_first(), cmd_in);
                lemma_redirect_target_good(st, rs, 0, input, None);
                match target {
                    None => {},
                    Some((path, append)) => {
                        let bst = b.st;
                        if b.res is Ok {
                            let existing: Result<Seq<u8>, crate::error::ErrView> = if append {
                                match crate::fs::spec_read(bst.fs, path) {
                                    Ok(d) => Ok(d),
                                    Err(crate::error::ErrView::NotFound(_)) => Ok(Seq::empty()),
                                    Err(e) => Err(e),
                                }
                            } else {
                                Ok(Seq::empty())
                            };
                            if let Ok(d) = existing {
                                crate::tree_laws::lemma_write_tree(bst.fs, path, d + b.out, bst.now, bst.node_limit, bst.size_limit);
                            }
                        }
                    },
                }
            },
        }
    }
}

/// Running a node keeps the file system shaped as a tree, so that what every command
/// leaves can be saved in the nested form and read back (see `law_nested_round_trip`).
pub proof fn law_exec_tree(st: SessView, n: AstView, input: Seq<u8>)
    requires
        tree_of(st),
    ensures
        tree_of(exec_node(st, n, input).st),
    decreases n, 0int,
{
    match n {
        AstView::Command { argv, redirects } => law_command_tree(st, argv, redirects, input),
        AstView::Pipeline { nodes } => lemma_pipe_tree(st, nodes, 0, input, Seq::empty(), 0),
        AstView::Sequence { nodes } => lemma_seq_tree(st, nodes, 0, input, 0),
        AstView::Logical { left, right, operator } => {
            law_exec_tree(st, *left, input);
            let a = exec_node(st, *left, input);
            law_exec_tree(a.st, *right, a.input);
        },
        AstView::Subshell { node } => {
            law_exec_tree(st, *node, input);
        },
        AstView::If { condition, then_part, else_part } => {
            law_exec_tree(st, *condition, Seq::empty());
            let c = exec_node(st, *condition, Seq::empty());
            law_exec_tree(c.st, *then_part, input);
            match else_part {
                Some(e) => law_exec_tree(c.st, *e, input),
                None => {},
            }
        },
        AstView::For { variable, items, body } => lemma_for_tree(st, variable, items, *body, 0, input, 0),
    }
}

proof fn lemma_pipe_tree(st: SessView, nodes: Seq<AstView>, i: int, input: Seq<u8>, piped: Seq<u8>, last: i32)
    requires
        tree_of(st),
    ensures
        tree_of(pipe_from(st, nodes, i, input, piped, last).st),
    decreases nodes, nodes.len() - i,
{
    if 0 <= i < nodes.len() {
        let inp = if i == 0 {
            input
        } else {
            piped
        };
        law_exec_tree(st, nodes[i], inp);
        let a = exec_node(st, nodes[i], inp);
        if i == 0 {
            lemma_pipe_tree(a.st, nodes, i + 1, a.input, a.out, 0);
            if let Ok(c) = a.res {
                lemma_pipe_tree(a.st, nodes, i + 1, a.input, a.out, c);
            }
        } else if i == nodes.len() - 1 {
            if let Ok(c) = a.res {
                lemma_pipe_tree(a.st, nodes, i + 1, input, Seq::empty(), c);
            }
        } else {
            if let Ok(c) = a.res {
                lemma_pipe_tree(a.st, nodes, i + 1, input, a.out, c);
            }
        }
    }
}

proof fn lemma_seq_tree(st: SessView, nodes: Seq<AstView>, i: int, input: Seq<u8>, last: i32)
    requires
        tree_of(st),
    ensures
        tree_of(seq_from(st, nodes, i, input, last).st),
    decreases nodes, nodes.len() - i,
{
    if 0 <= i < nodes.len() {
        law_exec_tree(st, nodes[i], input);
        let a = exec_node(st, nodes[i], input);
        if let Ok(c) = a.res {
            lemma_seq_tree(a.st, nodes, i + 1, a.input, c);
        }
    }
}

proof fn lemma_for_tree(
    st: SessView,
    variable: Seq<char>,
    items: Seq<Seq<char>>,
    body: AstView,
    k: int,
    input: Seq<u8>,
    last: i32,
)
    requires
        tree_of(st),
    ensures
        tree_of(for_from(st, variable, items, body, k, input, last).st),
    decreases body, items.len() - k + 1,
{
    if 0 <= k < items.len() {
        let st1 = SessView { vars: st.vars.insert(variable, items[k]), ..st };
        law_exec_tree(st1, body, input);
        let a = exec_node(st1, body, input);
        if let Ok(c) = a.res {
            lemma_for_tree(a.st, variable, items, body, k + 1, a.input, c);
        }
    }
}

/// A subshell gives back the working directory and the variables it started with;
/// what it did to the file system stays.
pub proof fn law_subshell_restores(st: SessView, n: AstView, input: Seq<u8>)
    ensures
        exec_node(st, AstView::Subshell { node: Box::new(n) }, input).st.cwd == st.cwd,
        exec_node(st, AstView::Subshell { node: Box::new(n) }, input).st.vars == st.vars,
        exec_node(st, AstView::Subshell { node: Box::new(n) }, input).st.fs == exec_node(st, n, input).st.fs,
        exec_node(st, AstView::Subshell { node: Box::new(n) }, input).out == exec_node(st, n, input).out,
{
}

/// `a && b` runs `b` only after `a` succeeded, and `a || b` only after `a` failed;
/// otherwise the list is `a` alone.
pub proof fn law_logical_short_circuit(st: SessView, a: AstView, b: AstView, op: LogicalOperator, input: Seq<u8>)
    ensures
        ({
            let l = exec_node(st, a, input);
            let whole = exec_node(st, AstView::Logical { left: Box::new(a), right: Box::new(b), operator: op }, input);
            match l.res {
                Ok(c) => if (op == LogicalOperator::And) == (c == 0) {
                    whole == crate::shell::then_run(l, exec_node(l.st, b, l.input))
                } else {
                    whole == l
                },
                Err(_) => whole == l,
            }
        }),
{
}

/// An assignment `NAME=VALUE` (after expansion) binds the variable and does nothing else.
pub proof fn law_assignment(st: SessView, word: Seq<char>, rs: Seq<crate::parser::RedirectionView>, input: Seq<u8>)
    requires
        crate::builtins::args::eq_pos(crate::session::expand(word, st.vars, st.env), 0) < crate::session::expand(
            word,
            st.vars,
            st.env,
        ).len(),
    ensures
        ({
            let e = crate::session::expand(word, st.vars, st.env);
            let k = crate::builtins::args::eq_pos(e, 0);
            spec_command(st, seq![word], rs, input) == Exec {
                st: SessView { vars: st.vars.insert(e.take(k), e.skip(k + 1)), ..st },
                input,
                out: Seq::empty(),
                err: Seq::empty(),
                res: Ok(0),
            }
        }),
{
    let ex = crate::shell::expand_all(seq![word], st);
    assert(ex[0] == crate::session::expand(word, st.vars, st.env));
}

/// `cmd > path` leaves in the file what the command wrote, and `cmd >> path` adds it to
/// what the file held (nothing, when there was no file), when the command and the write succeed.
pub proof fn law_redirect_writes(
    st: SessView,
    argv: Seq<Seq<char>>,
    p: Seq<char>,
    append: bool,
    input: Seq<u8>,
)
    requires
        ({
            let ex = crate::shell::expand_all(argv, st);
            ex.len() > 0 && !(ex.len() == 1 && crate::builtins::args::eq_pos(ex[0], 0) < ex[0].len())
        }),
        spec_command(
            st,
            argv,
            seq![
                if append {
                    crate::parser::RedirectionView::StdoutAppend(p)
                } else {
                    crate::parser::RedirectionView::StdoutOverwrite(p)
                },
            ],
            input,
        ).res is Ok,
    ensures
        ({
            let ex = crate::shell::expand_all(argv, st);
            let b = spec_builtin(st, ex[0], ex.drop_first(), input);
            let path = spec_canonicalize(p, st.cwd);
            let before: Seq<u8> = if append {
                match crate::fs::spec_read(b.st.fs, path) {
                    Ok(d) => d,
                    Err(_) => Seq::empty(),
                }
            } else {
                Seq::empty()
            };
            let r = spec_command(
                st,
                argv,
                seq![
                    if append {
                        crate::parser::RedirectionView::StdoutAppend(p)
                    } else {
                        crate::parser::RedirectionView::StdoutOverwrite(p)
                    },
                ],
                input,
            );
            crate::fs::spec_read(r.st.fs, path) == Ok::<Seq<u8>, crate::error::ErrView>(before + b.out)
        }),
{
    let ex = crate::shell::expand_all(argv, st);
    let b = spec_builtin(st, ex[0], ex.drop_first(), input);
    let path = spec_canonicalize(p, st.cwd);
    let rs = seq![
        if append {
            crate::parser::RedirectionView::StdoutAppend(p)
        } else {
            crate::parser::RedirectionView::StdoutOverwrite(p)
        },
    ];
    assert(redirect_from(st, rs, 1, input, Some((path, append))) == Ok::<
        (Seq<u8>, Option<(Seq<char>, bool)>),
        crate::error::ErrView,
    >((input, Some((path, append)))));
    let bst = b.st;
    let d: Seq<u8> = if append {
        match crate::fs::spec_read(bst.fs, path) {
            Ok(d) => d,
            Err(_) => Seq::empty(),
        }
    } else {
        Seq::empty()
    };
    crate::fs_laws::law_read_after_write(bst.fs, path, d + b.out, bst.now, bst.node_limit, bst.size_limit);
}

/// A new file system, holding only the root directory, is shaped as a tree and within
/// any limits that allow one node.
pub proof fn law_new_is_tree(t: i64, max_nodes: usize, max_file_size: usize)
    requires
        max_nodes >= 1,
    ensures
        is_tree(Map::<Seq<char>, crate::fs::NodeView>::empty().insert(crate::path::slash(), crate::fs::empty_dir(t))),
        within(
            Map::<Seq<char>, crate::fs::NodeView>::empty().insert(crate::path::slash(), crate::fs::empty_dir(t)),
            max_nodes,
            max_file_size,
        ),
{
    let fs = Map::<Seq<char>, crate::fs::NodeView>::empty().insert(crate::path::slash(), crate::fs::empty_dir(t));
    crate::path::lemma_root_comps();
    assert(fs.dom() =~= set![crate::path::slash()]);
    assert forall|k: Seq<char>| #[trigger] fs.contains_key(k) implies k == crate::path::slash() by {}
}

/// Running a command line keeps the file system of a session shaped as a tree and
/// within the limits of the session.
pub proof fn law_run_keeps_shape(st: SessView, line: Seq<char>)
    requires
        tree_of(st),
        session_within(st),
    ensures
        tree_of(crate::shell::spec_run(st, line).0),
        session_within(crate::shell::spec_run(st, line).0),
{
    match crate::shell::parse_line(line) {
        Err(_) => {},
        Ok(ast) => {
            law_exec_tree(st, ast, Seq::empty());
            law_exec_within(st, ast, Seq::empty());
        },
    }
}

/// A session whose file system is saved in the nested form and read back with the
/// session's own limits answers every command line exactly as before: the same output
/// and the same state after it.
pub proof fn law_round_trip_same_run(st: SessView, line: Seq<char>)
    requires
        tree_of(st),
        session_within(st),
    ensures
        crate::nested::to_nested(st.fs, crate::path::slash(), crate::path::slash(), st.fs.len()) is Ok,
        ({
            let saved = crate::nested::to_nested(st.fs, crate::path::slash(), crate::path::slash(), st.fs.len())->Ok_0;
            let back = crate::nested::from_nested_spec(saved, st.node_limit, st.size_limit);
            &&& back is Ok
            &&& crate::shell::spec_run(SessView { fs: back->Ok_0, ..st }, line) == crate::shell::spec_run(st, line)
        }),
{
    crate::tree::law_nested_round_trip(st.fs, st.node_limit, st.size_limit);
    let saved = crate::nested::to_nested(st.fs, crate::path::slash(), crate::path::slash(), st.fs.len())->Ok_0;
    let back = crate::nested::from_nested_spec(saved, st.node_limit, st.size_limit);
    assert(SessView { fs: back->Ok_0, ..st } == st);
}

proof fn lemma_fit_chars(t: Seq<char>, i: int, max: usize)
    requires
        0 <= i <= t.len(),
        crate::session::utf8(t.take(i)).len() <= max,
    ensures
        ({
            let n = crate::shell::fit_chars(t, i, max - crate::session::utf8(t.take(i)).len());
            &&& i <= n <= t.len()
            &&& crate::session::utf8(t.take(n)).len() <= max
            &&& n < t.len() ==> crate::session::utf8(t.take(n + 1)).len() > max
        }),
    decreases t.len() - i,
{
    if i < t.len() {
        let c = t[i];
        assert(t.take(i + 1) =~= t.take(i) + seq![c]);
        crate::session::lemma_utf8_concat(t.take(i), seq![c]);
        if crate::session::utf8(seq![c]).len() <= max - crate::session::utf8(t.take(i)).len() {
            lemma_fit_chars(t, i + 1, max);
        }
    }
}

/// The standard output that a command line shows (see `spec_run`) is cut from the text
/// its commands wrote: a prefix of it, whose UTF-8 encoding is at most `max` bytes, all
/// of it when it fits, and cut only where the next character would not fit.
pub proof fn law_output_cap(t: Seq<char>, max: usize)
    ensures
        ({
            let c = crate::shell::capped_text(t, max);
            &&& crate::session::utf8(c).len() <= max
            &&& c == t.take(c.len() as int)
            &&& crate::session::utf8(t).len() <= max ==> c == t
            &&& c.len() < t.len() ==> crate::session::utf8(t.take(c.len() as int + 1)).len() > max
        }),
{
    assert(t.take(0) =~= Seq::<char>::empty());
    lemma_fit_chars(t, 0, max);
    let n = crate::shell::fit_chars(t, 0, max as int);
    assert(crate::session::utf8(t.take(0)).len() == 0);
    if n < t.len() && crate::session::utf8(t).len() <= max {
        assert(t =~= t.take(n + 1) + t.skip(n + 1));
        crate::session::lemma_utf8_concat(t.take(n + 1), t.skip(n + 1));
    }
}

/// Output does not depend on anything outside the session: two sessions in the same state
/// that run the same command line print the same output and end in the same state. A
/// new session with given limits is always in the same state (`ZillSession::with_limits`),
/// so sessions given the same command lines print the same outputs.
pub proof fn law_same_state_same_run(a: SessView, b: SessView, line: Seq<char>)
    requires
        a == b,
    ensures
        crate::shell::spec_run(crate::shell::at_time(a, crate::shell::tick(a.now)), line)
            == crate::shell::spec_run(crate::shell::at_time(b, crate::shell::tick(b.now)), line),
{
}

} // verus!
