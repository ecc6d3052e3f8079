use vstd::prelude::*;
use crate::text::{chars_of, owned, str_eq, string_from_chars, strs_view, concat3};

verus! {

/// A parsed shell command line.
#[derive(Debug)]
pub enum AstNode {
    Command { argv: Vec<String>, redirects: Vec<Redirection> },
    Pipeline { nodes: Vec<AstNode> },
    Sequence { nodes: Vec<AstNode> },
    Logical { left: Box<AstNode>, right: Box<AstNode>, operator: LogicalOperator },
    Subshell { node: Box<AstNode> },
    If { condition: Box<AstNode>, then_part: Box<AstNode>, else_part: Option<Box<AstNode>> },
    For { variable: String, items: Vec<String>, body: Box<AstNode> },
}

/// The operator of a `&&` / `||` list.
#[derive(Debug, Clone, Copy, PartialEq, Eq)]
pub enum LogicalOperator {
    And,
    Or,
}

/// An I/O redirection attached to a command.
#[derive(Debug)]
pub enum Redirection {
    StdoutOverwrite(String),
    StdoutAppend(String),
    Stdin(String),
}

/// The mathematical value of a [`Redirection`].
pub enum RedirectionView {
    StdoutOverwrite(Seq<char>),
    StdoutAppend(Seq<char>),
    Stdin(Seq<char>),
}

impl View for Redirection {
    type V = RedirectionView;

    open spec fn view(&self) -> RedirectionView {
        match self {
            Redirection::StdoutOverwrite(p) => RedirectionView::StdoutOverwrite(p@),
            Redirection::StdoutAppend(p) => RedirectionView::StdoutAppend(p@),
            Redirection::Stdin(p) => RedirectionView::Stdin(p@),
        }
    }
}

/// The mathematical value of an [`AstNode`].
pub enum AstView {
    Command { argv: Seq<Seq<char>>, redirects: Seq<RedirectionView> },
    Pipeline { nodes: Seq<AstView> },
    Sequence { nodes: Seq<AstView> },
    Logical { left: Box<AstView>, right: Box<AstView>, operator: LogicalOperator },
    Subshell { node: Box<AstView> },
    If { condition: Box<AstView>, then_part: Box<AstView>, else_part: Option<Box<AstView>> },
    For { variable: Seq<char>, items: Seq<Seq<char>>, body: Box<AstView> },
}

pub open spec fn redirs_view(v: Seq<Redirection>) -> Seq<RedirectionView> {
    v.map_values(|r: Redirection| r@)
}

/// The views of a sequence of nodes.
pub open spec fn ast_views(nodes: Seq<AstNode>) -> Seq<AstView>
    decreases nodes,
{
    if nodes.len() == 0 {
        Seq::empty()
    } else {
        ast_views(nodes.drop_last()).push(ast_view(nodes.last()))
    }
}

/// The view of one node.
pub open spec fn ast_view(n: AstNode) -> AstView
    decreases n,
{
    match n {
        AstNode::Command { argv, redirects } => AstView::Command {
            argv: strs_view(argv@),
            redirects: redirs_view(redirects@),
        },
        AstNode::Pipeline { nodes } => AstView::Pipeline { nodes: ast_views(nodes@) },
        AstNode::Sequence { nodes } => AstView::Sequence { nodes: ast_views(nodes@) },
        AstNode::Logical { left, right, operator } => AstView::Logical {
            left: Box::new(ast_view(*left)),
            right: Box::new(ast_view(*right)),
            operator,
        },
        AstNode::Subshell { node } => AstView::Subshell { node: Box::new(ast_view(*node)) },
        AstNode::If { condition, then_part, else_part } => AstView::If {
            condition: Box::new(ast_view(*condition)),
            then_part: Box::new(ast_view(*then_part)),
            else_part: match else_part {
                Some(e) => Some(Box::new(ast_view(*e))),
                None => None,
            },
        },
        AstNode::For { variable, items, body } => AstView::For {
            variable: variable@,
            items: strs_view(items@),
            body: Box::new(ast_view(*body)),
        },
    }
}

impl View for AstNode {
    type V = AstView;

    open spec fn view(&self) -> AstView {
        ast_view(*self)
    }
}

pub proof fn lemma_ast_views(nodes: Seq<AstNode>)
    ensures
        ast_views(nodes).len() == nodes.len(),
        forall|i: int| 0 <= i < nodes.len() ==> #[trigger] ast_views(nodes)[i] == ast_view(nodes[i]),
    decreases nodes.len(),
{
    if nodes.len() > 0 {
        lemma_ast_views(nodes.drop_last());
    }
}

pub proof fn lemma_ast_views_push(nodes: Seq<AstNode>, n: AstNode)
    ensures
        ast_views(nodes.push(n)) == ast_views(nodes).push(ast_view(n)),
{
    assert(nodes.push(n).drop_last() =~= nodes);
}

// ---------------------------------------------------------------------------
// Splitting a command line into words
// ---------------------------------------------------------------------------

/// The state of the word splitter after a prefix of the input.
pub struct TokState {
    pub words: Seq<Seq<char>>,
    pub cur: Seq<char>,
    pub in_single: bool,
    pub in_double: bool,
    pub escaped: bool,
}

pub open spec fn tok_init() -> TokState {
    TokState { words: Seq::empty(), cur: Seq::empty(), in_single: false, in_double: false, escaped: false }
}

/// Ends the current word, if it is not empty.
pub open spec fn tok_flush(st: TokState) -> TokState {
    if st.cur.len() > 0 {
        TokState { words: st.words.push(st.cur), cur: Seq::empty(), ..st }
    } else {
        st
    }
}

pub open spec fn is_blank(c: char) -> bool {
    c == ' ' || c == '\t' || c == '\n' || c == '\r'
}

pub open spec fn is_meta(c: char) -> bool {
    c == '|' || c == '&' || c == ';' || c == '(' || c == ')' || c == '<' || c == '>'
}

/// Whether the metacharacter `c` followed by `d` forms one two-character operator.
pub open spec fn is_double_meta(c: char, d: char) -> bool {
    (c == '|' && d == '|') || (c == '&' && d == '&') || (c == '>' && d == '>')
}

/// The splitter run from position `i` of `inp` in state `st` to the end of the input.
pub open spec fn tok_from(inp: Seq<char>, i: int, st: TokState) -> TokState
    decreases inp.len() - i,
{
    if i < 0 || i >= inp.len() {
        st
    } else {
        let c = inp[i];
        if st.escaped {
            tok_from(inp, i + 1, TokState { cur: st.cur.push(c), escaped: false, ..st })
        } else if c == '\\' && !st.in_single {
            tok_from(inp, i + 1, TokState { escaped: true, ..st })
        } else if c == '\'' && !st.in_double {
            tok_from(inp, i + 1, TokState { in_single: !st.in_single, ..st })
        } else if c == '"' && !st.in_single {
            tok_from(inp, i + 1, TokState { in_double: !st.in_double, ..st })
        } else if st.in_single || st.in_double {
            tok_from(inp, i + 1, TokState { cur: st.cur.push(c), ..st })
        } else if is_blank(c) {
            tok_from(inp, i + 1, tok_flush(st))
        } else if is_meta(c) {
            let f = tok_flush(st);
            if i + 1 < inp.len() && is_double_meta(c, inp[i + 1]) {
                tok_from(inp, i + 2, TokState { words: f.words.push(seq![c, inp[i + 1]]), ..f })
            } else {
                tok_from(inp, i + 1, TokState { words: f.words.push(seq![c]), ..f })
            }
        } else {
            tok_from(inp, i + 1, TokState { cur: st.cur.push(c), ..st })
        }
    }
}

/// The words of a command line, or `None` when a quote is left open.
pub open spec fn tokenize(inp: Seq<char>) -> Option<Seq<Seq<char>>> {
    let st = tok_from(inp, 0, tok_init());
    if st.in_single || st.in_double {
        None
    } else {
        Some(tok_flush(st).words)
    }
}

// ---------------------------------------------------------------------------
// The grammar
// ---------------------------------------------------------------------------

/// The outcome of parsing from a word position: the node or an error message,
/// and the position after the words that were consumed.
pub type ParseOutcome = (Result<AstView, Seq<char>>, int);

pub open spec fn peek_at(w: Seq<Seq<char>>, pos: int) -> Option<Seq<char>> {
    if 0 <= pos < w.len() {
        Some(w[pos])
    } else {
        None
    }
}

pub open spec fn is_word(w: Seq<Seq<char>>, pos: int, s: Seq<char>) -> bool {
    peek_at(w, pos) == Some(s)
}

/// A position that a sub-parse may legitimately end at, starting from `pos`.
pub open spec fn advanced(w: Seq<Seq<char>>, pos: int, p: int) -> bool {
    pos <= p <= w.len()
}

/// Words that end a sequence.
pub open spec fn ends_sequence(t: Seq<char>) -> bool {
    t == "then"@ || t == "else"@ || t == "fi"@ || t == "do"@ || t == "done"@ || t == ")"@
}

/// Words that end a simple command.
pub open spec fn ends_command(t: Seq<char>) -> bool {
    t == "|"@ || t == "&&"@ || t == "||"@ || t == ";"@ || t == ")"@ || t == "then"@ || t
        == "else"@ || t == "fi"@ || t == "do"@ || t == "done"@
}

/// Reserved words that cannot start a command.
pub open spec fn is_clause_word(t: Seq<char>) -> bool {
    t == "then"@ || t == "else"@ || t == "fi"@ || t == "do"@ || t == "done"@
}

pub open spec fn seq_finish(nodes: Seq<AstView>, pos: int) -> ParseOutcome {
    if nodes.len() == 0 {
        (Err("empty command"@), pos)
    } else if nodes.len() == 1 {
        (Ok(nodes[0]), pos)
    } else {
        (Ok(AstView::Sequence { nodes }), pos)
    }
}

/// `sequence := logical (';' logical)* [';']`, stopping before a closing word.
pub open spec fn p_sequence(w: Seq<Seq<char>>, pos: int) -> ParseOutcome
    decreases w.len() - pos, 10int,
{
    p_seq_loop(w, pos, Seq::empty())
}

pub open spec fn p_seq_loop(w: Seq<Seq<char>>, pos: int, nodes: Seq<AstView>) -> ParseOutcome
    decreases w.len() - pos, 9int,
{
    if 0 <= pos < w.len() && !ends_sequence(w[pos]) {
        let (r, p1) = p_logical(w, pos);
        match r {
            Err(e) => (Err(e), p1),
            Ok(n) => if !advanced(w, pos, p1) {
                (Err(Seq::empty()), p1)
            } else if is_word(w, p1, ";"@) {
                p_seq_loop(w, p1 + 1, nodes.push(n))
            } else {
                seq_finish(nodes.push(n), p1)
            },
        }
    } else {
        seq_finish(nodes, pos)
    }
}

/// `logical := pipeline (('&&' | '||') pipeline)*`, left-associative.
pub open spec fn p_logical(w: Seq<Seq<char>>, pos: int) -> ParseOutcome
    decreases w.len() - pos, 8int,
{
    let (r, p1) = p_pipeline(w, pos);
    match r {
        Err(e) => (Err(e), p1),
        Ok(left) => if !advanced(w, pos, p1) {
            (Err(Seq::empty()), p1)
        } else {
            p_logical_loop(w, p1, left)
        },
    }
}

pub open spec fn p_logical_loop(w: Seq<Seq<char>>, pos: int, left: AstView) -> ParseOutcome
    decreases w.len() - pos, 7int,
{
    if 0 <= pos < w.len() && (w[pos] == "&&"@ || w[pos] == "||"@) {
        let op = if w[pos] == "&&"@ {
            LogicalOperator::And
        } else {
            LogicalOperator::Or
        };
        let (r, p2) = p_pipeline(w, pos + 1);
        match r {
            Err(e) => (Err(e), p2),
            Ok(right) => if !advanced(w, pos + 1, p2) {
                (Err(Seq::empty()), p2)
            } else {
                p_logical_loop(
                    w,
                    p2,
                    AstView::Logical { left: Box::new(left), right: Box::new(right), operator: op },
                )
            },
        }
    } else {
        (Ok(left), pos)
    }
}

/// `pipeline := primary ('|' primary)*`.
pub open spec fn p_pipeline(w: Seq<Seq<char>>, pos: int) -> ParseOutcome
    decreases w.len() - pos, 6int,
{
    let (r, p1) = p_primary(w, pos);
    match r {
        Err(e) => (Err(e), p1),
        Ok(n) => if !advanced(w, pos, p1) {
            (Err(Seq::empty()), p1)
        } else {
            p_pipe_loop(w, p1, seq![n])
        },
    }
}

pub open spec fn p_pipe_loop(w: Seq<Seq<char>>, pos: int, nodes: Seq<AstView>) -> ParseOutcome
    decreases w.len() - pos, 5int,
{
    if is_word(w, pos, "|"@) {
        let (r, p2) = p_primary(w, pos + 1);
        match r {
            Err(e) => (Err(e), p2),
            Ok(n) => if !advanced(w, pos + 1, p2) {
                (Err(Seq::empty()), p2)
            } else {
                p_pipe_loop(w, p2, nodes.push(n))
            },
        }
    } else if nodes.len() == 1 {
        (Ok(nodes[0]), pos)
    } else {
        (Ok(AstView::Pipeline { nodes }), pos)
    }
}

/// `primary := if_clause | for_clause | '(' sequence ')' | command`.
pub open spec fn p_primary(w: Seq<Seq<char>>, pos: int) -> ParseOutcome
    decreases w.len() - pos, 4int,
{
    if is_word(w, pos, "if"@) {
        p_if(w, pos)
    } else if is_word(w, pos, "for"@) {
        p_for(w, pos)
    } else if 0 <= pos < w.len() && is_clause_word(w[pos]) {
        (Err("unexpected token '"@ + w[pos] + "'"@), pos)
    } else if is_word(w, pos, "("@) {
        let (r, p1) = p_sequence(w, pos + 1);
        match r {
            Err(e) => (Err(e), p1),
            Ok(n) => if is_word(w, p1, ")"@) {
                (Ok(AstView::Subshell { node: Box::new(n) }), p1 + 1)
            } else {
                (Err("expected ')'"@), p1)
            },
        }
    } else {
        p_command(w, pos)
    }
}

/// `if_clause := 'if' sequence 'then' sequence ['else' sequence] 'fi'`.
pub open spec fn p_if(w: Seq<Seq<char>>, pos: int) -> ParseOutcome
    decreases w.len() - pos, 3int,
{
    if !(0 <= pos < w.len()) {
        (Err(Seq::empty()), pos)
    } else {
        let (rc, p1) = p_sequence(w, pos + 1);
        match rc {
            Err(e) => (Err(e), p1),
            Ok(cond) => if !advanced(w, pos + 1, p1) {
                (Err(Seq::empty()), p1)
            } else if !is_word(w, p1, "then"@) {
                (Err("expected 'then'"@), p1)
            } else {
                let (rt, p2) = p_sequence(w, p1 + 1);
                match rt {
                    Err(e) => (Err(e), p2),
                    Ok(then_part) => if !advanced(w, p1 + 1, p2) {
                        (Err(Seq::empty()), p2)
                    } else if is_word(w, p2, "else"@) {
                        let (re, p3) = p_sequence(w, p2 + 1);
                        match re {
                            Err(e) => (Err(e), p3),
                            Ok(else_part) => if is_word(w, p3, "fi"@) {
                                (
                                    Ok(
                                        AstView::If {
                                            condition: Box::new(cond),
                                            then_part: Box::new(then_part),
                                            else_part: Some(Box::new(else_part)),
                                        },
                                    ),
                                    p3 + 1,
                                )
                            } else {
                                (Err("expected 'fi'"@), p3)
                            },
                        }
                    } else if is_word(w, p2, "fi"@) {
                        (
                            Ok(
                                AstView::If {
                                    condition: Box::new(cond),
                                    then_part: Box::new(then_part),
                                    else_part: None,
                                },
                            ),
                            p2 + 1,
                        )
                    } else {
                        (Err("expected 'fi'"@), p2)
                    },
                }
            },
        }
    }
}

/// The words of a `for` list from `pos`: everything up to `do` or `;`.
pub open spec fn for_items(w: Seq<Seq<char>>, pos: int) -> Seq<Seq<char>>
    decreases w.len() - pos,
{
    if 0 <= pos < w.len() && w[pos] != "do"@ && w[pos] != ";"@ {
        seq![w[pos]] + for_items(w, pos + 1)
    } else {
        Seq::empty()
    }
}

/// The position after the words of a `for` list.
pub open spec fn for_items_end(w: Seq<Seq<char>>, pos: int) -> int
    decreases w.len() - pos,
{
    if 0 <= pos < w.len() && w[pos] != "do"@ && w[pos] != ";"@ {
        for_items_end(w, pos + 1)
    } else {
        pos
    }
}

/// `for_clause := 'for' NAME 'in' WORD* [';'] 'do' sequence 'done'`.
pub open spec fn p_for(w: Seq<Seq<char>>, pos: int) -> ParseOutcome
    decreases w.len() - pos, 3int,
{
    if !(0 <= pos < w.len()) {
        (Err(Seq::empty()), pos)
    } else if pos + 1 >= w.len() {
        (Err("expected variable name after 'for'"@), pos + 1)
    } else if !is_word(w, pos + 2, "in"@) {
        (Err("expected 'in' after variable name in 'for'"@), pos + 2)
    } else {
        let variable = w[pos + 1];
        let items = for_items(w, pos + 3);
        let p1 = for_items_end(w, pos + 3);
        let p2 = if is_word(w, p1, ";"@) {
            p1 + 1
        } else {
            p1
        };
        if !is_word(w, p2, "do"@) {
            (Err("expected 'do'"@), p2)
        } else if !(pos < p2 < w.len()) {
            (Err(Seq::empty()), p2)
        } else {
            let (rb, p3) = p_sequence(w, p2 + 1);
            match rb {
                Err(e) => (Err(e), p3),
                Ok(body) => if is_word(w, p3, "done"@) {
                    (Ok(AstView::For { variable, items, body: Box::new(body) }), p3 + 1)
                } else {
                    (Err("expected 'done'"@), p3)
                },
            }
        }
    }
}

/// `command := (WORD | '>' WORD | '>>' WORD | '<' WORD)+`.
pub open spec fn p_command(w: Seq<Seq<char>>, pos: int) -> ParseOutcome
    decreases w.len() - pos, 2int,
{
    p_cmd_loop(w, pos, Seq::empty(), Seq::empty())
}

pub open spec fn p_cmd_loop(
    w: Seq<Seq<char>>,
    pos: int,
    argv: Seq<Seq<char>>,
    redirects: Seq<RedirectionView>,
) -> ParseOutcome
    decreases w.len() - pos, 1int,
{
    if 0 <= pos < w.len() && !ends_command(w[pos]) {
        let t = w[pos];
        if t == ">"@ || t == ">>"@ || t == "<"@ {
            if pos + 1 >= w.len() {
                (Err("expected file after '"@ + t + "'"@), pos + 1)
            } else {
                let path = w[pos + 1];
                let r = if t == ">"@ {
                    RedirectionView::StdoutOverwrite(path)
                } else if t == ">>"@ {
                    RedirectionView::StdoutAppend(path)
                } else {
                    RedirectionView::Stdin(path)
                };
                p_cmd_loop(w, pos + 2, argv, redirects.push(r))
            }
        } else {
            p_cmd_loop(w, pos + 1, argv.push(t), redirects)
        }
    } else if argv.len() == 0 && redirects.len() == 0 {
        (Err("empty command"@), pos)
    } else {
        (Ok(AstView::Command { argv, redirects }), pos)
    }
}

// ---------------------------------------------------------------------------
// The parser
// ---------------------------------------------------------------------------

/// A recursive-descent parser over the words of one command line.
pub struct Parser {
    words: Vec<String>,
    pos: usize,
}

/// The outcome of an executable parse, in the form of [`ParseOutcome`].
pub open spec fn outcome_of(r: Result<AstNode, String>, pos: int) -> ParseOutcome {
    match r {
        Ok(n) => (Ok(n@), pos),
        Err(e) => (Err(e@), pos),
    }
}

fn word_ends_sequence(t: &str) -> (r: bool)
    ensures
        r == ends_sequence(t@),
{
    str_eq(t, "then") || str_eq(t, "else") || str_eq(t, "fi") || str_eq(t, "do") || str_eq(t, "done")
        || str_eq(t, ")")
}

fn word_ends_command(t: &str) -> (r: bool)
    ensures
        r == ends_command(t@),
{
    str_eq(t, "|") || str_eq(t, "&&") || str_eq(t, "||") || str_eq(t, ";") || str_eq(t, ")")
        || str_eq(t, "then") || str_eq(t, "else") || str_eq(t, "fi") || str_eq(t, "do") || str_eq(
        t,
        "done",
    )
}

fn word_is_clause(t: &str) -> (r: bool)
    ensures
        r == is_clause_word(t@),
{
    str_eq(t, "then") || str_eq(t, "else") || str_eq(t, "fi") || str_eq(t, "do") || str_eq(t, "done")
}

impl Parser {
    /// The words that the parser reads.
    pub closed spec fn words(&self) -> Seq<Seq<char>> {
        strs_view(self.words@)
    }

    /// The position of the next word to read.
    pub closed spec fn position(&self) -> int {
        self.pos as int
    }

    pub closed spec fn wf(&self) -> bool {
        self.pos <= self.words@.len()
    }

    /// Splits `input` into words. Fails with `"unclosed quote"` when a quote is left open.
    pub fn new(input: &str) -> (r: Result<Parser, String>)
        ensures
            match tokenize(input@) {
                Some(ws) => r matches Ok(p) && p.words() == ws && p.position() == 0 && p.wf(),
                None => r matches Err(e) && e@ == "unclosed quote"@,
            },
            r is Ok ==> forall|k: int| 0 <= k < r->Ok_0.words().len() ==> #[trigger] r->Ok_0.words()[k].len() > 0,
            plain_text(input@) ==> r is Ok && r->Ok_0.words() == fields(input@),
    {
        proof {
            law_tokenize_fields(input@);
        }
        let inp = chars_of(input);
        let mut words: Vec<String> = Vec::new();
        let mut cur: Vec<char> = Vec::new();
        let mut in_single = false;
        let mut in_double = false;
        let mut escaped = false;
        let mut i: usize = 0;
        let ghost target = tok_from(inp@, 0, tok_init());
        assert(strs_view(words@) =~= Seq::<Seq<char>>::empty());
        while i < inp.len()
            invariant
                i <= inp.len(),
                inp@ == input@,
                target == tok_from(inp@, 0, tok_init()),
                tok_from(
                    inp@,
                    i as int,
                    TokState {
                        words: strs_view(words@),
                        cur: cur@,
                        in_single,
                        in_double,
                        escaped,
                    },
                ) == target,
            decreases inp.len() - i,
        {
            let c = inp[i];
            let ghost st = TokState {
                words: strs_view(words@),
                cur: cur@,
                in_single,
                in_double,
                escaped,
            };
            if escaped {
                cur.push(c);
                escaped = false;
                i += 1;
            } else if c == '\\' && !in_single {
                escaped = true;
                i += 1;
            } else if c == '\'' && !in_double {
                in_single = !in_single;
                i += 1;
            } else if c == '"' && !in_single {
                in_double = !in_double;
                i += 1;
            } else if in_single || in_double {
                cur.push(c);
                i += 1;
            } else if c == ' ' || c == '\t' || c == '\n' || c == '\r' {
                if cur.len() > 0 {
                    let wd = string_from_chars(cur.as_slice());
                    words.push(wd);
                    cur = Vec::new();
                    assert(strs_view(words@) =~= st.words.push(st.cur));
                }
                i += 1;
            } else if c == '|' || c == '&' || c == ';' || c == '(' || c == ')' || c == '<' || c
                == '>' {
                if cur.len() > 0 {
                    let wd = string_from_chars(cur.as_slice());
                    words.push(wd);
                    cur = Vec::new();
                    assert(strs_view(words@) =~= st.words.push(st.cur));
                }
                let ghost f = strs_view(words@);
                let mut meta: Vec<char> = Vec::new();
                meta.push(c);
                if i + 1 < inp.len() && ((c == '|' && inp[i + 1] == '|') || (c == '&' && inp[i
                    + 1] == '&') || (c == '>' && inp[i + 1] == '>')) {
                    meta.push(inp[i + 1]);
                    words.push(string_from_chars(meta.as_slice()));
                    assert(meta@ =~= seq![c, inp@[i + 1]]);
                    assert(strs_view(words@) =~= f.push(seq![c, inp@[i + 1]]));
                    i += 2;
                } else {
                    words.push(string_from_chars(meta.as_slice()));
                    assert(meta@ =~= seq![c]);
                    assert(strs_view(words@) =~= f.push(seq![c]));
                    i += 1;
                }
            } else {
                cur.push(c);
                i += 1;
            }
        }
        if cur.len() > 0 {
            let ghost before = strs_view(words@);
            let wd = string_from_chars(cur.as_slice());
            words.push(wd);
            assert(strs_view(words@) =~= before.push(cur@));
        }
        if in_single || in_double {
            return Err(owned("unclosed quote"));
        }
        let p = Parser { words, pos: 0 };
        proof {
            let ws = tokenize(input@)->Some_0;
            assert(p.words() == ws);
            assert forall|k: int| 0 <= k < p.words().len() implies #[trigger] p.words()[k].len() > 0 by {
                assert(p.words()[k] == ws[k]);
            }
        }
        Ok(p)
    }

    /// The word at the current position, if any.
    fn peek(&self) -> (r: Option<&str>)
        requires
            self.wf(),
        ensures
            match peek_at(self.words(), self.position()) {
                Some(t) => r matches Some(s) && s@ == t,
                None => r is None,
            },
    {
        if self.pos < self.words.len() {
            Some(self.words[self.pos].as_str())
        } else {
            None
        }
    }

    /// Whether the current word is `s`.
    fn peek_is(&self, s: &str) -> (r: bool)
        requires
            self.wf(),
        ensures
            r == is_word(self.words(), self.position(), s@),
    {
        match self.peek() {
            Some(t) => str_eq(t, s),
            None => false,
        }
    }

    /// Returns the current word and moves past it; at the end, returns `None` and stays.
    fn consume(&mut self) -> (r: Option<String>)
        requires
            old(self).wf(),
        ensures
            final(self).wf(),
            final(self).words() == old(self).words(),
            match peek_at(old(self).words(), old(self).position()) {
                Some(t) => r matches Some(s) && s@ == t && final(self).position() == old(
                    self,
                ).position() + 1,
                None => r is None && final(self).position() == old(self).position(),
            },
    {
        if self.pos < self.words.len() {
            let w = owned(self.words[self.pos].as_str());
            self.pos = self.pos + 1;
            Some(w)
        } else {
            None
        }
    }

    /// Parses a whole command line from the current position.
    pub fn parse(&mut self) -> (r: Result<AstNode, String>)
        requires
            old(self).wf(),
        ensures
            final(self).wf(),
            final(self).words() == old(self).words(),
            outcome_of(r, final(self).position()) == p_sequence(old(self).words(), old(self).position()),
            r is Ok ==> well_shaped(r->Ok_0@),
    {
        proof {
            law_parse_shape(old(self).words(), old(self).position());
        }
        self.parse_sequence()
    }

    fn parse_sequence(&mut self) -> (r: Result<AstNode, String>)
        requires
            old(self).wf(),
        ensures
            final(self).wf(),
            final(self).words() == old(self).words(),
            old(self).position() <= final(self).position(),
            outcome_of(r, final(self).position()) == p_sequence(old(self).words(), old(self).position()),
        decreases old(self).words().len() - old(self).position(), 10int,
    {
        let ghost w = self.words();
        let ghost p0 = self.position();
        let ghost target = p_sequence(w, p0);
        assert(target == p_seq_loop(w, p0, Seq::empty()));
        let mut nodes: Vec<AstNode> = Vec::new();
        assert(ast_views(nodes@) =~= Seq::<AstView>::empty());
        loop
            invariant
                self.wf(),
                self.words() == w,
                w == old(self).words(),
                p0 == old(self).position(),
                target == p_sequence(w, p0),
                p0 <= self.position(),
                p_seq_loop(w, self.position(), ast_views(nodes@)) == target,
            ensures
                !(0 <= self.position() < w.len() && !ends_sequence(w[self.position()])),
            decreases w.len() - self.position(),
        {
            let stop = match self.peek() {
                None => true,
                Some(t) => word_ends_sequence(t),
            };
            if stop {
                break;
            }
            let ghost before = self.position();
            let node = match self.parse_logical() {
                Ok(n) => n,
                Err(e) => {
                    return Err(e);
                },
            };
            proof {
                lemma_ast_views_push(nodes@, node);
            }
            nodes.push(node);
            if self.peek_is(";") {
                self.consume();
            } else {
                return Self::finish_sequence(nodes);
            }
        }
        Self::finish_sequence(nodes)
    }

    fn finish_sequence(nodes: Vec<AstNode>) -> (r: Result<AstNode, String>)
        ensures
            (match r {
                Ok(n) => Ok(n@),
                Err(e) => Err(e@),
            }) == seq_finish(ast_views(nodes@), 0).0,
    {
        proof {
            lemma_ast_views(nodes@);
        }
        let mut nodes = nodes;
        if nodes.len() == 0 {
            Err(owned("empty command"))
        } else if nodes.len() == 1 {
            Ok(nodes.remove(0))
        } else {
            Ok(AstNode::Sequence { nodes })
        }
    }

    fn parse_logical(&mut self) -> (r: Result<AstNode, String>)
        requires
            old(self).wf(),
        ensures
            final(self).wf(),
            final(self).words() == old(self).words(),
            old(self).position() <= final(self).position(),
            outcome_of(r, final(self).position()) == p_logical(old(self).words(), old(self).position()),
        decreases old(self).words().len() - old(self).position(), 8int,
    {
        let ghost w = self.words();
        let ghost p0 = self.position();
        let ghost target = p_logical(w, p0);
        let mut left = match self.parse_pipeline() {
            Ok(n) => n,
            Err(e) => {
                return Err(e);
            },
        };
        loop
            invariant
                self.wf(),
                self.words() == w,
                w == old(self).words(),
                p0 == old(self).position(),
                target == p_logical(w, p0),
                p0 <= self.position(),
                p_logical_loop(w, self.position(), left@) == target,
            ensures
                !(0 <= self.position() < w.len() && (w[self.position()] == "&&"@ || w[self.position()] == "||"@)),
            decreases w.len() - self.position(),
        {
            let op = if self.peek_is("&&") {
                LogicalOperator::And
            } else if self.peek_is("||") {
                LogicalOperator::Or
            } else {
                break;
            };
            self.consume();
            let right = match self.parse_pipeline() {
                Ok(n) => n,
                Err(e) => {
                    return Err(e);
                },
            };
            left = AstNode::Logical { left: Box::new(left), right: Box::new(right), operator: op };
        }
        Ok(left)
    }

    fn parse_pipeline(&mut self) -> (r: Result<AstNode, String>)
        requires
            old(self).wf(),
        ensures
            final(self).wf(),
            final(self).words() == old(self).words(),
            old(self).position() <= final(self).position(),
            outcome_of(r, final(self).position()) == p_pipeline(old(self).words(), old(self).position()),
        decreases old(self).words().len() - old(self).position(), 6int,
    {
        let ghost w = self.words();
        let ghost p0 = self.position();
        let ghost target = p_pipeline(w, p0);
        let first = match self.parse_primary() {
            Ok(n) => n,
            Err(e) => {
                return Err(e);
            },
        };
        let mut nodes: Vec<AstNode> = Vec::new();
        proof {
            lemma_ast_views_push(nodes@, first);
            assert(nodes@.push(first) =~= seq![first]);
            assert(Seq::<AstNode>::empty().push(first) =~= seq![first]);
            assert(ast_views(Seq::<AstNode>::empty()) =~= Seq::<AstView>::empty());
        }
        nodes.push(first);
        assert(ast_views(nodes@) =~= seq![first@]);
        loop
            invariant
                self.wf(),
                self.words() == w,
                w == old(self).words(),
                p0 == old(self).position(),
                target == p_pipeline(w, p0),
                p0 <= self.position(),
                nodes@.len() >= 1,
                p_pipe_loop(w, self.position(), ast_views(nodes@)) == target,
            ensures
                !is_word(w, self.position(), "|"@),
            decreases w.len() - self.position(),
        {
            if !self.peek_is("|") {
                break;
            }
            self.consume();
            let n = match self.parse_primary() {
                Ok(n) => n,
                Err(e) => {
                    return Err(e);
                },
            };
            proof {
                lemma_ast_views_push(nodes@, n);
            }
            nodes.push(n);
        }
        proof {
            lemma_ast_views(nodes@);
        }
        if nodes.len() == 1 {
            Ok(nodes.remove(0))
        } else {
            Ok(AstNode::Pipeline { nodes })
        }
    }

    fn parse_primary(&mut self) -> (r: Result<AstNode, String>)
        requires
            old(self).wf(),
        ensures
            final(self).wf(),
            final(self).words() == old(self).words(),
            old(self).position() <= final(self).position(),
            outcome_of(r, final(self).position()) == p_primary(old(self).words(), old(self).position()),
        decreases old(self).words().len() - old(self).position(), 4int,
    {
        if self.peek_is("if") {
            return self.parse_if();
        }
        if self.peek_is("for") {
            return self.parse_for();
        }
        match self.peek() {
            Some(t) => {
                if word_is_clause(t) {
                    return Err(concat3("unexpected token '", t, "'"));
                }
            },
            None => {},
        }
        if self.peek_is("(") {
            self.consume();
            let node = match self.parse_sequence() {
                Ok(n) => n,
                Err(e) => {
                    return Err(e);
                },
            };
            if self.peek_is(")") {
                self.consume();
                return Ok(AstNode::Subshell { node: Box::new(node) });
            } else {
                return Err(owned("expected ')'"));
            }
        }
        self.parse_command()
    }

    fn parse_if(&mut self) -> (r: Result<AstNode, String>)
        requires
            old(self).wf(),
            old(self).position() < old(self).words().len(),
        ensures
            final(self).wf(),
            final(self).words() == old(self).words(),
            old(self).position() <= final(self).position(),
            outcome_of(r, final(self).position()) == p_if(old(self).words(), old(self).position()),
        decreases old(self).words().len() - old(self).position(), 3int,
    {
        self.consume();
        let condition = match self.parse_sequence() {
            Ok(n) => n,
            Err(e) => {
                return Err(e);
            },
        };
        if !self.peek_is("then") {
            return Err(owned("expected 'then'"));
        }
        self.consume();
        let then_part = match self.parse_sequence() {
            Ok(n) => n,
            Err(e) => {
                return Err(e);
            },
        };
        let mut else_part: Option<Box<AstNode>> = None;
        if self.peek_is("else") {
            self.consume();
            let e = match self.parse_sequence() {
                Ok(n) => n,
                Err(e) => {
                    return Err(e);
                },
            };
            else_part = Some(Box::new(e));
        }
        if !self.peek_is("fi") {
            return Err(owned("expected 'fi'"));
        }
        self.consume();
        Ok(
            AstNode::If {
                condition: Box::new(condition),
                then_part: Box::new(then_part),
                else_part,
            },
        )
    }

    fn parse_for(&mut self) -> (r: Result<AstNode, String>)
        requires
            old(self).wf(),
            old(self).position() < old(self).words().len(),
        ensures
            final(self).wf(),
            final(self).words() == old(self).words(),
            old(self).position() <= final(self).position(),
            outcome_of(r, final(self).position()) == p_for(old(self).words(), old(self).position()),
        decreases old(self).words().len() - old(self).position(), 3int,
    {
        let ghost w = self.words();
        let ghost p0 = self.position();
        self.consume();
        let variable = match self.consume() {
            Some(v) => v,
            None => {
                return Err(owned("expected variable name after 'for'"));
            },
        };
        if !self.peek_is("in") {
            return Err(owned("expected 'in' after variable name in 'for'"));
        }
        self.consume();
        let mut items: Vec<String> = Vec::new();
        assert(strs_view(items@) =~= Seq::<Seq<char>>::empty());
        loop
            invariant
                self.wf(),
                self.words() == w,
                w == old(self).words(),
                p0 == old(self).position(),
                p0 + 3 <= self.position(),
                for_items(w, p0 + 3) == strs_view(items@) + for_items(w, self.position()),
                for_items_end(w, p0 + 3) == for_items_end(w, self.position()),
            ensures
                !(0 <= self.position() < w.len() && w[self.position()] != "do"@ && w[self.position()] != ";"@),
            decreases w.len() - self.position(),
        {
            let stop = match self.peek() {
                None => true,
                Some(t) => str_eq(t, "do") || str_eq(t, ";"),
            };
            if stop {
                break;
            }
            let ghost p = self.position();
            match self.consume() {
                Some(t) => {
                    proof {
                        assert(strs_view(items@.push(t)) =~= strs_view(items@).push(t@));
                        assert(strs_view(items@) + for_items(w, p) =~= strs_view(items@).push(t@)
                            + for_items(w, p + 1));
                    }
                    items.push(t);
                },
                None => {},
            }
        }
        assert(for_items(w, self.position()) =~= Seq::<Seq<char>>::empty());
        assert(strs_view(items@) + Seq::<Seq<char>>::empty() =~= strs_view(items@));
        if self.peek_is(";") {
            self.consume();
        }
        if !self.peek_is("do") {
            return Err(owned("expected 'do'"));
        }
        self.consume();
        let body = match self.parse_sequence() {
            Ok(n) => n,
            Err(e) => {
                return Err(e);
            },
        };
        if !self.peek_is("done") {
            return Err(owned("expected 'done'"));
        }
        self.consume();
        Ok(AstNode::For { variable, items, body: Box::new(body) })
    }

    fn parse_command(&mut self) -> (r: Result<AstNode, String>)
        requires
            old(self).wf(),
        ensures
            final(self).wf(),
            final(self).words() == old(self).words(),
            old(self).position() <= final(self).position(),
            outcome_of(r, final(self).position()) == p_command(old(self).words(), old(self).position()),
    {
        let ghost w = self.words();
        let ghost p0 = self.position();
        let ghost target = p_command(w, p0);
        let mut argv: Vec<String> = Vec::new();
        let mut redirects: Vec<Redirection> = Vec::new();
        assert(strs_view(argv@) =~= Seq::<Seq<char>>::empty());
        assert(redirs_view(redirects@) =~= Seq::<RedirectionView>::empty());
        loop
            invariant
                self.wf(),
                self.words() == w,
                w == old(self).words(),
                p0 == old(self).position(),
                target == p_command(w, p0),
                p0 <= self.position(),
                p_cmd_loop(w, self.position(), strs_view(argv@), redirs_view(redirects@)) == target,
            ensures
                !(0 <= self.position() < w.len() && !ends_command(w[self.position()])),
            decreases w.len() - self.position(),
        {
            let kind: u8 = match self.peek() {
                None => {
                    break;
                },
                Some(t) => {
                    if word_ends_command(t) {
                        break;
                    } else if str_eq(t, ">") {
                        1
                    } else if str_eq(t, ">>") {
                        2
                    } else if str_eq(t, "<") {
                        3
                    } else {
                        0
                    }
                },
            };
            if kind == 0 {
                match self.consume() {
                    Some(a) => {
                        proof {
                            assert(strs_view(argv@.push(a)) =~= strs_view(argv@).push(a@));
                        }
                        argv.push(a);
                    },
                    None => {},
                }
            } else {
                let op = if kind == 1 {
                    ">"
                } else if kind == 2 {
                    ">>"
                } else {
                    "<"
                };
                self.consume();
                let path = match self.consume() {
                    Some(p) => p,
                    None => {
                        return Err(concat3("expected file after '", op, "'"));
                    },
                };
                let r = if kind == 1 {
                    Redirection::StdoutOverwrite(path)
                } else if kind == 2 {
                    Redirection::StdoutAppend(path)
                } else {
                    Redirection::Stdin(path)
                };
                proof {
                    assert(redirs_view(redirects@.push(r)) =~= redirs_view(redirects@).push(r@));
                }
                redirects.push(r);
            }
        }
        if argv.len() == 0 && redirects.len() == 0 {
            return Err(owned("empty command"));
        }
        Ok(AstNode::Command { argv, redirects })
    }
}

/// The blank-separated fields of `s`: each maximal run of characters that are not blanks,
/// in order.
pub open spec fn fields(s: Seq<char>) -> Seq<Seq<char>>
    decreases s.len(),
{
    if s.len() == 0 {
        Seq::empty()
    } else {
        let f = fields(s.drop_last());
        let c = s.last();
        if is_blank(c) {
            f
        } else if s.len() >= 2 && !is_blank(s[s.len() - 2]) {
            f.drop_last().push(f.last().push(c))
        } else {
            f.push(seq![c])
        }
    }
}

/// No quote, backslash or operator character.
pub open spec fn plain_text(s: Seq<char>) -> bool {
    forall|i: int| 0 <= i < s.len() ==> !(s[i] == '\\' || s[i] == '\'' || s[i] == '"' || is_meta(#[trigger] s[i]))
}

proof fn lemma_tok_plain(inp: Seq<char>, i: int, st: TokState)
    requires
        plain_text(inp),
        0 <= i <= inp.len(),
        !st.in_single && !st.in_double && !st.escaped,
        tok_flush(st).words == fields(inp.take(i)),
        (st.cur.len() > 0) == (i > 0 && !is_blank(inp[i - 1])),
    ensures
        !tok_from(inp, i, st).in_single && !tok_from(inp, i, st).in_double,
        tok_flush(tok_from(inp, i, st)).words == fields(inp),
    decreases inp.len() - i,
{
    if i == inp.len() {
        assert(inp.take(i) =~= inp);
    } else {
        let c = inp[i];
        assert(!(c == '\\' || c == '\'' || c == '"' || is_meta(c)));
        let t = inp.take(i + 1);
        assert(t.drop_last() =~= inp.take(i));
        assert(t.last() == c);
        if i >= 1 {
            assert(t[t.len() - 2] == inp[i - 1]);
        }
        if is_blank(c) {
            lemma_tok_plain(inp, i + 1, tok_flush(st));
        } else {
            let st2 = TokState { cur: st.cur.push(c), ..st };
            if st.cur.len() > 0 {
                assert(tok_flush(st).words == st.words.push(st.cur));
                assert(st.words.push(st.cur).drop_last() =~= st.words);
            } else {
                assert(st.cur.push(c) =~= seq![c]);
            }
            lemma_tok_plain(inp, i + 1, st2);
        }
    }
}

proof fn lemma_flush_nonempty(st: TokState)
    requires
        forall|k: int| 0 <= k < st.words.len() ==> #[trigger] st.words[k].len() > 0,
    ensures
        forall|k: int| 0 <= k < tok_flush(st).words.len() ==> #[trigger] tok_flush(st).words[k].len() > 0,
{
    if st.cur.len() > 0 {
        assert forall|k: int| 0 <= k < tok_flush(st).words.len() implies #[trigger] tok_flush(st).words[k].len() > 0 by {
            if k < st.words.len() {
                assert(tok_flush(st).words[k] == st.words[k]);
            }
        }
    }
}

proof fn lemma_tok_words_nonempty(inp: Seq<char>, i: int, st: TokState)
    requires
        forall|k: int| 0 <= k < st.words.len() ==> #[trigger] st.words[k].len() > 0,
    ensures
        forall|k: int|
            0 <= k < tok_flush(tok_from(inp, i, st)).words.len() ==> #[trigger] tok_flush(tok_from(inp, i, st)).words[k].len()
                > 0,
    decreases inp.len() - i,
{
    lemma_flush_nonempty(st);
    if i < 0 || i >= inp.len() {
        assert(tok_from(inp, i, st) == st);
    } else {
        let c = inp[i];
        let f = tok_flush(st);
        let w1 = f.words.push(seq![c]);
        assert forall|k: int| 0 <= k < w1.len() implies #[trigger] w1[k].len() > 0 by {
            if k < f.words.len() {
                assert(w1[k] == f.words[k]);
            }
        }
        if i + 1 < inp.len() {
            let w2 = f.words.push(seq![c, inp[i + 1]]);
            assert forall|k: int| 0 <= k < w2.len() implies #[trigger] w2[k].len() > 0 by {
                if k < f.words.len() {
                    assert(w2[k] == f.words[k]);
                }
            }
        }
        if st.escaped {
            assert(tok_from(inp, i, st) == tok_from(inp, i + 1, TokState { cur: st.cur.push(c), escaped: false, ..st }));
            lemma_tok_words_nonempty(inp, i + 1, TokState { cur: st.cur.push(c), escaped: false, ..st });
        } else if c == '\\' && !st.in_single {
            assert(tok_from(inp, i, st) == tok_from(inp, i + 1, TokState { escaped: true, ..st }));
            lemma_tok_words_nonempty(inp, i + 1, TokState { escaped: true, ..st });
        } else if c == '\'' && !st.in_double {
            assert(tok_from(inp, i, st) == tok_from(inp, i + 1, TokState { in_single: !st.in_single, ..st }));
            lemma_tok_words_nonempty(inp, i + 1, TokState { in_single: !st.in_single, ..st });
        } else if c == '"' && !st.in_single {
            assert(tok_from(inp, i, st) == tok_from(inp, i + 1, TokState { in_double: !st.in_double, ..st }));
            lemma_tok_words_nonempty(inp, i + 1, TokState { in_double: !st.in_double, ..st });
        } else if st.in_single || st.in_double {
            assert(tok_from(inp, i, st) == tok_from(inp, i + 1, TokState { cur: st.cur.push(c), ..st }));
            lemma_tok_words_nonempty(inp, i + 1, TokState { cur: st.cur.push(c), ..st });
        } else if is_blank(c) {
            assert(tok_from(inp, i, st) == tok_from(inp, i + 1, tok_flush(st)));
            lemma_tok_words_nonempty(inp, i + 1, tok_flush(st));
        } else if is_meta(c) {
            let f = tok_flush(st);
            if i + 1 < inp.len() && is_double_meta(c, inp[i + 1]) {
                assert(tok_from(inp, i, st) == tok_from(inp, i + 2, TokState { words: f.words.push(seq![c, inp[i + 1]]), ..f }));
                lemma_tok_words_nonempty(inp, i + 2, TokState { words: f.words.push(seq![c, inp[i + 1]]), ..f });
            } else {
                assert(tok_from(inp, i, st) == tok_from(inp, i + 1, TokState { words: f.words.push(seq![c]), ..f }));
                lemma_tok_words_nonempty(inp, i + 1, TokState { words: f.words.push(seq![c]), ..f });
            }
        } else {
            assert(tok_from(inp, i, st) == tok_from(inp, i + 1, TokState { cur: st.cur.push(c), ..st }));
            lemma_tok_words_nonempty(inp, i + 1, TokState { cur: st.cur.push(c), ..st });
        }
    }
}

/// Every word of a command line is nonempty; and a command line with no quote,
/// backslash or operator character splits into its blank-separated fields.
pub proof fn law_tokenize_fields(inp: Seq<char>)
    ensures
        tokenize(inp) is Some ==> forall|k: int|
            0 <= k < tokenize(inp)->Some_0.len() ==> #[trigger] tokenize(inp)->Some_0[k].len() > 0,
        plain_text(inp) ==> tokenize(inp) == Some(fields(inp)),
{
    lemma_tok_words_nonempty(inp, 0, tok_init());
    if plain_text(inp) {
        assert(inp.take(0) =~= Seq::<char>::empty());
        lemma_tok_plain(inp, 0, tok_init());
    }
}

/// A node that a pipeline can hold: a command, a subshell, an `if` or a `for`.
pub open spec fn primary_kind(a: AstView) -> bool {
    a is Command || a is Subshell || a is If || a is For
}

/// The shape of every parse result: a command has a word or a redirection; a pipeline
/// has two or more nodes, each a command, subshell, `if` or `for`; a sequence has two
/// or more nodes, none a sequence; and so on inside.
pub open spec fn well_shaped(a: AstView) -> bool
    decreases a,
{
    match a {
        AstView::Command { argv, redirects } => argv.len() > 0 || redirects.len() > 0,
        AstView::Pipeline { nodes } => nodes.len() >= 2 && forall|i: int|
            0 <= i < nodes.len() ==> primary_kind(#[trigger] nodes[i]) && well_shaped(nodes[i]),
        AstView::Sequence { nodes } => nodes.len() >= 2 && forall|i: int|
            0 <= i < nodes.len() ==> !(#[trigger] nodes[i] is Sequence) && well_shaped(nodes[i]),
        AstView::Logical { left, right, .. } => well_shaped(*left) && well_shaped(*right),
        AstView::Subshell { node } => well_shaped(*node),
        AstView::If { condition, then_part, else_part } => well_shaped(*condition) && well_shaped(*then_part) && match else_part {
            Some(e) => well_shaped(*e),
            None => true,
        },
        AstView::For { body, .. } => well_shaped(*body),
    }
}

proof fn lemma_shape_cmd_loop(w: Seq<Seq<char>>, pos: int, argv: Seq<Seq<char>>, redirects: Seq<RedirectionView>)
    ensures
        p_cmd_loop(w, pos, argv, redirects).0 is Ok ==> well_shaped(p_cmd_loop(w, pos, argv, redirects).0->Ok_0)
            && p_cmd_loop(w, pos, argv, redirects).0->Ok_0 is Command,
    decreases w.len() - pos, 1int,
{
    if 0 <= pos < w.len() && !ends_command(w[pos]) {
        let t = w[pos];
        if t == ">"@ || t == ">>"@ || t == "<"@ {
            if pos + 1 < w.len() {
                let path = w[pos + 1];
                let r = if t == ">"@ {
                    RedirectionView::StdoutOverwrite(path)
                } else if t == ">>"@ {
                    RedirectionView::StdoutAppend(path)
                } else {
                    RedirectionView::Stdin(path)
                };
                lemma_shape_cmd_loop(w, pos + 2, argv, redirects.push(r));
            }
        } else {
            lemma_shape_cmd_loop(w, pos + 1, argv.push(t), redirects);
        }
    }
}

proof fn lemma_shape_sequence(w: Seq<Seq<char>>, pos: int)
    ensures
        p_sequence(w, pos).0 is Ok ==> well_shaped(p_sequence(w, pos).0->Ok_0),
    decreases w.len() - pos, 10int,
{
    lemma_shape_seq_loop(w, pos, Seq::empty());
}

proof fn lemma_shape_seq_loop(w: Seq<Seq<char>>, pos: int, nodes: Seq<AstView>)
    requires
        forall|i: int| 0 <= i < nodes.len() ==> !(#[trigger] nodes[i] is Sequence) && well_shaped(nodes[i]),
    ensures
        p_seq_loop(w, pos, nodes).0 is Ok ==> well_shaped(p_seq_loop(w, pos, nodes).0->Ok_0),
    decreases w.len() - pos, 9int,
{
    if 0 <= pos < w.len() && !ends_sequence(w[pos]) {
        lemma_shape_logical(w, pos);
        let (r, p1) = p_logical(w, pos);
        if r is Ok && advanced(w, pos, p1) {
            let n2 = nodes.push(r->Ok_0);
            assert forall|i: int| 0 <= i < n2.len() implies !(#[trigger] n2[i] is Sequence) && well_shaped(n2[i]) by {
                if i < nodes.len() {
                    assert(n2[i] == nodes[i]);
                }
            }
            if is_word(w, p1, ";"@) {
                lemma_shape_seq_loop(w, p1 + 1, n2);
            } else {
                if n2.len() == 1 {
                    assert(n2[0] == r->Ok_0);
                }
            }
        }
    } else {
        if nodes.len() == 1 {
            assert(well_shaped(nodes[0]));
        }
    }
}

proof fn lemma_shape_logical(w: Seq<Seq<char>>, pos: int)
    ensures
        p_logical(w, pos).0 is Ok ==> well_shaped(p_logical(w, pos).0->Ok_0) && !(p_logical(w, pos).0->Ok_0 is Sequence),
    decreases w.len() - pos, 8int,
{
    lemma_shape_pipeline(w, pos);
    let (r, p1) = p_pipeline(w, pos);
    if r is Ok && advanced(w, pos, p1) {
        lemma_shape_logical_loop(w, p1, r->Ok_0);
    }
}

proof fn lemma_shape_logical_loop(w: Seq<Seq<char>>, pos: int, left: AstView)
    requires
        well_shaped(left),
        !(left is Sequence),
    ensures
        p_logical_loop(w, pos, left).0 is Ok ==> well_shaped(p_logical_loop(w, pos, left).0->Ok_0) && !(p_logical_loop(
            w,
            pos,
            left,
        ).0->Ok_0 is Sequence),
    decreases w.len() - pos, 7int,
{
    if 0 <= pos < w.len() && (w[pos] == "&&"@ || w[pos] == "||"@) {
        let op = if w[pos] == "&&"@ {
            LogicalOperator::And
        } else {
            LogicalOperator::Or
        };
        lemma_shape_pipeline(w, pos + 1);
        let (r, p2) = p_pipeline(w, pos + 1);
        if r is Ok && advanced(w, pos + 1, p2) {
            let n = AstView::Logical { left: Box::new(left), right: Box::new(r->Ok_0), operator: op };
            assert(well_shaped(n));
            lemma_shape_logical_loop(w, p2, n);
        }
    }
}

proof fn lemma_shape_pipeline(w: Seq<Seq<char>>, pos: int)
    ensures
        p_pipeline(w, pos).0 is Ok ==> well_shaped(p_pipeline(w, pos).0->Ok_0) && !(p_pipeline(w, pos).0->Ok_0 is Sequence),
    decreases w.len() - pos, 6int,
{
    lemma_shape_primary(w, pos);
    let (r, p1) = p_primary(w, pos);
    if r is Ok && advanced(w, pos, p1) {
        let ns = seq![r->Ok_0];
        assert(ns[0] == r->Ok_0);
        lemma_shape_pipe_loop(w, p1, ns);
    }
}

proof fn lemma_shape_pipe_loop(w: Seq<Seq<char>>, pos: int, nodes: Seq<AstView>)
    requires
        nodes.len() >= 1,
        forall|i: int| 0 <= i < nodes.len() ==> primary_kind(#[trigger] nodes[i]) && well_shaped(nodes[i]),
    ensures
        p_pipe_loop(w, pos, nodes).0 is Ok ==> well_shaped(p_pipe_loop(w, pos, nodes).0->Ok_0) && !(p_pipe_loop(
            w,
            pos,
            nodes,
        ).0->Ok_0 is Sequence),
    decreases w.len() - pos, 5int,
{
    if is_word(w, pos, "|"@) {
        lemma_shape_primary(w, pos + 1);
        let (r, p2) = p_primary(w, pos + 1);
        if r is Ok && advanced(w, pos + 1, p2) {
            let n2 = nodes.push(r->Ok_0);
            assert forall|i: int| 0 <= i < n2.len() implies primary_kind(#[trigger] n2[i]) && well_shaped(n2[i]) by {
                if i < nodes.len() {
                    assert(n2[i] == nodes[i]);
                }
            }
            lemma_shape_pipe_loop(w, p2, n2);
        }
    } else if nodes.len() == 1 {
        assert(primary_kind(nodes[0]) && well_shaped(nodes[0]));
    }
}

proof fn lemma_shape_primary(w: Seq<Seq<char>>, pos: int)
    ensures
        p_primary(w, pos).0 is Ok ==> well_shaped(p_primary(w, pos).0->Ok_0) && primary_kind(p_primary(w, pos).0->Ok_0),
    decreases w.len() - pos, 4int,
{
    if is_word(w, pos, "if"@) {
        lemma_shape_if(w, pos);
    } else if is_word(w, pos, "for"@) {
        lemma_shape_for(w, pos);
    } else if 0 <= pos < w.len() && is_clause_word(w[pos]) {
    } else if is_word(w, pos, "("@) {
        lemma_shape_sequence(w, pos + 1);
    } else {
        lemma_shape_cmd_loop(w, pos, Seq::empty(), Seq::empty());
    }
}

proof fn lemma_shape_if(w: Seq<Seq<char>>, pos: int)
    ensures
        p_if(w, pos).0 is Ok ==> well_shaped(p_if(w, pos).0->Ok_0) && p_if(w, pos).0->Ok_0 is If,
    decreases w.len() - pos, 3int,
{
    if 0 <= pos < w.len() {
        lemma_shape_sequence(w, pos + 1);
        let (rc, p1) = p_sequence(w, pos + 1);
        if rc is Ok && advanced(w, pos + 1, p1) && is_word(w, p1, "then"@) {
            lemma_shape_sequence(w, p1 + 1);
            let (rt, p2) = p_sequence(w, p1 + 1);
            if rt is Ok && advanced(w, p1 + 1, p2) && is_word(w, p2, "else"@) {
                lemma_shape_sequence(w, p2 + 1);
            }
        }
    }
}

proof fn lemma_shape_for(w: Seq<Seq<char>>, pos: int)
    ensures
        p_for(w, pos).0 is Ok ==> well_shaped(p_for(w, pos).0->Ok_0) && p_for(w, pos).0->Ok_0 is For,
    decreases w.len() - pos, 3int,
{
    if 0 <= pos < w.len() && pos + 1 < w.len() && is_word(w, pos + 2, "in"@) {
        let p1 = for_items_end(w, pos + 3);
        let p2 = if is_word(w, p1, ";"@) {
            p1 + 1
        } else {
            p1
        };
        if is_word(w, p2, "do"@) && pos < p2 < w.len() {
            lemma_shape_sequence(w, p2 + 1);
        }
    }
}

/// Every tree that the parser builds from words, from any position, has the shape
/// described by [`well_shaped`]: no empty command, pipelines and sequences of two or
/// more nodes, pipelines of commands, subshells, `if` and `for` only, no sequence
/// directly inside a sequence.
pub proof fn law_parse_shape(w: Seq<Seq<char>>, pos: int)
    ensures
        p_sequence(w, pos).0 is Ok ==> well_shaped(p_sequence(w, pos).0->Ok_0),
{
    lemma_shape_sequence(w, pos);
}

proof fn lemma_tok_bare_run(inp: Seq<char>, i: int, j: int, st: TokState)
    requires
        0 <= i <= j <= inp.len(),
        !st.in_single && !st.in_double && !st.escaped,
        forall|k: int|
            i <= k < j ==> !is_blank(#[trigger] inp[k]) && !is_meta(inp[k]) && inp[k] != '\\' && inp[k] != '\''
                && inp[k] != '"',
    ensures
        tok_from(inp, i, st) == tok_from(inp, j, TokState { cur: st.cur + inp.subrange(i, j), ..st }),
    decreases j - i,
{
    if i < j {
        let st2 = TokState { cur: st.cur.push(inp[i]), ..st };
        lemma_tok_bare_run(inp, i + 1, j, st2);
        assert(st.cur.push(inp[i]) + inp.subrange(i + 1, j) =~= st.cur + inp.subrange(i, j));
    } else {
        assert(st.cur + inp.subrange(i, j) =~= st.cur);
    }
}

proof fn lemma_tok_quoted_run(inp: Seq<char>, i: int, j: int, st: TokState)
    requires
        0 <= i <= j <= inp.len(),
        !st.in_single && st.in_double && !st.escaped,
        forall|k: int| i <= k < j ==> #[trigger] inp[k] != '"' && inp[k] != '\\',
    ensures
        tok_from(inp, i, st) == tok_from(inp, j, TokState { cur: st.cur + inp.subrange(i, j), ..st }),
    decreases j - i,
{
    if i < j {
        let st2 = TokState { cur: st.cur.push(inp[i]), ..st };
        lemma_tok_quoted_run(inp, i + 1, j, st2);
        assert(st.cur.push(inp[i]) + inp.subrange(i + 1, j) =~= st.cur + inp.subrange(i, j));
    } else {
        assert(st.cur + inp.subrange(i, j) =~= st.cur);
    }
}

/// Inside double quotes every character but `"` and `\` is taken as it is, a single quote
/// and blanks included: a bare word followed by a double-quoted text splits into the word
/// and the text.
pub proof fn law_double_quotes_keep_text(w: Seq<char>, q: Seq<char>)
    requires
        w.len() > 0,
        forall|k: int|
            0 <= k < w.len() ==> !is_blank(#[trigger] w[k]) && !is_meta(w[k]) && w[k] != '\\' && w[k] != '\''
                && w[k] != '"',
        q.len() > 0,
        forall|k: int| 0 <= k < q.len() ==> #[trigger] q[k] != '"' && q[k] != '\\',
    ensures
        tokenize(w + seq![' ', '"'] + q + seq!['"']) == Some(seq![w, q]),
{
    let inp = w + seq![' ', '"'] + q + seq!['"'];
    let a = w.len() as int;
    let b = a + 2 + q.len();
    assert forall|k: int|
        0 <= k < a implies !is_blank(#[trigger] inp[k]) && !is_meta(inp[k]) && inp[k] != '\\' && inp[k] != '\''
            && inp[k] != '"' by {
        assert(inp[k] == w[k]);
    }
    lemma_tok_bare_run(inp, 0, a, tok_init());
    assert(inp.subrange(0, a) =~= w);
    assert(Seq::<char>::empty() + w =~= w);
    let s1 = TokState { cur: w, ..tok_init() };
    assert(inp[a] == ' ');
    let s2 = tok_flush(s1);
    assert(s2.words =~= seq![w]);
    assert(inp[a + 1] == '"');
    let s3 = TokState { in_double: true, ..s2 };
    assert forall|k: int| a + 2 <= k < b implies #[trigger] inp[k] != '"' && inp[k] != '\\' by {
        assert(inp[k] == q[k - a - 2]);
    }
    lemma_tok_quoted_run(inp, a + 2, b, s3);
    assert(inp.subrange(a + 2, b) =~= q);
    assert(Seq::<char>::empty() + q =~= q);
    let s4 = TokState { cur: q, ..s3 };
    assert(inp[b] == '"');
    let s5 = TokState { in_double: false, ..s4 };
    assert(tok_from(inp, b + 1, s5) == s5);
    assert(tok_from(inp, b, s4) == tok_from(inp, b + 1, s5));
    assert(TokState { cur: s3.cur + inp.subrange(a + 2, b), ..s3 } == s4);
    assert(tok_from(inp, a + 1, s2) == tok_from(inp, a + 2, s3));
    assert(tok_from(inp, a, s1) == tok_from(inp, a + 1, s2));
    assert(TokState { cur: tok_init().cur + inp.subrange(0, a), ..tok_init() } == s1);
    assert(tok_from(inp, 0, tok_init()) == s5);
    assert(tok_flush(s5).words =~= seq![w, q]);
}

proof fn lemma_tok_single_run(inp: Seq<char>, i: int, j: int, st: TokState)
    requires
        0 <= i <= j <= inp.len(),
        st.in_single && !st.in_double && !st.escaped,
        forall|k: int| i <= k < j ==> #[trigger] inp[k] != '\'',
    ensures
        tok_from(inp, i, st) == tok_from(inp, j, TokState { cur: st.cur + inp.subrange(i, j), ..st }),
    decreases j - i,
{
    if i < j {
        let st2 = TokState { cur: st.cur.push(inp[i]), ..st };
        lemma_tok_single_run(inp, i + 1, j, st2);
        assert(st.cur.push(inp[i]) + inp.subrange(i + 1, j) =~= st.cur + inp.subrange(i, j));
    } else {
        assert(st.cur + inp.subrange(i, j) =~= st.cur);
    }
}

/// Inside single quotes every character but `'` is taken as it is, double quotes,
/// backslashes, blanks and operators included: a bare word followed by a single-quoted
/// text splits into the word and the text.
pub proof fn law_single_quotes_keep_text(w: Seq<char>, q: Seq<char>)
    requires
        w.len() > 0,
        forall|k: int|
            0 <= k < w.len() ==> !is_blank(#[trigger] w[k]) && !is_meta(w[k]) && w[k] != '\\' && w[k] != '\''
                && w[k] != '"',
        q.len() > 0,
        forall|k: int| 0 <= k < q.len() ==> #[trigger] q[k] != '\'',
    ensures
        tokenize(w + seq![' ', '\''] + q + seq!['\'']) == Some(seq![w, q]),
{
    let inp = w + seq![' ', '\''] + q + seq!['\''];
    let a = w.len() as int;
    let b = a + 2 + q.len();
    assert forall|k: int|
        0 <= k < a implies !is_blank(#[trigger] inp[k]) && !is_meta(inp[k]) && inp[k] != '\\' && inp[k] != '\''
            && inp[k] != '"' by {
        assert(inp[k] == w[k]);
    }
    lemma_tok_bare_run(inp, 0, a, tok_init());
    assert(inp.subrange(0, a) =~= w);
    let s1 = TokState { cur: w, ..tok_init() };
    assert(TokState { cur: tok_init().cur + inp.subrange(0, a), ..tok_init() } == s1);
    assert(inp[a] == ' ');
    let s2 = tok_flush(s1);
    assert(s2.words =~= seq![w]);
    assert(inp[a + 1] == '\'');
    let s3 = TokState { in_single: true, ..s2 };
    assert forall|k: int| a + 2 <= k < b implies #[trigger] inp[k] != '\'' by {
        assert(inp[k] == q[k - a - 2]);
    }
    lemma_tok_single_run(inp, a + 2, b, s3);
    assert(inp.subrange(a + 2, b) =~= q);
    let s4 = TokState { cur: q, ..s3 };
    assert(TokState { cur: s3.cur + inp.subrange(a + 2, b), ..s3 } == s4);
    assert(inp[b] == '\'');
    let s5 = TokState { in_single: false, ..s4 };
    assert(tok_from(inp, b + 1, s5) == s5);
    assert(tok_from(inp, b, s4) == tok_from(inp, b + 1, s5));
    assert(tok_from(inp, a + 1, s2) == tok_from(inp, a + 2, s3));
    assert(tok_from(inp, a, s1) == tok_from(inp, a + 1, s2));
    assert(tok_from(inp, 0, tok_init()) == s5);
    assert(tok_flush(s5).words =~= seq![w, q]);
}

} // verus!
