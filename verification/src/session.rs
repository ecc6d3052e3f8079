//! A shell session: working directory, variables, limits and the file system.
use vstd::prelude::*;
use crate::fs::{VirtualFs, FsMap, empty_dir};
use crate::limits::ZillLimits;
use crate::path::slash;
use crate::text::{owned, push_char, str_eq, chars_of, string_from_chars};

verus! {

/// The UTF-8 encoding of a string.
pub open spec fn utf8(s: Seq<char>) -> Seq<u8> {
    vstd::utf8::encode_utf8(s)
}

/// The encoding of a concatenation is the concatenation of the encodings.
pub proof fn lemma_utf8_concat(a: Seq<char>, b: Seq<char>)
    ensures
        utf8(a + b) == utf8(a) + utf8(b),
    decreases a.len(),
{
    if a.len() == 0 {
        assert(a + b =~= b);
        assert(utf8(a) =~= Seq::<u8>::empty());
        assert(utf8(a) + utf8(b) =~= utf8(b));
    } else {
        assert((a + b).drop_first() =~= a.drop_first() + b);
        assert((a + b)[0] == a[0]);
        lemma_utf8_concat(a.drop_first(), b);
        let e = vstd::utf8::encode_scalar(a[0] as u32);
        assert(e + (utf8(a.drop_first()) + utf8(b)) =~= (e + utf8(a.drop_first())) + utf8(b));
    }
}

/// Appends the UTF-8 bytes of `s` to `out`.
pub fn write_str(out: &mut Vec<u8>, s: &str)
    ensures
        final(out)@ == old(out)@ + utf8(s@),
{
    let bs = s.as_bytes();
    let mut i: usize = 0;
    while i < bs.len()
        invariant
            i <= bs@.len(),
            bs@ == utf8(s@),
            out@ == old(out)@ + bs@.take(i as int),
        decreases bs.len() - i,
    {
        out.push(bs[i]);
        assert(bs@.take(i + 1) =~= bs@.take(i as int).push(bs@[i as int]));
        i += 1;
    }
    assert(bs@.take(bs@.len() as int) =~= bs@);
}

/// Appends bytes to `out`.
pub fn write_bytes(out: &mut Vec<u8>, bs: &[u8])
    ensures
        final(out)@ == old(out)@ + bs@,
{
    let mut i: usize = 0;
    while i < bs.len()
        invariant
            i <= bs@.len(),
            out@ == old(out)@ + bs@.take(i as int),
        decreases bs.len() - i,
    {
        out.push(bs[i]);
        assert(bs@.take(i + 1) =~= bs@.take(i as int).push(bs@[i as int]));
        i += 1;
    }
    assert(bs@.take(bs@.len() as int) =~= bs@);
}

/// What `String::from_utf8_lossy` makes of a byte string.
pub uninterp spec fn lossy(b: Seq<u8>) -> Seq<char>;

/// The text of a byte string: its characters when it is valid UTF-8, otherwise what
/// `String::from_utf8_lossy` makes of it.
pub open spec fn text_of(b: Seq<u8>) -> Seq<char> {
    if vstd::utf8::valid_utf8(b) {
        vstd::utf8::decode_utf8(b)
    } else {
        lossy(b)
    }
}

/// Decodes bytes as UTF-8, replacing invalid sequences (calls `String::from_utf8_lossy`):
/// the result is `lossy(b)`, and valid UTF-8 is decoded as it is.
#[verifier::external_body]
pub(crate) fn from_utf8_lossy(b: &[u8]) -> (r: String)
    ensures
        r@ == lossy(b@),
        vstd::utf8::valid_utf8(b@) ==> r@ == vstd::utf8::decode_utf8(b@),
{
    String::from_utf8_lossy(b).into_owned()
}

/// The result of running a command line.
#[derive(Debug, Clone)]
pub struct CmdOutput {
    /// Text written to standard output.
    pub stdout: String,
    /// Text written to standard error.
    pub stderr: String,
    /// Exit code (0 for success).
    pub exit_code: i32,
}

impl CmdOutput {
    /// A successful output with the given standard output.
    pub fn success(stdout: String) -> (r: Self)
        ensures
            r.stdout@ == stdout@,
            r.stderr@ == Seq::<char>::empty(),
            r.exit_code == 0,
    {
        CmdOutput { stdout, stderr: String::new(), exit_code: 0 }
    }

    /// A failed output with the given standard error and exit code.
    pub fn error(stderr: String, exit_code: i32) -> (r: Self)
        ensures
            r.stdout@ == Seq::<char>::empty(),
            r.stderr@ == stderr@,
            r.exit_code == exit_code,
    {
        CmdOutput { stdout: String::new(), stderr, exit_code }
    }
}

/// The value bound to `k`: the last binding of it in the list wins.
pub open spec fn lookup(s: Seq<(String, String)>, k: Seq<char>) -> Option<Seq<char>>
    decreases s.len(),
{
    if s.len() == 0 {
        None
    } else if s.last().0@ == k {
        Some(s.last().1@)
    } else {
        lookup(s.drop_last(), k)
    }
}

/// The bindings that a list of pairs makes: the last pair with a name wins.
pub open spec fn pairs_map(s: Seq<(String, String)>) -> Map<Seq<char>, Seq<char>> {
    Map::new(|k: Seq<char>| lookup(s, k) is Some, |k: Seq<char>| lookup(s, k)->Some_0)
}

/// A set of variable bindings.
pub struct Vars {
    entries: Vec<(String, String)>,
}

impl View for Vars {
    type V = Map<Seq<char>, Seq<char>>;

    closed spec fn view(&self) -> Map<Seq<char>, Seq<char>> {
        pairs_map(self.entries@)
    }
}

impl Vars {
    /// No bindings.
    pub fn new() -> (r: Self)
        ensures
            r@ == Map::<Seq<char>, Seq<char>>::empty(),
    {
        let r = Vars { entries: Vec::new() };
        assert(r@ =~= Map::<Seq<char>, Seq<char>>::empty());
        r
    }

    /// The value bound to `k`.
    pub fn get(&self, k: &str) -> (r: Option<&str>)
        ensures
            match r {
                Some(v) => self@.contains_key(k@) && self@[k@] == v@,
                None => !self@.contains_key(k@),
            },
    {
        let mut i = self.entries.len();
        assert(self.entries@.take(i as int) =~= self.entries@);
        while i > 0
            invariant
                i <= self.entries@.len(),
                lookup(self.entries@, k@) == lookup(self.entries@.take(i as int), k@),
            decreases i,
        {
            let ghost t = self.entries@.take(i as int);
            assert(t.drop_last() =~= self.entries@.take(i - 1));
            if str_eq(self.entries[i - 1].0.as_str(), k) {
                return Some(self.entries[i - 1].1.as_str());
            }
            i -= 1;
        }
        None
    }

    /// Binds `k` to `v`.
    pub fn set(&mut self, k: String, v: String)
        ensures
            final(self)@ == old(self)@.insert(k@, v@),
    {
        let ghost kv = k@;
        let ghost vv = v@;
        let ghost s0 = self.entries@;
        let mut i = self.entries.len();
        while i > 0
            invariant
                i <= self.entries@.len(),
                self.entries@ == s0,
                s0 == old(self).entries@,
                kv == k@,
                vv == v@,
                forall|j: int| i <= j < s0.len() ==> #[trigger] s0[j].0@ != kv,
            decreases i,
        {
            if str_eq(self.entries[i - 1].0.as_str(), k.as_str()) {
                let idx = i - 1;
                let e = (k, v);
                let ghost ge = e;
                assert(ge.0@ == kv && ge.1@ == vv);
                self.entries[idx] = e;
                proof {
                    assert(self.entries@ == s0.update(idx as int, ge));
                    assert forall|key: Seq<char>| #[trigger] lookup(self.entries@, key) == (if key == kv {
                        Some(vv)
                    } else {
                        lookup(s0, key)
                    }) by {
                        lemma_lookup_update(s0, idx as int, ge, key);
                    }
                    assert(self@ =~= old(self)@.insert(kv, vv));
                }
                return;
            }
            i -= 1;
        }
        self.entries.push((k, v));
        proof {
            assert(self.entries@.drop_last() =~= s0);
            assert(self@ =~= old(self)@.insert(kv, vv));
        }
    }

    /// The bindings as name and value pairs.
    pub fn pairs(&self) -> (r: Vec<(String, String)>)
        ensures
            pairs_map(r@) == self@,
    {
        let mut entries: Vec<(String, String)> = Vec::new();
        let mut i: usize = 0;
        while i < self.entries.len()
            invariant
                i <= self.entries@.len(),
                entries@.len() == i,
                forall|j: int|
                    0 <= j < i ==> #[trigger] entries@[j].0@ == self.entries@[j].0@ && entries@[j].1@
                        == self.entries@[j].1@,
            decreases self.entries.len() - i,
        {
            let a = owned(self.entries[i].0.as_str());
            let b = owned(self.entries[i].1.as_str());
            entries.push((a, b));
            i += 1;
        }
        proof {
            assert forall|key: Seq<char>| #[trigger] lookup(entries@, key) == lookup(self.entries@, key) by {
                lemma_lookup_same(entries@, self.entries@, key);
            }
            assert(pairs_map(entries@) =~= self@);
        }
        entries
    }

    /// The bindings of a list of pairs; of two pairs with one name, the later wins.
    pub fn from_pairs(v: Vec<(String, String)>) -> (r: Self)
        ensures
            r@ == pairs_map(v@),
    {
        Vars { entries: v }
    }

    /// A copy of the bindings.
    pub fn duplicate(&self) -> (r: Self)
        ensures
            r@ == self@,
    {
        Self::from_pairs(self.pairs())
    }
}

proof fn lemma_lookup_same(a: Seq<(String, String)>, b: Seq<(String, String)>, k: Seq<char>)
    requires
        a.len() == b.len(),
        forall|j: int| 0 <= j < a.len() ==> #[trigger] a[j].0@ == b[j].0@ && a[j].1@ == b[j].1@,
    ensures
        lookup(a, k) == lookup(b, k),
    decreases a.len(),
{
    if a.len() > 0 {
        assert(a[a.len() - 1].0@ == b[b.len() - 1].0@);
        lemma_lookup_same(a.drop_last(), b.drop_last(), k);
    }
}

proof fn lemma_lookup_update(s: Seq<(String, String)>, idx: int, e: (String, String), key: Seq<char>)
    requires
        0 <= idx < s.len(),
        s[idx].0@ == e.0@,
        forall|j: int| idx < j < s.len() ==> #[trigger] s[j].0@ != e.0@,
    ensures
        lookup(s.update(idx, e), key) == (if key == e.0@ {
            Some(e.1@)
        } else {
            lookup(s, key)
        }),
    decreases s.len(),
{
    let s2 = s.update(idx, e);
    if idx == s.len() - 1 {
        assert(s2.drop_last() =~= s.drop_last());
    } else {
        assert(s2.drop_last() =~= s.drop_last().update(idx, e));
        lemma_lookup_update(s.drop_last(), idx, e, key);
    }
}

/// Whether `c` is alphanumeric in Unicode, as `char::is_alphanumeric` decides.
pub uninterp spec fn unicode_alphanumeric(c: char) -> bool;

/// An ASCII letter or digit.
pub open spec fn ascii_alphanumeric(c: char) -> bool {
    ('a' <= c && c <= 'z') || ('A' <= c && c <= 'Z') || ('0' <= c && c <= '9')
}

/// Whether `c` is alphanumeric (calls `char::is_alphanumeric`). As std documents it, that
/// is `is_alphabetic() || is_numeric()`, which on ASCII holds exactly for letters and digits.
#[verifier::external_body]
fn is_alphanumeric(c: char) -> (r: bool)
    ensures
        r == unicode_alphanumeric(c),
        c <= '\u{7f}' ==> (r == ascii_alphanumeric(c)),
{
    c.is_alphanumeric()
}

pub open spec fn is_name_char(c: char) -> bool {
    unicode_alphanumeric(c) || c == '_'
}

/// The end of the variable name that starts at `j`.
pub open spec fn name_end(s: Seq<char>, j: int) -> int
    decreases s.len() - j,
{
    if 0 <= j < s.len() && is_name_char(s[j]) {
        name_end(s, j + 1)
    } else {
        j
    }
}

pub proof fn lemma_name_end(s: Seq<char>, j: int)
    ensures
        name_end(s, j) >= j,
        0 <= j <= s.len() ==> name_end(s, j) <= s.len(),
    decreases s.len() - j,
{
    if 0 <= j < s.len() && is_name_char(s[j]) {
        lemma_name_end(s, j + 1);
    }
}

/// The value a `$name` reference expands to.
pub open spec fn var_value(
    name: Seq<char>,
    vars: Map<Seq<char>, Seq<char>>,
    env: Map<Seq<char>, Seq<char>>,
) -> Seq<char> {
    if vars.contains_key(name) {
        vars[name]
    } else if env.contains_key(name) {
        env[name]
    } else if name.len() == 0 {
        seq!['$']
    } else {
        Seq::empty()
    }
}

/// `s` from position `i` with `$name` and `${name}` replaced by the values of variables
/// (then of the environment); an unknown name expands to nothing, an empty name to `$`.
pub open spec fn expand_from(
    s: Seq<char>,
    i: int,
    vars: Map<Seq<char>, Seq<char>>,
    env: Map<Seq<char>, Seq<char>>,
) -> Seq<char>
    decreases s.len() - i,
{
    if i < 0 || i >= s.len() {
        Seq::empty()
    } else if s[i] == '$' {
        let braced = i + 1 < s.len() && s[i + 1] == '{';
        let j1 = if braced {
            i + 2
        } else {
            i + 1
        };
        let j2 = name_end(s, j1);
        let name = s.subrange(j1, j2);
        let j3 = if braced && j2 < s.len() && s[j2] == '}' {
            j2 + 1
        } else {
            j2
        };
        proof {
            lemma_name_end(s, j1);
        }
        var_value(name, vars, env) + expand_from(s, j3, vars, env)
    } else {
        seq![s[i]] + expand_from(s, i + 1, vars, env)
    }
}

pub open spec fn expand(
    s: Seq<char>,
    vars: Map<Seq<char>, Seq<char>>,
    env: Map<Seq<char>, Seq<char>>,
) -> Seq<char> {
    expand_from(s, 0, vars, env)
}

proof fn lemma_name_runs_to_end(s: Seq<char>, j: int)
    requires
        0 <= j <= s.len(),
        forall|k: int| j <= k < s.len() ==> #[trigger] s[k] == '_' || unicode_alphanumeric(s[k]),
    ensures
        name_end(s, j) == s.len(),
    decreases s.len() - j,
{
    if j < s.len() {
        lemma_name_runs_to_end(s, j + 1);
    }
}

/// A variable whose name is made of alphanumeric characters (as `char::is_alphanumeric`
/// decides) and underscores expands, as `$name`, to its whole value: the session's
/// variable first, then the environment's.
pub proof fn law_expand_variable(
    n: Seq<char>,
    vars: Map<Seq<char>, Seq<char>>,
    env: Map<Seq<char>, Seq<char>>,
)
    requires
        n.len() > 0,
        n[0] != '{',
        forall|k: int| 0 <= k < n.len() ==> #[trigger] n[k] == '_' || unicode_alphanumeric(n[k]),
    ensures
        vars.contains_key(n) ==> expand("$"@ + n, vars, env) == vars[n],
        !vars.contains_key(n) && env.contains_key(n) ==> expand("$"@ + n, vars, env) == env[n],
{
    reveal_strlit("$");
    let s = "$"@ + n;
    assert(s[0] == '$');
    assert forall|k: int| 1 <= k < s.len() implies #[trigger] s[k] == '_' || unicode_alphanumeric(s[k]) by {
        assert(s[k] == n[k - 1]);
    }
    assert(s[1] == n[0]);
    lemma_name_runs_to_end(s, 1);
    assert(s.subrange(1, s.len() as int) =~= n);
    assert(expand_from(s, s.len() as int, vars, env) == Seq::<char>::empty());
    assert(expand(s, vars, env) =~= var_value(n, vars, env));
}

proof fn lemma_expand_plain_from(s: Seq<char>, i: int, vars: Map<Seq<char>, Seq<char>>, env: Map<Seq<char>, Seq<char>>)
    requires
        0 <= i <= s.len(),
        forall|k: int| 0 <= k < s.len() ==> #[trigger] s[k] != '$',
    ensures
        expand_from(s, i, vars, env) == s.subrange(i, s.len() as int),
    decreases s.len() - i,
{
    if i < s.len() {
        lemma_expand_plain_from(s, i + 1, vars, env);
        assert(seq![s[i]] + s.subrange(i + 1, s.len() as int) =~= s.subrange(i, s.len() as int));
    } else {
        assert(s.subrange(i, s.len() as int) =~= Seq::<char>::empty());
    }
}

/// Text without `$` is left as it is by variable expansion, whatever the variables.
pub proof fn law_expand_plain_text(s: Seq<char>, vars: Map<Seq<char>, Seq<char>>, env: Map<Seq<char>, Seq<char>>)
    requires
        forall|k: int| 0 <= k < s.len() ==> #[trigger] s[k] != '$',
    ensures
        expand(s, vars, env) == s,
{
    lemma_expand_plain_from(s, 0, vars, env);
    assert(s.subrange(0, s.len() as int) =~= s);
}

/// Replaces variable references in `input` with their values.
pub fn expand_with(input: &str, variables: &Vars, env: &Vars) -> (r: String)
    ensures
        r@ == expand(input@, variables@, env@),
{
    let s = chars_of(input);
    let ghost sv = s@;
    let ghost target = expand(sv, variables@, env@);
    let mut result = String::new();
    let mut i: usize = 0;
    while i < s.len()
        invariant
            i <= s@.len(),
            sv == s@,
            sv == input@,
            target == expand(sv, variables@, env@),
            result@ + expand_from(sv, i as int, variables@, env@) == target,
        decreases s.len() - i,
    {
        let c = s[i];
        if c == '$' {
            let ghost i0 = i as int;
            let braced = i + 1 < s.len() && s[i + 1] == '{';
            let j1 = if braced {
                i + 2
            } else {
                i + 1
            };
            let mut j2 = j1;
            proof {
                lemma_name_end(sv, j1 as int);
            }
            while j2 < s.len() && (is_alphanumeric(s[j2]) || s[j2] == '_')
                invariant
                    j1 <= j2 <= s@.len(),
                    sv == s@,
                    name_end(sv, j1 as int) == name_end(sv, j2 as int),
                decreases s.len() - j2,
            {
                j2 += 1;
            }
            let name = crate::text::string_from_range(s.as_slice(), j1, j2);
            let j3 = if braced && j2 < s.len() && s[j2] == '}' {
                j2 + 1
            } else {
                j2
            };
            let ghost nm = sv.subrange(j1 as int, j2 as int);
            assert(name@ == nm);
            let ghost val = var_value(nm, variables@, env@);
            match variables.get(name.as_str()) {
                Some(v) => {
                    result.append(v);
                },
                None => match env.get(name.as_str()) {
                    Some(v) => {
                        result.append(v);
                    },
                    None => {
                        if j1 == j2 {
                            push_char(&mut result, '$');
                            assert(nm.len() == 0);
                        }
                    },
                },
            }
            assert(result@ + expand_from(sv, j3 as int, variables@, env@) == target) by {
                assert(expand_from(sv, i0, variables@, env@) == val + expand_from(sv, j3 as int, variables@, env@));
            }
            i = j3;
        } else {
            push_char(&mut result, c);
            assert(result@ + expand_from(sv, i + 1, variables@, env@) == target) by {
                assert(expand_from(sv, i as int, variables@, env@) == seq![c] + expand_from(sv, i + 1, variables@, env@));
            }
            i += 1;
        }
    }
    result
}

/// The mathematical state of a session.
pub struct SessView {
    pub fs: FsMap,
    pub cwd: Seq<char>,
    pub env: Map<Seq<char>, Seq<char>>,
    pub vars: Map<Seq<char>, Seq<char>>,
    pub limits: ZillLimits,
    /// The time stamped on the changes that the current command makes.
    pub now: i64,
    pub node_limit: usize,
    pub size_limit: usize,
}

/// What a builtin or a command does: the new state, the bytes it wrote to standard
/// output and standard error, and its exit code or error.
pub struct BOut {
    pub st: SessView,
    pub out: Seq<u8>,
    pub err: Seq<u8>,
    pub res: Result<i32, crate::error::ErrView>,
}

/// A shell session: the file system, the working directory, variables and limits.
pub struct ZillSession {
    pub vfs: VirtualFs,
    pub cwd: String,
    pub env: Vars,
    pub variables: Vars,
    pub limits: ZillLimits,
    /// The time stamped on the changes that the current command makes,
    /// in microseconds since the Unix epoch.
    pub now: i64,
}

impl View for ZillSession {
    type V = SessView;

    open spec fn view(&self) -> SessView {
        SessView {
            fs: self.vfs@,
            cwd: self.cwd@,
            env: self.env@,
            vars: self.variables@,
            limits: self.limits,
            now: self.now,
            node_limit: self.vfs.node_limit(),
            size_limit: self.vfs.size_limit(),
        }
    }
}

impl ZillSession {
    /// The session is consistent when its file system is.
    pub open spec fn wf(&self) -> bool {
        self.vfs.wf()
    }

    /// A new session with the default limits.
    pub fn new() -> (r: Self)
        ensures
            r.wf(),
            r@.cwd == slash(),
            r@.env == Map::<Seq<char>, Seq<char>>::empty(),
            r@.vars == Map::<Seq<char>, Seq<char>>::empty(),
            r.limits.max_nodes == 10000,
            r.limits.max_file_size == 1024 * 1024,
            r.limits.max_match_count == 1000,
            r.limits.max_output_size == 100 * 1024,
            r@.node_limit == r.limits.max_nodes,
            r@.size_limit == r.limits.max_file_size,
            r.now == 0,
            r@.fs == Map::<Seq<char>, crate::fs::NodeView>::empty().insert(slash(), empty_dir(0)),
            crate::shell_laws::tree_of(r@) && crate::shell_laws::session_within(r@),
    {
        proof {
            crate::shell_laws::law_new_is_tree(0, 10000usize, 1048576usize);
        }
        Self::with_limits(ZillLimits::default())
    }

    /// A new session with the given limits, holding only the root directory. The session
    /// keeps its own clock, which starts at time 0 (see `run`), so that sessions given the
    /// same command lines print the same output.
    pub fn with_limits(limits: ZillLimits) -> (r: Self)
        ensures
            r.wf(),
            r@.cwd == slash(),
            r@.env == Map::<Seq<char>, Seq<char>>::empty(),
            r@.vars == Map::<Seq<char>, Seq<char>>::empty(),
            r.limits == limits,
            r@.node_limit == limits.max_nodes,
            r@.size_limit == limits.max_file_size,
            r.now == 0,
            r@.fs == Map::<Seq<char>, crate::fs::NodeView>::empty().insert(slash(), empty_dir(0)),
            limits.max_nodes >= 1 ==> crate::shell_laws::tree_of(r@) && crate::shell_laws::session_within(r@),
    {
        proof {
            if limits.max_nodes >= 1 {
                crate::shell_laws::law_new_is_tree(0, limits.max_nodes, limits.max_file_size);
            }
        }
        let now: i64 = 0;
        let vfs = VirtualFs::new_at(limits.max_nodes, limits.max_file_size, now);
        proof {
            reveal_strlit("/");
            assert("/"@ =~= slash());
        }
        ZillSession {
            vfs,
            cwd: owned("/"),
            env: Vars::new(),
            variables: Vars::new(),
            limits,
            now,
        }
    }

    /// Replaces variable references in `input` with their values.
    pub fn expand_variables(&self, input: &str) -> (r: String)
        ensures
            r@ == expand(input@, self@.vars, self@.env),
    {
        expand_with(input, &self.variables, &self.env)
    }
}

pub open spec fn res_i32(r: Result<i32, crate::error::ZillError>) -> Result<i32, crate::error::ErrView> {
    match r {
        Ok(c) => Ok(c),
        Err(e) => Err(e@),
    }
}

} // verus!
