//! Paths as strings, with the component rules of `std::path` on Unix.
use vstd::prelude::*;
use crate::text::{chars_of, string_from_chars};

verus! {

pub open spec fn slash() -> Seq<char> {
    seq!['/']
}

pub open spec fn dot() -> Seq<char> {
    seq!['.']
}

pub open spec fn dotdot() -> Seq<char> {
    seq!['.', '.']
}

/// Whether a path starts at the root.
pub open spec fn is_abs(p: Seq<char>) -> bool {
    p.len() > 0 && p[0] == '/'
}

/// The pieces of `p` from position `i` between separators; `cur` is the piece read so far.
pub open spec fn pieces_from(p: Seq<char>, i: int, cur: Seq<char>) -> Seq<Seq<char>>
    decreases p.len() - i,
{
    if i < 0 || i >= p.len() {
        seq![cur]
    } else if p[i] == '/' {
        seq![cur] + pieces_from(p, i + 1, Seq::empty())
    } else {
        pieces_from(p, i + 1, cur.push(p[i]))
    }
}

/// The pieces of `p` between separators, empty ones included.
pub open spec fn pieces(p: Seq<char>) -> Seq<Seq<char>> {
    pieces_from(p, 0, Seq::empty())
}

/// The pieces that are neither empty nor `.`.
pub open spec fn keep_pieces(ps: Seq<Seq<char>>) -> Seq<Seq<char>>
    decreases ps.len(),
{
    if ps.len() == 0 {
        Seq::empty()
    } else {
        let r = keep_pieces(ps.drop_last());
        let x = ps.last();
        if x.len() == 0 || x == dot() {
            r
        } else {
            r.push(x)
        }
    }
}

/// Whether a relative path starts with a `.` component.
pub open spec fn leading_cur_dir(p: Seq<char>) -> bool {
    !is_abs(p) && pieces(p)[0] == dot()
}

/// The components of `p` after the root, as `Path::components` yields them:
/// separators collapse, `.` is dropped except at the start of a relative path.
pub open spec fn comps(p: Seq<char>) -> Seq<Seq<char>> {
    if leading_cur_dir(p) {
        seq![dot()] + keep_pieces(pieces(p))
    } else {
        keep_pieces(pieces(p))
    }
}

/// Components joined by `/`.
pub open spec fn join_comps(cs: Seq<Seq<char>>) -> Seq<char>
    decreases cs.len(),
{
    if cs.len() == 0 {
        Seq::empty()
    } else if cs.len() == 1 {
        cs[0]
    } else {
        join_comps(cs.drop_last()) + slash() + cs.last()
    }
}

/// The path with the given root flag and components, in normal form.
pub open spec fn render(abs: bool, cs: Seq<Seq<char>>) -> Seq<char> {
    if abs {
        slash() + join_comps(cs)
    } else {
        join_comps(cs)
    }
}

/// The normal form of `p`: two paths are equal as `Path`s exactly when their normal forms are.
pub open spec fn norm(p: Seq<char>) -> Seq<char> {
    render(is_abs(p), comps(p))
}

/// The parent of `p`, as `Path::parent` gives it, in normal form.
pub open spec fn parent_of(p: Seq<char>) -> Option<Seq<char>> {
    let cs = comps(p);
    if cs.len() == 0 {
        None
    } else {
        Some(render(is_abs(p), cs.drop_last()))
    }
}

/// The last component of `p` when it is a name, as `Path::file_name` gives it.
pub open spec fn file_name_of(p: Seq<char>) -> Option<Seq<char>> {
    let cs = comps(p);
    if cs.len() == 0 || cs.last() == dot() || cs.last() == dotdot() {
        None
    } else {
        Some(cs.last())
    }
}

/// The names among the components of `p` (neither `.` nor `..`).
pub open spec fn normal_names(cs: Seq<Seq<char>>) -> Seq<Seq<char>>
    decreases cs.len(),
{
    if cs.len() == 0 {
        Seq::empty()
    } else {
        let r = normal_names(cs.drop_last());
        if cs.last() == dot() || cs.last() == dotdot() {
            r
        } else {
            r.push(cs.last())
        }
    }
}

/// A name that an entry can have: not empty, not `.` or `..`, without `/`.
pub open spec fn valid_name(n: Seq<char>) -> bool {
    &&& n.len() > 0
    &&& n != seq!['.'] && n != seq!['.', '.']
    &&& forall|k: int| 0 <= k < n.len() ==> #[trigger] n[k] != '/'
}

/// The key of a child `name` of the directory whose normal form is `dir`.
pub open spec fn child_key(dir: Seq<char>, name: Seq<char>) -> Seq<char> {
    if dir == slash() {
        dir + name
    } else {
        dir + slash() + name
    }
}

/// The extension of a file name, as `Path::extension` gives it.
pub open spec fn extension_of(name: Seq<char>) -> Option<Seq<char>> {
    if name == dotdot() {
        None
    } else {
        match last_dot(name, name.len() as int) {
            Some(k) => if k == 0 {
                None
            } else {
                Some(name.subrange(k + 1, name.len() as int))
            },
            None => None,
        }
    }
}

/// The position of the last `.` in `s` before position `n`.
pub open spec fn last_dot(s: Seq<char>, n: int) -> Option<int>
    decreases n,
{
    if n <= 0 || n > s.len() {
        None
    } else if s[n - 1] == '.' {
        Some(n - 1)
    } else {
        last_dot(s, n - 1)
    }
}

pub proof fn lemma_pieces_nonempty(p: Seq<char>, i: int, cur: Seq<char>)
    ensures
        pieces_from(p, i, cur).len() >= 1,
    decreases p.len() - i,
{
    if !(i < 0 || i >= p.len()) {
        if p[i] == '/' {
            lemma_pieces_nonempty(p, i + 1, Seq::empty());
        } else {
            lemma_pieces_nonempty(p, i + 1, cur.push(p[i]));
        }
    }
}

pub proof fn lemma_keep_nonempty(ps: Seq<Seq<char>>)
    ensures
        forall|k: int| 0 <= k < keep_pieces(ps).len() ==> #[trigger] keep_pieces(ps)[k].len() > 0,
    decreases ps.len(),
{
    if ps.len() > 0 {
        lemma_keep_nonempty(ps.drop_last());
        let r = keep_pieces(ps.drop_last());
        assert forall|k: int| 0 <= k < keep_pieces(ps).len() implies #[trigger] keep_pieces(ps)[k].len() > 0 by {
            if k < r.len() {
                assert(keep_pieces(ps)[k] == r[k]);
            }
        }
    }
}

/// Every component of a path is a nonempty string.
pub proof fn lemma_comps_nonempty(p: Seq<char>)
    ensures
        forall|k: int| 0 <= k < comps(p).len() ==> #[trigger] comps(p)[k].len() > 0,
{
    lemma_keep_nonempty(pieces(p));
    if leading_cur_dir(p) {
        let k = keep_pieces(pieces(p));
        assert forall|j: int| 0 <= j < comps(p).len() implies #[trigger] comps(p)[j].len() > 0 by {
            if j > 0 {
                assert(comps(p)[j] == k[j - 1]);
            }
        }
    }
}

/// The names taken from nonempty components are nonempty.
pub proof fn lemma_names_nonempty(cs: Seq<Seq<char>>)
    requires
        forall|k: int| 0 <= k < cs.len() ==> #[trigger] cs[k].len() > 0,
    ensures
        forall|k: int| 0 <= k < normal_names(cs).len() ==> #[trigger] normal_names(cs)[k].len() > 0,
    decreases cs.len(),
{
    if cs.len() > 0 {
        let d = cs.drop_last();
        assert forall|k: int| 0 <= k < d.len() implies #[trigger] d[k].len() > 0 by {
            assert(d[k] == cs[k]);
        }
        lemma_names_nonempty(d);
        let r = normal_names(d);
        assert forall|k: int| 0 <= k < normal_names(cs).len() implies #[trigger] normal_names(cs)[k].len() > 0 by {
            if k < r.len() {
                assert(normal_names(cs)[k] == r[k]);
            }
        }
    }
}

/// The pieces of a path between separators.
fn split_pieces(p: &Vec<char>) -> (r: Vec<Vec<char>>)
    ensures
        r@.map_values(|v: Vec<char>| v@) == pieces(p@),
{
    let mut r: Vec<Vec<char>> = Vec::new();
    let mut cur: Vec<char> = Vec::new();
    let mut i: usize = 0;
    assert(r@.map_values(|v: Vec<char>| v@) + pieces_from(p@, 0, cur@) =~= pieces(p@));
    while i < p.len()
        invariant
            i <= p.len(),
            r@.map_values(|v: Vec<char>| v@) + pieces_from(p@, i as int, cur@) == pieces(p@),
        decreases p.len() - i,
    {
        let c = p[i];
        if c == '/' {
            let ghost before = r@.map_values(|v: Vec<char>| v@);
            let ghost rest = pieces_from(p@, i + 1, Seq::empty());
            let piece = cur;
            cur = Vec::new();
            r.push(piece);
            assert(r@.map_values(|v: Vec<char>| v@) =~= before.push(piece@));
            assert(before + (seq![piece@] + rest) =~= before.push(piece@) + rest);
        } else {
            cur.push(c);
        }
        i += 1;
    }
    let ghost before = r@.map_values(|v: Vec<char>| v@);
    r.push(cur);
    assert(r@.map_values(|v: Vec<char>| v@) =~= before + pieces_from(p@, i as int, r@.last()@));
    r
}

/// The components of a path, as `Path::components` yields them after the root.
pub fn components(p: &str) -> (r: Vec<String>)
    ensures
        r@.map_values(|s: String| s@) == comps(p@),
{
    let chars = chars_of(p);
    let ps = split_pieces(&chars);
    let ghost psv = ps@.map_values(|v: Vec<char>| v@);
    let mut r: Vec<String> = Vec::new();
    let mut i: usize = 0;
    assert(psv.take(0) =~= Seq::<Seq<char>>::empty());
    assert(r@.map_values(|s: String| s@) =~= Seq::<Seq<char>>::empty());
    while i < ps.len()
        invariant
            i <= ps.len(),
            psv == ps@.map_values(|v: Vec<char>| v@),
            psv == pieces(p@),
            r@.map_values(|s: String| s@) == keep_pieces(psv.take(i as int)),
        decreases ps.len() - i,
    {
        let x = &ps[i];
        assert(psv.take(i + 1).drop_last() =~= psv.take(i as int));
        let is_dot = x.len() == 1 && x[0] == '.';
        assert(is_dot == (x@ == dot())) by {
            if x@.len() == 1 && x@[0] == '.' {
                assert(x@ =~= dot());
            }
        }
        if x.len() != 0 && !is_dot {
            let ghost before = r@.map_values(|s: String| s@);
            r.push(string_from_chars(x.as_slice()));
            assert(r@.map_values(|s: String| s@) =~= before.push(x@));
        }
        i += 1;
    }
    assert(psv.take(ps.len() as int) =~= psv);
    proof {
        lemma_pieces_nonempty(p@, 0, Seq::empty());
    }
    let lead = chars.len() == 0 || chars[0] != '/';
    if lead {
        let f = &ps[0];
        if f.len() == 1 && f[0] == '.' {
            assert(f@ =~= dot());
            let ghost before = r@.map_values(|s: String| s@);
            let mut d: Vec<char> = Vec::new();
            d.push('.');
            r.insert(0, string_from_chars(d.as_slice()));
            assert(r@.map_values(|s: String| s@) =~= seq![dot()] + before);
        } else {
            assert(!(f@ == dot()));
        }
    }
    r
}

/// Components joined by `/`.
fn join_strings(cs: &Vec<String>) -> (r: String)
    ensures
        r@ == join_comps(cs@.map_values(|s: String| s@)),
{
    let ghost v = cs@.map_values(|s: String| s@);
    let mut r = String::new();
    let mut i: usize = 0;
    assert(v.take(0) =~= Seq::<Seq<char>>::empty());
    while i < cs.len()
        invariant
            i <= cs.len(),
            v == cs@.map_values(|s: String| s@),
            r@ == join_comps(v.take(i as int)),
        decreases cs.len() - i,
    {
        assert(v.take(i + 1).drop_last() =~= v.take(i as int));
        if i == 0 {
            assert(v.take(1) =~= seq![v[0]]);
        } else {
            r.append("/");
            proof {
                reveal_strlit("/");
                assert("/"@ =~= slash());
            }
        }
        r.append(cs[i].as_str());
        i += 1;
    }
    assert(v.take(cs.len() as int) =~= v);
    r
}

/// The normal form of a path: the form in which equal `Path`s are equal strings.
pub fn normalize(p: &str) -> (r: String)
    ensures
        r@ == norm(p@),
{
    let cs = components(p);
    let j = join_strings(&cs);
    if p_is_abs(p) {
        let mut r = String::new();
        r.append("/");
        r.append(j.as_str());
        proof {
            reveal_strlit("/");
        }
        r
    } else {
        j
    }
}

/// Whether a path starts at the root.
pub fn p_is_abs(p: &str) -> (r: bool)
    ensures
        r == is_abs(p@),
{
    let chars = chars_of(p);
    chars.len() > 0 && chars[0] == '/'
}

// ---------------------------------------------------------------------------
// Keys of the file system: normal absolute paths of valid names
// ---------------------------------------------------------------------------

/// The path made of valid names under the root, in normal form.
pub open spec fn good_key(k: Seq<char>) -> bool {
    &&& forall|i: int| 0 <= i < comps(k).len() ==> #[trigger] valid_name(comps(k)[i])
    &&& k == render(true, comps(k))
}

/// Pieces of a string without `/`, from `i`: one piece.
proof fn lemma_pieces_plain(p: Seq<char>, i: int, cur: Seq<char>)
    requires
        0 <= i <= p.len(),
        forall|k: int| i <= k < p.len() ==> p[k] != '/',
    ensures
        pieces_from(p, i, cur) == seq![cur + p.subrange(i, p.len() as int)],
    decreases p.len() - i,
{
    if i < p.len() {
        lemma_pieces_plain(p, i + 1, cur.push(p[i]));
        assert(cur.push(p[i]) + p.subrange(i + 1, p.len() as int) =~= cur + p.subrange(i, p.len() as int));
    } else {
        assert(cur + p.subrange(i, p.len() as int) =~= cur);
    }
}

/// Appending text without `/` extends the last piece.
proof fn lemma_pieces_append(p: Seq<char>, q: Seq<char>, i: int, cur: Seq<char>)
    requires
        0 <= i <= p.len(),
        forall|k: int| 0 <= k < q.len() ==> q[k] != '/',
    ensures
        pieces_from(p + q, i, cur) == pieces_from(p, i, cur).drop_last().push(pieces_from(p, i, cur).last() + q),
    decreases p.len() - i,
{
    let pq = p + q;
    if i == p.len() {
        assert forall|k: int| i <= k < pq.len() implies pq[k] != '/' by {
            assert(pq[k] == q[k - p.len()]);
        }
        lemma_pieces_plain(pq, i, cur);
        assert(pq.subrange(i, pq.len() as int) =~= q);
        assert(pieces_from(p, i, cur) == seq![cur]);
        assert(seq![cur].drop_last().push(cur + q) =~= seq![cur + q]);
    } else {
        assert(pq[i] == p[i]);
        if p[i] == '/' {
            lemma_pieces_append(p, q, i + 1, Seq::empty());
            lemma_pieces_nonempty(p, i + 1, Seq::empty());
            let x = pieces_from(p, i + 1, Seq::empty());
            assert((seq![cur] + x).drop_last().push((seq![cur] + x).last() + q) =~= seq![cur] + x.drop_last().push(
                x.last() + q,
            ));
        } else {
            lemma_pieces_append(p, q, i + 1, cur.push(p[i]));
        }
    }
}

/// Appending `/` adds an empty piece.
proof fn lemma_pieces_slash(p: Seq<char>, i: int, cur: Seq<char>)
    requires
        0 <= i <= p.len(),
    ensures
        pieces_from(p + slash(), i, cur) == pieces_from(p, i, cur).drop_last().push(pieces_from(p, i, cur).last()).push(
            Seq::empty(),
        ),
    decreases p.len() - i,
{
    let ps = p + slash();
    if i == p.len() {
        assert(ps[i] == '/');
        assert(pieces_from(ps, i + 1, Seq::empty()) == seq![Seq::<char>::empty()]);
        assert(pieces_from(p, i, cur) == seq![cur]);
        assert(seq![cur] + seq![Seq::<char>::empty()] =~= seq![cur].drop_last().push(cur).push(Seq::<char>::empty()));
    } else {
        assert(ps[i] == p[i]);
        if p[i] == '/' {
            lemma_pieces_slash(p, i + 1, Seq::empty());
            lemma_pieces_nonempty(p, i + 1, Seq::empty());
            let x = pieces_from(p, i + 1, Seq::empty());
            assert(seq![cur] + x.drop_last().push(x.last()).push(Seq::<char>::empty()) =~= (seq![cur]
                + x).drop_last().push((seq![cur] + x).last()).push(Seq::<char>::empty()));
        } else {
            lemma_pieces_slash(p, i + 1, cur.push(p[i]));
        }
    }
}

proof fn lemma_keep_push(ps: Seq<Seq<char>>, x: Seq<char>)
    ensures
        keep_pieces(ps.push(x)) == if x.len() == 0 || x == dot() {
            keep_pieces(ps)
        } else {
            keep_pieces(ps).push(x)
        },
{
    assert(ps.push(x).drop_last() =~= ps);
}

/// The components of the root.
pub proof fn lemma_root_comps()
    ensures
        comps(slash()) == Seq::<Seq<char>>::empty(),
        good_key(slash()),
        norm(slash()) == slash(),
{
    let e = Seq::<char>::empty();
    assert(pieces_from(slash(), 1, e) == seq![e]);
    assert(pieces(slash()) =~= seq![e, e]);
    lemma_keep_push(seq![e], e);
    lemma_keep_push(Seq::empty(), e);
    assert(seq![e] =~= Seq::<Seq<char>>::empty().push(e));
    assert(seq![e, e] =~= seq![e].push(e));
    assert(comps(slash()) =~= Seq::<Seq<char>>::empty());
    assert(render(true, Seq::<Seq<char>>::empty()) =~= slash());
}

proof fn lemma_join_comps_push(cs: Seq<Seq<char>>, c: Seq<char>)
    requires
        cs.len() > 0,
    ensures
        join_comps(cs.push(c)) == join_comps(cs) + slash() + c,
{
    assert(cs.push(c).drop_last() =~= cs);
}

/// A nonempty join of names without `/` does not end with `/`.
pub proof fn lemma_join_comps_last(cs: Seq<Seq<char>>)
    requires
        cs.len() > 0,
        forall|i: int| 0 <= i < cs.len() ==> #[trigger] valid_name(cs[i]),
    ensures
        join_comps(cs).len() > 0,
        join_comps(cs).last() == cs.last().last(),
        cs.last().last() != '/',
    decreases cs.len(),
{
    assert(valid_name(cs[cs.len() - 1]));
    assert(cs.last().last() == cs.last()[cs.last().len() - 1]);
}

/// The child `c` of a key `d`: its components, its normal form, and `Path::join`.
pub proof fn lemma_child_key(d: Seq<char>, c: Seq<char>)
    requires
        good_key(d),
        valid_name(c),
    ensures
        comps(child_key(d, c)) == comps(d).push(c),
        good_key(child_key(d, c)),
        norm(child_key(d, c)) == child_key(d, c),
        crate::fs::join_path(d, c) == child_key(d, c),
        child_key(d, c).len() > d.len(),
{
    let cs = comps(d);
    let k = child_key(d, c);
    lemma_root_comps();
    assert forall|i: int| 0 <= i < c.len() implies c[i] != '/' by {}
    if d == slash() {
        lemma_pieces_append(slash(), c, 0, Seq::empty());
        let e = Seq::<char>::empty();
        assert(pieces_from(slash(), 1, e) == seq![e]);
        assert(pieces(slash()) =~= seq![e, e]);
        assert(pieces(k) =~= seq![e, c]);
        assert(seq![e, c] =~= seq![e].push(c));
        lemma_keep_push(seq![e], c);
        lemma_keep_push(Seq::empty(), e);
        assert(seq![e] =~= Seq::<Seq<char>>::empty().push(e));
        assert(comps(k) =~= seq![c]);
        assert(cs =~= Seq::<Seq<char>>::empty());
        assert(comps(k) =~= cs.push(c));
        assert(render(true, seq![c]) =~= slash() + c);
    } else {
        if cs.len() == 0 {
            assert(d =~= slash() + Seq::<char>::empty());
            assert(false);
        }
        lemma_join_comps_last(cs);
        assert(d.last() != '/');
        lemma_pieces_slash(d, 0, Seq::empty());
        lemma_pieces_append(d + slash(), c, 0, Seq::empty());
        assert(d + slash() + c == k);
        let pd = pieces(d);
        lemma_pieces_nonempty(d, 0, Seq::empty());
        assert(pd.drop_last().push(pd.last()) =~= pd);
        let pds = pieces(d + slash());
        assert(pds == pd.push(Seq::empty()));
        assert(pds.drop_last() =~= pd);
        assert(pds.last() == Seq::<char>::empty());
        assert(Seq::<char>::empty() + c =~= c);
        assert(pieces(k) == pd.push(c));
        lemma_keep_push(pd, c);
        assert(!is_abs(k) == false);
        assert(comps(k) == cs.push(c));
        lemma_join_comps_push(cs, c);
        assert(render(true, cs.push(c)) =~= d + slash() + c);
    }
    assert forall|i: int| 0 <= i < comps(k).len() implies #[trigger] valid_name(comps(k)[i]) by {
        if i < cs.len() {
            assert(comps(k)[i] == cs[i]);
        }
    }
}

/// A key is an absolute path.
pub proof fn lemma_good_abs(k: Seq<char>)
    requires
        good_key(k),
    ensures
        is_abs(k),
{
    assert(k == slash() + join_comps(comps(k)));
    assert(k[0] == slash()[0]);
}

/// A component: nonempty, without `/`, and not `.`.
pub open spec fn comp_like(c: Seq<char>) -> bool {
    &&& c.len() > 0
    &&& c != dot()
    &&& forall|k: int| 0 <= k < c.len() ==> #[trigger] c[k] != '/'
}

pub open spec fn no_slash(c: Seq<char>) -> bool {
    forall|k: int| 0 <= k < c.len() ==> #[trigger] c[k] != '/'
}

proof fn lemma_pieces_no_slash(p: Seq<char>, i: int, cur: Seq<char>)
    requires
        no_slash(cur),
    ensures
        forall|j: int| 0 <= j < pieces_from(p, i, cur).len() ==> no_slash(#[trigger] pieces_from(p, i, cur)[j]),
    decreases p.len() - i,
{
    if i < 0 || i >= p.len() {
        assert(pieces_from(p, i, cur) == seq![cur]);
        assert forall|j: int| 0 <= j < pieces_from(p, i, cur).len() implies no_slash(
            #[trigger] pieces_from(p, i, cur)[j],
        ) by {
            assert(seq![cur][j] == cur);
        }
    } else {
        if p[i] == '/' {
            lemma_pieces_no_slash(p, i + 1, Seq::empty());
            let x = pieces_from(p, i + 1, Seq::empty());
            assert(pieces_from(p, i, cur) == seq![cur] + x);
            assert forall|j: int| 0 <= j < (seq![cur] + x).len() implies no_slash(#[trigger] (seq![cur] + x)[j]) by {
                if j > 0 {
                    assert((seq![cur] + x)[j] == x[j - 1]);
                }
            }
        } else {
            let c2 = cur.push(p[i]);
            assert forall|k: int| 0 <= k < c2.len() implies #[trigger] c2[k] != '/' by {
                if k < cur.len() {
                    assert(c2[k] == cur[k]);
                }
            }
            lemma_pieces_no_slash(p, i + 1, c2);
            assert(pieces_from(p, i, cur) == pieces_from(p, i + 1, c2));
        }
    }
}

proof fn lemma_keep_comp_like(ps: Seq<Seq<char>>)
    requires
        forall|j: int| 0 <= j < ps.len() ==> no_slash(#[trigger] ps[j]),
    ensures
        forall|j: int| 0 <= j < keep_pieces(ps).len() ==> comp_like(#[trigger] keep_pieces(ps)[j]),
    decreases ps.len(),
{
    if ps.len() > 0 {
        let d = ps.drop_last();
        assert forall|j: int| 0 <= j < d.len() implies no_slash(#[trigger] d[j]) by {
            assert(d[j] == ps[j]);
        }
        lemma_keep_comp_like(d);
        let r = keep_pieces(d);
        assert(no_slash(ps[ps.len() - 1]));
        assert forall|j: int| 0 <= j < keep_pieces(ps).len() implies comp_like(#[trigger] keep_pieces(ps)[j]) by {
            if j < r.len() {
                assert(keep_pieces(ps)[j] == r[j]);
            }
        }
    }
}

/// The components of a rooted path are nonempty, without `/`, and not `.`.
pub proof fn lemma_abs_comps_like(p: Seq<char>)
    requires
        is_abs(p),
    ensures
        forall|j: int| 0 <= j < comps(p).len() ==> comp_like(#[trigger] comps(p)[j]),
{
    lemma_pieces_no_slash(p, 0, Seq::empty());
    lemma_keep_comp_like(pieces(p));
}

/// The first component of a relative path has no `/`, and is nonempty.
pub proof fn lemma_rel_first_comp(p: Seq<char>)
    requires
        !is_abs(p),
        comps(p).len() > 0,
    ensures
        comps(p)[0].len() > 0,
        comps(p)[0][0] != '/',
{
    lemma_comps_nonempty(p);
    if !leading_cur_dir(p) {
        lemma_pieces_no_slash(p, 0, Seq::empty());
        lemma_keep_comp_like(pieces(p));
    }
}

/// A join of components starts with the first one.
pub proof fn lemma_join_first(cs: Seq<Seq<char>>)
    requires
        cs.len() > 0,
        cs[0].len() > 0,
    ensures
        join_comps(cs).len() > 0,
        join_comps(cs)[0] == cs[0][0],
    decreases cs.len(),
{
    if cs.len() > 1 {
        let d = cs.drop_last();
        assert(d[0] == cs[0]);
        lemma_join_first(d);
    }
}

/// Components that are nonempty, without `/` and not `.` come back from the rooted path
/// they render to.
pub proof fn lemma_render_comps(cs: Seq<Seq<char>>)
    requires
        forall|j: int| 0 <= j < cs.len() ==> comp_like(#[trigger] cs[j]),
    ensures
        comps(render(true, cs)) == cs,
    decreases cs.len(),
{
    lemma_root_comps();
    if cs.len() == 0 {
        assert(render(true, cs) =~= slash());
        assert(cs =~= Seq::<Seq<char>>::empty());
    } else {
        let p = cs.drop_last();
        let c = cs.last();
        assert(comp_like(cs[cs.len() - 1]));
        assert forall|j: int| 0 <= j < p.len() implies comp_like(#[trigger] p[j]) by {
            assert(p[j] == cs[j]);
        }
        lemma_render_comps(p);
        let d = render(true, p);
        let k = render(true, cs);
        assert(cs =~= p.push(c));
        if p.len() == 0 {
            assert(d =~= slash());
            assert(join_comps(cs) == cs[0]);
            assert(k =~= slash() + c);
            lemma_pieces_append(slash(), c, 0, Seq::empty());
            let e = Seq::<char>::empty();
            assert(pieces_from(slash(), 1, e) == seq![e]);
            assert(pieces(slash()) =~= seq![e, e]);
            assert(pieces(k) =~= seq![e, c]);
            assert(seq![e, c] =~= seq![e].push(c));
            lemma_keep_push(seq![e], c);
            lemma_keep_push(Seq::empty(), e);
            assert(seq![e] =~= Seq::<Seq<char>>::empty().push(e));
            assert(comps(k) =~= seq![c]);
        } else {
            lemma_join_comps_push(p, c);
            assert(k =~= d + slash() + c);
            let pl = p.last();
            assert(comp_like(p[p.len() - 1]));
            if p.len() == 1 {
                assert(join_comps(p) == p[0]);
            }
            assert(join_comps(p).last() == pl.last()) by {
                if p.len() > 1 {
                    assert(join_comps(p) == join_comps(p.drop_last()) + slash() + pl);
                }
            }
            assert(pl.last() == pl[pl.len() - 1]);
            assert(d.last() != '/');
            lemma_pieces_slash(d, 0, Seq::empty());
            lemma_pieces_append(d + slash(), c, 0, Seq::empty());
            let pd = pieces(d);
            lemma_pieces_nonempty(d, 0, Seq::empty());
            assert(pd.drop_last().push(pd.last()) =~= pd);
            let pds = pieces(d + slash());
            assert(pds == pd.push(Seq::empty()));
            assert(pds.drop_last() =~= pd);
            assert(pds.last() == Seq::<char>::empty());
            assert(Seq::<char>::empty() + c =~= c);
            assert(pieces(k) == pd.push(c));
            lemma_keep_push(pd, c);
            assert(is_abs(d));
            assert(is_abs(k));
        }
    }
}

} // verus!
