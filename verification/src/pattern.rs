//! Path patterns: parsing a pattern into its literal prefix, compiling it
//! into fragments, and matching a request path against the fragments while
//! extracting the declared captures.
//!
//! A pattern is a `/`-separated string.  A segment `:name` captures one
//! non-empty slash-free run; a trailing segment `*name` captures the whole
//! remaining text; every other segment matches literally.  A trailing bare
//! `*` captures under the synthetic name `:ext` when the pattern is
//! compiled at all — that is, when it also declares a parameter; a pattern
//! whose only placeholder is a trailing bare `*` compiles nothing and
//! captures nothing.  A wildcard before the final segment does not
//! compile.

use crate::error::RouterError;
use crate::route::PathOp;
use vstd::prelude::*;
use vstd::string::*;

verus! {

/// One fragment of a compiled path pattern: the text between two slashes.
pub enum Frag {
    /// A literal segment, matched exactly.
    Lit(String),
    /// `:name`: captures one non-empty slash-free segment.
    Param(String),
    /// `*name`: captures the whole remaining text.
    Wild(String),
}

/// The spec-level form of a fragment.
pub enum FragView {
    Lit(Seq<char>),
    Param(Seq<char>),
    Wild(Seq<char>),
}

impl View for Frag {
    type V = FragView;

    open spec fn view(&self) -> FragView {
        match self {
            Frag::Lit(s) => FragView::Lit(s@),
            Frag::Param(s) => FragView::Param(s@),
            Frag::Wild(s) => FragView::Wild(s@),
        }
    }
}

/// The views of a fragment vector.
pub open spec fn frags_view(fs: Seq<Frag>) -> Seq<FragView> {
    fs.map_values(|f: Frag| f@)
}

/// The first position of `c` in `t`, or `t.len()` if `t` does not hold `c`.
pub open spec fn first_of(t: Seq<char>, c: char) -> int
    decreases t.len(),
{
    if t.len() == 0 {
        0
    } else if t[0] == c {
        0
    } else {
        1 + first_of(t.skip(1), c)
    }
}

/// The first position of `:` or `*` in `p`, or `p.len()` if neither occurs.
pub open spec fn first_special(p: Seq<char>) -> int
    decreases p.len(),
{
    if p.len() == 0 {
        0
    } else if p[0] == ':' || p[0] == '*' {
        0
    } else {
        1 + first_special(p.skip(1))
    }
}

pub proof fn lemma_first_of_bounds(t: Seq<char>, c: char)
    ensures
        0 <= first_of(t, c) <= t.len(),
        t.contains(c) ==> first_of(t, c) < t.len() && t[first_of(t, c)] == c,
        !t.contains(c) ==> first_of(t, c) == t.len(),
        forall|k: int| 0 <= k < first_of(t, c) ==> t[k] != c,
    decreases t.len(),
{
    if t.len() > 0 && t[0] != c {
        lemma_first_of_bounds(t.skip(1), c);
        assert(t.contains(c) ==> t.skip(1).contains(c)) by {
            if t.contains(c) {
                let i = choose|i: int| 0 <= i < t.len() && t[i] == c;
                assert(t.skip(1)[i - 1] == c);
            }
        }
        assert(t.skip(1).contains(c) ==> t.contains(c)) by {
            if t.skip(1).contains(c) {
                let i = choose|i: int| 0 <= i < t.skip(1).len() && t.skip(1)[i] == c;
                assert(t[i + 1] == c);
            }
        }
        assert forall|k: int| 0 <= k < first_of(t, c) implies t[k] != c by {
            if k > 0 {
                assert(t.skip(1)[k - 1] != c);
            }
        }
    }
}

/// `first_of` is pinned by its characterization.
pub proof fn lemma_first_of_is(t: Seq<char>, c: char, i: int)
    requires
        0 <= i <= t.len(),
        i < t.len() ==> t[i] == c,
        forall|k: int| 0 <= k < i ==> t[k] != c,
    ensures
        first_of(t, c) == i,
    decreases t.len(),
{
    if t.len() > 0 {
        if i == 0 {
        } else {
            assert(t[0] != c);
            assert forall|k: int| 0 <= k < i - 1 implies t.skip(1)[k] != c by {
                assert(t.skip(1)[k] == t[k + 1]);
            }
            if i < t.len() {
                assert(t.skip(1)[i - 1] == c);
            }
            lemma_first_of_is(t.skip(1), c, i - 1);
        }
    }
}

pub proof fn lemma_first_special_is(p: Seq<char>, i: int)
    requires
        0 <= i <= p.len(),
        i < p.len() ==> (p[i] == ':' || p[i] == '*'),
        forall|k: int| 0 <= k < i ==> p[k] != ':' && p[k] != '*',
    ensures
        first_special(p) == i,
    decreases p.len(),
{
    if p.len() > 0 {
        if i == 0 {
        } else {
            assert(p[0] != ':' && p[0] != '*');
            assert forall|k: int| 0 <= k < i - 1 implies p.skip(1)[k] != ':' && p.skip(1)[k]
                != '*' by {
                assert(p.skip(1)[k] == p[k + 1]);
            }
            if i < p.len() {
                assert(p.skip(1)[i - 1] == p[i]);
            }
            lemma_first_special_is(p.skip(1), i - 1);
        }
    }
}

/// The literal prefix of a pattern: everything before the first `:` or `*`.
pub open spec fn path_key_of(p: Seq<char>) -> Seq<char> {
    p.take(first_special(p))
}

/// Whether a pattern holds neither `:` nor `*`.
pub open spec fn path_is_exact(p: Seq<char>) -> bool {
    first_special(p) == p.len()
}

/// Whether a pattern declares captures to extract: any `:`, or a `*` that
/// stands anywhere but as the very last character.
pub open spec fn path_has_param(p: Seq<char>) -> bool {
    p.contains(':') || (p.contains('*') && first_of(p, '*') != p.len() - 1)
}

/// The literal prefix, the match kind and the capture flag of a pattern.
pub fn parse_path(path: &str) -> (r: (String, PathOp, bool))
    ensures
        r.0@ == path_key_of(path@),
        r.1 == (if path_is_exact(path@) {
            PathOp::Equal
        } else {
            PathOp::PrefixMatch
        }),
        r.2 == path_has_param(path@),
{
    let len = path.unicode_len();
    let colon = crate::text::find_char_from(path, 0, ':');
    let star = crate::text::find_char_from(path, 0, '*');
    proof {
        lemma_first_of_bounds(path@, ':');
        lemma_first_of_bounds(path@, '*');
        match colon {
            Some(i) => {
                assert(path@.contains(':')) by {
                    assert(path@[i as int] == ':');
                }
                lemma_first_of_is(path@, ':', i as int);
            },
            None => {
                assert(!path@.contains(':')) by {
                    if path@.contains(':') {
                        let i = choose|i: int| 0 <= i < path@.len() && path@[i] == ':';
                        assert(path@[i] != ':');
                    }
                }
            },
        }
        match star {
            Some(i) => {
                assert(path@.contains('*')) by {
                    assert(path@[i as int] == '*');
                }
                lemma_first_of_is(path@, '*', i as int);
            },
            None => {
                assert(!path@.contains('*')) by {
                    if path@.contains('*') {
                        let i = choose|i: int| 0 <= i < path@.len() && path@[i] == '*';
                        assert(path@[i] != '*');
                    }
                }
            },
        }
    }
    let special: usize = match (colon, star) {
        (Some(i), Some(j)) => if i < j {
            i
        } else {
            j
        },
        (Some(i), None) => i,
        (None, Some(j)) => j,
        (None, None) => len,
    };
    proof {
        lemma_first_special_is(path@, special as int);
    }
    let key = crate::text::substring_copy(path, 0, special);
    let op = if colon.is_none() && star.is_none() {
        PathOp::Equal
    } else {
        PathOp::PrefixMatch
    };
    let has_param = match (colon, star) {
        (Some(_), _) => true,
        (None, Some(j)) => j != len - 1,
        (None, None) => false,
    };
    (key, op, has_param)
}

/// Splitting a character sequence on `/`.
pub open spec fn split_slash(s: Seq<char>) -> Seq<Seq<char>>
    decreases s.len(),
{
    if s.len() == 0 {
        seq![Seq::<char>::empty()]
    } else if s[0] == '/' {
        seq![Seq::<char>::empty()] + split_slash(s.skip(1))
    } else {
        let r = split_slash(s.skip(1));
        seq![seq![s[0]] + r[0]] + r.skip(1)
    }
}

pub proof fn lemma_split_slash_len(s: Seq<char>)
    ensures
        split_slash(s).len() >= 1,
    decreases s.len(),
{
    if s.len() > 0 && s[0] != '/' {
        lemma_split_slash_len(s.skip(1));
    }
}

/// A sequence with no `/` splits to itself alone.
pub proof fn lemma_split_no_slash(t: Seq<char>)
    requires
        forall|k: int| 0 <= k < t.len() ==> t[k] != '/',
    ensures
        split_slash(t) =~~= seq![t],
    decreases t.len(),
{
    if t.len() == 0 {
        assert(t =~= Seq::<char>::empty());
    } else {
        assert(t[0] != '/');
        assert forall|k: int| 0 <= k < t.skip(1).len() implies t.skip(1)[k] != '/' by {
            assert(t.skip(1)[k] == t[k + 1]);
        }
        lemma_split_no_slash(t.skip(1));
        assert(seq![t[0]] + t.skip(1) =~= t);
    }
}

/// Splitting at the first `/`.
pub proof fn lemma_split_at_slash(t: Seq<char>, i: int)
    requires
        0 <= i < t.len(),
        t[i] == '/',
        forall|k: int| 0 <= k < i ==> t[k] != '/',
    ensures
        split_slash(t) =~~= seq![t.take(i)] + split_slash(t.skip(i + 1)),
    decreases t.len(),
{
    if i == 0 {
        assert(t.take(0) =~= Seq::<char>::empty());
    } else {
        assert(t[0] != '/');
        let u = t.skip(1);
        assert forall|k: int| 0 <= k < i - 1 implies u[k] != '/' by {
            assert(u[k] == t[k + 1]);
        }
        assert(u[i - 1] == '/');
        lemma_split_at_slash(u, i - 1);
        assert(u.skip(i) =~= t.skip(i + 1));
        assert(seq![t[0]] + u.take(i - 1) =~= t.take(i));
        lemma_split_slash_len(t.skip(i + 1));
    }
}

/// The fragment a segment compiles to.
pub open spec fn frag_of(seg: Seq<char>) -> FragView {
    if seg.len() > 0 && seg[0] == ':' {
        FragView::Param(seg.skip(1))
    } else if seg.len() > 0 && seg[0] == '*' {
        FragView::Wild(
            if seg.len() > 1 {
                seg.skip(1)
            } else {
                seq![':', 'e', 'x', 't']
            },
        )
    } else {
        FragView::Lit(seg)
    }
}

/// The fragments a whole pattern compiles to.
pub open spec fn compile_frags(p: Seq<char>) -> Seq<FragView> {
    split_slash(p).map_values(|seg: Seq<char>| frag_of(seg))
}

/// A fragment list is well formed when a wildcard stands only at the end.
pub open spec fn frags_wf(fs: Seq<FragView>) -> bool {
    forall|i: int| 0 <= i < fs.len() ==> ((#[trigger] fs[i]) is Wild ==> i == fs.len() - 1)
}

/// Split `path` into its `/`-separated segments.
fn split_segments(path: &str) -> (r: Vec<String>)
    ensures
        r@.map_values(|s: String| s@) =~~= split_slash(path@),
{
    let len = path.unicode_len();
    let mut segs: Vec<String> = Vec::new();
    let mut pos: usize = 0;
    proof {
        assert(path@.skip(0) =~= path@);
        assert(segs@.map_values(|s: String| s@) + split_slash(path@) =~= split_slash(path@));
    }
    loop
        invariant
            pos <= len,
            len == path@.len(),
            split_slash(path@) =~~= segs@.map_values(|s: String| s@) + split_slash(
                path@.skip(pos as int),
            ),
        decreases len - pos,
    {
        let ghost t = path@.skip(pos as int);
        match crate::text::find_char_from(path, pos, '/') {
            Some(j) => {
                proof {
                    assert(t[j - pos] == '/');
                    assert forall|k: int| 0 <= k < j - pos implies t[k] != '/' by {
                        assert(t[k] == path@[pos + k]);
                    }
                    lemma_split_at_slash(t, j - pos);
                    assert(t.take(j - pos) =~= path@.subrange(pos as int, j as int));
                    assert(t.skip(j - pos + 1) =~= path@.skip(j + 1));
                }
                let seg = crate::text::substring_copy(path, pos, j);
                segs.push(seg);
                pos = j + 1;
            },
            None => {
                proof {
                    lemma_split_no_slash(t);
                    assert(t =~= path@.subrange(pos as int, len as int));
                }
                let seg = crate::text::substring_copy(path, pos, len);
                segs.push(seg);
                return segs;
            },
        }
    }
}

/// Compile a pattern into fragments.  Fails, leaving the caller's state
/// unchanged, when a wildcard segment stands anywhere but at the end.
pub fn compile_pattern(path: &str) -> (r: Result<Vec<Frag>, RouterError>)
    ensures
        match r {
            Ok(fs) => frags_view(fs@) == compile_frags(path@) && frags_wf(compile_frags(path@)),
            Err(e) => !frags_wf(compile_frags(path@)) && (e matches RouterError::MalformedPath(p)
                && p@ == path@),
        },
{
    let segs = split_segments(path);
    let ghost fv = compile_frags(path@);
    let n = segs.len();
    let mut frags: Vec<Frag> = Vec::new();
    let mut i: usize = 0;
    while i < n
        invariant
            n == segs@.len(),
            0 <= i <= n,
            segs@.map_values(|s: String| s@) =~~= split_slash(path@),
            fv == compile_frags(path@),
            frags@.len() == i,
            forall|j: int| 0 <= j < i ==> frags@[j]@ == fv[j],
            forall|j: int| 0 <= j < i ==> (frags@[j]@ is Wild ==> j == n - 1),
        decreases n - i,
    {
        proof {
            assert(fv[i as int] == frag_of(segs@[i as int]@));
        }
        let seg = &segs[i];
        let slen = seg.unicode_len();
        if slen > 0 && seg.as_str().get_char(0) == ':' {
            let name = crate::text::substring_copy(seg.as_str(), 1, slen);
            proof {
                assert(seg@.subrange(1, slen as int) =~= seg@.skip(1));
            }
            frags.push(Frag::Param(name));
        } else if slen > 0 && seg.as_str().get_char(0) == '*' {
            if i + 1 < n {
                return Err(RouterError::MalformedPath(String::from_str(path)));
            }
            let name = if slen > 1 {
                let s = crate::text::substring_copy(seg.as_str(), 1, slen);
                proof {
                    assert(seg@.subrange(1, slen as int) =~= seg@.skip(1));
                }
                s
            } else {
                let s = String::from_str(":ext");
                proof {
                    reveal_strlit(":ext");
                    assert(s@ =~= seq![':', 'e', 'x', 't']);
                }
                s
            };
            frags.push(Frag::Wild(name));
        } else {
            frags.push(Frag::Lit(seg.clone()));
        }
        i += 1;
    }
    proof {
        assert(frags_view(frags@) =~= fv);
        assert(frags_wf(fv));
    }
    Ok(frags)
}

/// Whether and how a fragment list matches a text: `None` on mismatch,
/// otherwise the captures in declaration order.
pub open spec fn frags_match(fs: Seq<FragView>, t: Seq<char>) -> Option<
    Seq<(Seq<char>, Seq<char>)>,
>
    decreases fs.len(),
{
    if fs.len() == 0 {
        None
    } else if fs.len() == 1 {
        match fs[0] {
            FragView::Lit(s) => if t == s {
                Some(Seq::empty())
            } else {
                None
            },
            FragView::Param(n) => if t.len() > 0 && !t.contains('/') {
                Some(seq![(n, t)])
            } else {
                None
            },
            FragView::Wild(n) => Some(seq![(n, t)]),
        }
    } else {
        match fs[0] {
            FragView::Lit(s) => {
                if s.len() + 1 <= t.len() && t.take(s.len() as int) == s && t[s.len() as int]
                    == '/' {
                    frags_match(fs.skip(1), t.skip(s.len() as int + 1))
                } else {
                    None
                }
            },
            FragView::Param(n) => {
                if t.contains('/') && first_of(t, '/') > 0 {
                    match frags_match(fs.skip(1), t.skip(first_of(t, '/') + 1)) {
                        Some(rest) => Some(seq![(n, t.take(first_of(t, '/')))] + rest),
                        None => None,
                    }
                } else {
                    None
                }
            },
            FragView::Wild(_) => None,
        }
    }
}

/// The views of a capture vector.
pub open spec fn pairs_view(ps: Seq<(String, String)>) -> Seq<(Seq<char>, Seq<char>)> {
    ps.map_values(|p: (String, String)| (p.0@, p.1@))
}

fn match_from(frags: &Vec<Frag>, i: usize, path: &str, pos: usize) -> (r: Option<
    Vec<(String, String)>,
>)
    requires
        i < frags@.len(),
        pos <= path@.len(),
    ensures
        match r {
            Some(cs) => frags_match(frags_view(frags@).skip(i as int), path@.skip(pos as int))
                == Some(pairs_view(cs@)),
            None => frags_match(frags_view(frags@).skip(i as int), path@.skip(pos as int))
                is None,
        },
    decreases frags@.len() - i,
{
    let ghost fsv = frags_view(frags@).skip(i as int);
    let ghost t = path@.skip(pos as int);
    let len = path.unicode_len();
    proof {
        assert(fsv[0] == frags@[i as int]@);
    }
    if i == frags.len() - 1 {
        proof {
            assert(fsv.len() == 1);
        }
        match &frags[i] {
            Frag::Lit(s) => {
                let rest = path.substring_char(pos, len);
                if crate::text::str_eq(rest, s.as_str()) {
                    proof {
                        assert(t =~= rest@);
                    }
                    Some(Vec::new())
                } else {
                    proof {
                        assert(t =~= rest@);
                    }
                    None
                }
            },
            Frag::Param(n) => {
                if pos == len {
                    proof {
                        assert(t.len() == 0);
                    }
                    return None;
                }
                match crate::text::find_char_from(path, pos, '/') {
                    Some(j) => {
                        proof {
                            assert(t[j - pos] == '/');
                            assert(t.contains('/'));
                        }
                        None
                    },
                    None => {
                        proof {
                            assert(!t.contains('/')) by {
                                if t.contains('/') {
                                    let k = choose|k: int| 0 <= k < t.len() && t[k] == '/';
                                    assert(path@[pos + k] == '/');
                                }
                            }
                        }
                        let v = crate::text::substring_copy(path, pos, len);
                        proof {
                            assert(v@ =~= t);
                        }
                        let mut cs: Vec<(String, String)> = Vec::new();
                        cs.push((n.clone(), v));
                        proof {
                            assert(pairs_view(cs@) =~= seq![(n@, t)]);
                        }
                        Some(cs)
                    },
                }
            },
            Frag::Wild(n) => {
                let v = crate::text::substring_copy(path, pos, len);
                proof {
                    assert(v@ =~= t);
                }
                let mut cs: Vec<(String, String)> = Vec::new();
                cs.push((n.clone(), v));
                proof {
                    assert(pairs_view(cs@) =~= seq![(n@, t)]);
                }
                Some(cs)
            },
        }
    } else {
        proof {
            assert(fsv.len() >= 2);
            assert(fsv.skip(1) =~= frags_view(frags@).skip(i + 1));
        }
        match &frags[i] {
            Frag::Lit(s) => {
                let slen = s.unicode_len();
                if slen < len - pos {
                    let piece = path.substring_char(pos, pos + slen);
                    proof {
                        assert(piece@ =~= t.take(slen as int));
                    }
                    if crate::text::str_eq(piece, s.as_str()) && path.get_char(pos + slen) == '/' {
                        proof {
                            assert(t[slen as int] == path@[pos + slen]);
                            assert(t.skip(slen as int + 1) =~= path@.skip(pos + slen + 1));
                        }
                        match_from(frags, i + 1, path, pos + slen + 1)
                    } else {
                        proof {
                            assert(t[slen as int] == path@[pos + slen]);
                        }
                        None
                    }
                } else {
                    None
                }
            },
            Frag::Param(n) => {
                match crate::text::find_char_from(path, pos, '/') {
                    Some(j) => {
                        proof {
                            assert(t[j - pos] == '/');
                            assert(t.contains('/'));
                            assert forall|k: int| 0 <= k < j - pos implies t[k] != '/' by {
                                assert(t[k] == path@[pos + k]);
                            }
                            lemma_first_of_is(t, '/', j - pos);
                        }
                        if j == pos {
                            return None;
                        }
                        proof {
                            assert(t.skip(j - pos + 1) =~= path@.skip(j + 1));
                        }
                        match match_from(frags, i + 1, path, j + 1) {
                            Some(mut cs) => {
                                let v = crate::text::substring_copy(path, pos, j);
                                proof {
                                    assert(v@ =~= t.take(j - pos));
                                }
                                cs.insert(0, (n.clone(), v));
                                proof {
                                    assert(pairs_view(cs@) =~= seq![(n@, t.take(j - pos))]
                                        + pairs_view(cs@.skip(1)));
                                    assert(cs@.skip(1) =~= cs@.subrange(1, cs@.len() as int));
                                }
                                Some(cs)
                            },
                            None => None,
                        }
                    },
                    None => {
                        proof {
                            assert(!t.contains('/')) by {
                                if t.contains('/') {
                                    let k = choose|k: int| 0 <= k < t.len() && t[k] == '/';
                                    assert(path@[pos + k] == '/');
                                }
                            }
                        }
                        None
                    },
                }
            },
            Frag::Wild(_) => None,
        }
    }
}

/// Match a request path against compiled fragments; on success the captures
/// come back in declaration order.
pub fn match_pattern(frags: &Vec<Frag>, path: &str) -> (r: Option<Vec<(String, String)>>)
    ensures
        match r {
            Some(cs) => frags_match(frags_view(frags@), path@) == Some(pairs_view(cs@)),
            None => frags_match(frags_view(frags@), path@) is None,
        },
{
    if frags.len() == 0 {
        return None;
    }
    let r = match_from(frags, 0, path, 0);
    proof {
        assert(frags_view(frags@).skip(0) =~= frags_view(frags@));
        assert(path@.skip(0) =~= path@);
    }
    r
}

} // verus!
