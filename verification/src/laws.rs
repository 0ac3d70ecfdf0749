//! Laws of the matcher, stated and proved over the specification functions
//! that the router's contracts use.

use crate::error::RouterError;
use crate::pattern::{
    compile_frags, frag_of, frags_match, frags_view, lemma_first_of_is, lemma_split_at_slash,
    lemma_split_no_slash, path_is_exact, path_key_of, split_slash, FragView,
};
use crate::route::{rank_ge, record_rel, MatchResult, PathOp, RadixNode, RouteOpts};
use crate::router::{
    add_post, all_rejectable, bucket_sorted, bucket_wf, candidate_dynamic, delete_post, index_wf,
    insert_into, insert_pos, insert_record, insert_records, insert_sorted, lemma_insert_pos_props,
    match_post, matched_map, pairs_into_map, params_result, removes_hit,
    record_wf, records_for, rejectable, remove_from, remove_record, remove_records, result_matches,
    retained, static_pass, BucketView, OptsV,
};
use vstd::prelude::*;

verus! {

/// Within one candidate list, the matcher's winner — the first candidate
/// that passes every criterion — carries the highest priority among the
/// passing candidates, with ties going to the longest declared path.  The
/// law speaks of requests on which no candidate's outcome is dynamic; a
/// winner in the exact index can still outrank a higher-priority candidate
/// that only the prefix index holds, because the exact index is consulted
/// first.
pub proof fn lemma_first_pass_ranks_highest(
    rs: Seq<RouteOpts>,
    path: Seq<char>,
    o: OptsV,
    i: int,
)
    requires
        bucket_sorted(rs),
        0 <= i < rs.len(),
        static_pass(rs[i], path, o),
        forall|j: int| 0 <= j < i ==> rejectable(#[trigger] rs[j], path, o),
        forall|j: int| 0 <= j < rs.len() ==> !candidate_dynamic(#[trigger] rs[j], o),
    ensures
        forall|j: int|
            0 <= j < rs.len() && static_pass(#[trigger] rs[j], path, o) ==> rank_ge(rs[i], rs[j]),
{
    assert forall|j: int|
        0 <= j < rs.len() && static_pass(#[trigger] rs[j], path, o) implies rank_ge(
        rs[i],
        rs[j],
    ) by {
        if j < i {
            assert(rejectable(rs[j], path, o));
            assert(!candidate_dynamic(rs[j], o));
            assert(false);
        } else if j == i {
        } else {
            assert(rank_ge(rs[i], rs[j]));
        }
    }
}

/// Exact-path candidates are consulted before the prefix walk: when the
/// exact-index list holds a candidate that passes every modelled criterion
/// and whose outcome is not dynamic, the returned match comes from that
/// list.
pub proof fn lemma_exact_index_first(
    hashseq: Seq<RouteOpts>,
    treeseq: Seq<RouteOpts>,
    path: Seq<char>,
    o: OptsV,
    mr: MatchResult,
)
    requires
        match_post(hashseq + treeseq, path, o, Some(mr)),
        exists|j: int|
            0 <= j < hashseq.len() && static_pass(#[trigger] hashseq[j], path, o)
                && !candidate_dynamic(hashseq[j], o),
    ensures
        exists|i: int|
            0 <= i < hashseq.len() && static_pass(#[trigger] hashseq[i], path, o)
                && result_matches(hashseq[i], path, o, mr),
{
    let cands = hashseq + treeseq;
    let i = choose|i: int|
        #![trigger cands[i]]
        {
            &&& 0 <= i < cands.len()
            &&& static_pass(cands[i], path, o)
            &&& result_matches(cands[i], path, o, mr)
            &&& forall|j: int| 0 <= j < i ==> rejectable(#[trigger] cands[j], path, o)
        };
    let j = choose|j: int|
        0 <= j < hashseq.len() && static_pass(#[trigger] hashseq[j], path, o)
            && !candidate_dynamic(hashseq[j], o);
    if i >= hashseq.len() {
        assert(cands[j] == hashseq[j]);
        assert(rejectable(cands[j], path, o));
        assert(false);
    }
    assert(cands[i] == hashseq[i]);
}

/// The prefix walk decides only when every exact-index candidate was
/// rejectable: whatever the matcher answers, each exact candidate either
/// failed a modelled criterion or hung on a dynamic check — unless it is
/// the winner itself.
pub proof fn lemma_tree_consulted_only_after_exact(
    hashseq: Seq<RouteOpts>,
    treeseq: Seq<RouteOpts>,
    path: Seq<char>,
    o: OptsV,
)
    requires
        match_post(hashseq + treeseq, path, o, None),
    ensures
        all_rejectable(hashseq, path, o),
        all_rejectable(treeseq, path, o),
{
    let cands = hashseq + treeseq;
    assert forall|i: int| 0 <= i < hashseq.len() implies rejectable(
        #[trigger] hashseq[i],
        path,
        o,
    ) by {
        assert(cands[i] == hashseq[i]);
    }
    assert forall|i: int| 0 <= i < treeseq.len() implies rejectable(
        #[trigger] treeseq[i],
        path,
        o,
    ) by {
        assert(cands[hashseq.len() + i] == treeseq[i]);
    }
}

/// On a router snapshot without dynamic candidates, the matcher's contract
/// pins the answer: any two results that satisfy it for the same request
/// agree on everything observable.  Readers holding the same snapshot —
/// however many run in parallel — therefore see one and the same outcome.
pub proof fn lemma_match_deterministic(
    cands: Seq<RouteOpts>,
    path: Seq<char>,
    o: OptsV,
    r1: Option<MatchResult>,
    r2: Option<MatchResult>,
)
    requires
        match_post(cands, path, o, r1),
        match_post(cands, path, o, r2),
        forall|i: int| 0 <= i < cands.len() ==> !candidate_dynamic(#[trigger] cands[i], o),
    ensures
        r1 is Some <==> r2 is Some,
        r1 matches Some(m1) ==> (r2 matches Some(m2) ==> m1.id@ == m2.id@ && m1.metadata
            == m2.metadata && m1.matched@ == m2.matched@),
{
    match (r1, r2) {
        (Some(m1), Some(m2)) => {
            let i1 = choose|i: int|
                #![trigger cands[i]]
                {
                    &&& 0 <= i < cands.len()
                    &&& static_pass(cands[i], path, o)
                    &&& result_matches(cands[i], path, o, m1)
                    &&& forall|j: int| 0 <= j < i ==> rejectable(#[trigger] cands[j], path, o)
                };
            let i2 = choose|i: int|
                #![trigger cands[i]]
                {
                    &&& 0 <= i < cands.len()
                    &&& static_pass(cands[i], path, o)
                    &&& result_matches(cands[i], path, o, m2)
                    &&& forall|j: int| 0 <= j < i ==> rejectable(#[trigger] cands[j], path, o)
                };
            if i1 < i2 {
                assert(rejectable(cands[i1], path, o));
                assert(false);
            }
            if i2 < i1 {
                assert(rejectable(cands[i2], path, o));
                assert(false);
            }
            assert(result_matches(cands[i1], path, o, m1));
            assert(result_matches(cands[i1], path, o, m2));
        },
        (Some(m1), None) => {
            let i1 = choose|i: int|
                #![trigger cands[i]]
                {
                    &&& 0 <= i < cands.len()
                    &&& static_pass(cands[i], path, o)
                    &&& result_matches(cands[i], path, o, m1)
                    &&& forall|j: int| 0 <= j < i ==> rejectable(#[trigger] cands[j], path, o)
                };
            assert(rejectable(cands[i1], path, o));
            assert(false);
        },
        (None, Some(m2)) => {
            let i2 = choose|i: int|
                #![trigger cands[i]]
                {
                    &&& 0 <= i < cands.len()
                    &&& static_pass(cands[i], path, o)
                    &&& result_matches(cands[i], path, o, m2)
                    &&& forall|j: int| 0 <= j < i ==> rejectable(#[trigger] cands[j], path, o)
                };
            assert(rejectable(cands[i2], path, o));
            assert(false);
        },
        (None, None) => {},
    }
}

/// A bare parameter round-trips: the pattern `/a/:x/b` matched against
/// `/a/` + `v` + `/b` binds `x` to `v`, for every non-empty slash-free `v`.
pub proof fn lemma_param_round_trip(v: Seq<char>)
    requires
        v.len() > 0,
        !v.contains('/'),
    ensures
        frags_match(compile_frags("/a/:x/b"@), "/a/"@ + v + "/b"@) == Some(seq![("x"@, v)]),
{
    reveal_strlit("/a/:x/b");
    reveal_strlit("/a/");
    reveal_strlit("/b");
    reveal_strlit("x");
    reveal_strlit("a");
    reveal_strlit("b");
    reveal_strlit("");
    let p = "/a/:x/b"@;
    assert(p =~= seq!['/', 'a', '/', ':', 'x', '/', 'b']);
    // the pattern splits into ["", "a", ":x", "b"]
    let e: Seq<char> = Seq::empty();
    let sa = seq!['a'];
    let sx = seq![':', 'x'];
    let sb = seq!['b'];
    lemma_split_at_slash(p, 0);
    let p1 = p.skip(1);
    assert(p1[1] == '/');
    assert(p1[0] != '/');
    lemma_split_at_slash(p1, 1);
    assert(p1.take(1) =~= sa);
    let p2 = p1.skip(2);
    assert(p2 =~= seq![':', 'x', '/', 'b']);
    lemma_split_at_slash(p2, 2);
    assert(p2.take(2) =~= sx);
    let p3 = p2.skip(3);
    assert(p3 =~= sb);
    lemma_split_no_slash(p3);
    assert(p.take(0) =~= e);
    assert(split_slash(p) =~~= seq![e, sa, sx, sb]);
    // hence it compiles to [Lit "", Lit "a", Param "x", Lit "b"]
    let fs = compile_frags(p);
    assert(fs.len() == 4);
    assert(fs[0] == frag_of(e));
    assert(fs[1] == frag_of(sa));
    assert(fs[2] == frag_of(sx));
    assert(fs[3] == frag_of(sb));
    assert(sx.skip(1) =~= seq!['x']);
    assert("x"@ =~= seq!['x']);
    assert(fs[2] == FragView::Param("x"@));
    // the request path, piece by piece
    let t = "/a/"@ + v + "/b"@;
    assert(t.len() == v.len() + 5);
    assert(t[0] == '/');
    assert(t.take(0) =~= e);
    let t1 = t.skip(1);
    assert(t1 =~= seq!['a', '/'] + v + "/b"@);
    assert(fs.skip(1)[0] == fs[1]);
    assert(t1.take(1) =~= sa);
    assert(t1[1] == '/');
    let t2 = t1.skip(2);
    assert(t2 =~= v + "/b"@);
    assert(fs.skip(2) =~= fs.skip(1).skip(1));
    assert(fs.skip(2)[0] == fs[2]);
    // the parameter takes exactly `v`: the first slash stands right after
    assert(t2[v.len() as int] == '/');
    assert forall|k: int| 0 <= k < v.len() implies t2[k] != '/' by {
        assert(t2[k] == v[k]);
    }
    assert(t2.contains('/')) by {
        assert(t2[v.len() as int] == '/');
    }
    lemma_first_of_is(t2, '/', v.len() as int);
    assert(t2.take(v.len() as int) =~= v);
    let t3 = t2.skip(v.len() as int + 1);
    assert(t3 =~= sb);
    assert(fs.skip(3) =~= fs.skip(2).skip(1));
    assert(fs.skip(3)[0] == fs[3]);
    assert(fs.skip(3).len() == 1);
    // the last fragment consumes the rest
    assert(frags_match(fs.skip(3), t3) == Some(Seq::<(Seq<char>, Seq<char>)>::empty()));
    assert(frags_match(fs.skip(2), t2) == Some(seq![("x"@, v)] + Seq::<(
        Seq<char>,
        Seq<char>,
    )>::empty()));
    assert(seq![("x"@, v)] + Seq::<(Seq<char>, Seq<char>)>::empty() =~= seq![("x"@, v)]);
    assert(frags_match(fs.skip(1), t1) == Some(seq![("x"@, v)]));
    assert(frags_match(fs, t) == Some(seq![("x"@, v)]));
}

/// A trailing `*name` captures everything after the literal prefix,
/// slashes included: the pattern `/files/*path` matched against
/// `/files/` + `t` binds `path` to the whole tail `t`.
pub proof fn lemma_wildcard_takes_tail(tail: Seq<char>)
    ensures
        frags_match(compile_frags("/files/*path"@), "/files/"@ + tail) == Some(
            seq![("path"@, tail)],
        ),
{
    reveal_strlit("/files/*path");
    reveal_strlit("/files/");
    reveal_strlit("path");
    reveal_strlit("files");
    let p = "/files/*path"@;
    assert(p =~= seq!['/', 'f', 'i', 'l', 'e', 's', '/', '*', 'p', 'a', 't', 'h']);
    let e: Seq<char> = Seq::empty();
    let sf = seq!['f', 'i', 'l', 'e', 's'];
    let sw = seq!['*', 'p', 'a', 't', 'h'];
    lemma_split_at_slash(p, 0);
    let p1 = p.skip(1);
    assert(p1[5] == '/');
    assert forall|k: int| 0 <= k < 5 implies p1[k] != '/' by {}
    lemma_split_at_slash(p1, 5);
    assert(p1.take(5) =~= sf);
    let p2 = p1.skip(6);
    assert(p2 =~= sw);
    lemma_split_no_slash(p2);
    assert(p.take(0) =~= e);
    assert(split_slash(p) =~~= seq![e, sf, sw]);
    let fs = compile_frags(p);
    assert(fs.len() == 3);
    assert(fs[0] == frag_of(e));
    assert(fs[1] == frag_of(sf));
    assert(fs[2] == frag_of(sw));
    assert(sw.skip(1) =~= seq!['p', 'a', 't', 'h']);
    assert("path"@ =~= seq!['p', 'a', 't', 'h']);
    assert("files"@ =~= sf);
    assert(fs[2] == FragView::Wild("path"@));
    let t = "/files/"@ + tail;
    assert(t[0] == '/');
    assert(t.take(0) =~= e);
    let t1 = t.skip(1);
    assert(t1 =~= seq!['f', 'i', 'l', 'e', 's', '/'] + tail);
    assert(fs.skip(1)[0] == fs[1]);
    assert(t1.take(5) =~= sf);
    assert(t1[5] == '/');
    let t2 = t1.skip(6);
    assert(t2 =~= tail);
    assert(fs.skip(2) =~= fs.skip(1).skip(1));
    assert(fs.skip(2)[0] == fs[2]);
    assert(fs.skip(2).len() == 1);
    assert(frags_match(fs.skip(2), t2) == Some(seq![("path"@, tail)]));
    assert(frags_match(fs.skip(1), t1) == Some(seq![("path"@, tail)]));
    assert(frags_match(fs, t) == Some(seq![("path"@, tail)]));
}

/// Parameter extraction, end to end: when the matcher's contract holds of
/// a query for `/a/` + `v` + `/b` against a single unconstrained candidate
/// with the pattern `/a/:x/b`, the answer must be a match that binds `x`
/// to `v` and `_path` to the pattern — for every non-empty slash-free `v`
/// and every request.  Together with `match_route`'s `ensures`, this pins
/// any router whose candidates for that path are exactly this route.
pub proof fn lemma_param_extraction_end_to_end(
    cands: Seq<RouteOpts>,
    ro: RouteOpts,
    v: Seq<char>,
    o: OptsV,
    res: Option<MatchResult>,
)
    requires
        cands == seq![ro],
        ro.path_org@ == "/a/:x/b"@,
        ro.compiled matches Some(fs) && frags_view(fs@) == compile_frags("/a/:x/b"@),
        ro.methods.bits == 0,
        ro.hosts is None,
        ro.vars is None,
        ro.filter_fn is None,
        v.len() > 0,
        !v.contains('/'),
        match_post(cands, "/a/"@ + v + "/b"@, o, res),
    ensures
        res matches Some(m) && m.matched@.contains_key("x"@) && m.matched@["x"@] == v
            && m.matched@["_path"@] == "/a/:x/b"@ && m.id@ == ro.id@ && m.metadata == ro.metadata,
{
    let path = "/a/"@ + v + "/b"@;
    lemma_param_round_trip(v);
    let caps = seq![("x"@, v)];
    assert(params_result(ro, path) == Some(caps));
    assert(static_pass(ro, path, o));
    assert(!candidate_dynamic(ro, o));
    match res {
        Some(m) => {
            let i = choose|i: int|
                #![trigger cands[i]]
                {
                    &&& 0 <= i < cands.len()
                    &&& static_pass(cands[i], path, o)
                    &&& result_matches(cands[i], path, o, m)
                    &&& forall|j: int| 0 <= j < i ==> rejectable(#[trigger] cands[j], path, o)
                };
            assert(cands[i] == ro);
            let base = matched_map(ro, path, o);
            lemma_captures_land_in_map(
                match o.method {
                    Some(ms) => Map::<Seq<char>, Seq<char>>::empty().insert("_method"@, ms),
                    None => Map::<Seq<char>, Seq<char>>::empty(),
                },
                caps,
                0,
            );
            reveal_strlit("x");
            reveal_strlit("_path");
            assert("x"@.len() != "_path"@.len());
            assert(base.contains_key("x"@) && base["x"@] == v);
            assert(m.matched@ == base.insert("_path"@, ro.path_org@));
        },
        None => {
            assert(rejectable(cands[0], path, o));
            assert(false);
        },
    }
}

/// Wildcard capture, end to end: when the matcher's contract holds of a
/// query for `/files/` + `tail` against a single unconstrained candidate
/// with the pattern `/files/*path`, the answer must be a match binding
/// `path` to the whole tail, slashes included — for every tail and every
/// request.
pub proof fn lemma_wildcard_end_to_end(
    cands: Seq<RouteOpts>,
    ro: RouteOpts,
    tail: Seq<char>,
    o: OptsV,
    res: Option<MatchResult>,
)
    requires
        cands == seq![ro],
        ro.path_org@ == "/files/*path"@,
        ro.compiled matches Some(fs) && frags_view(fs@) == compile_frags("/files/*path"@),
        ro.methods.bits == 0,
        ro.hosts is None,
        ro.vars is None,
        ro.filter_fn is None,
        match_post(cands, "/files/"@ + tail, o, res),
    ensures
        res matches Some(m) && m.matched@.contains_key("path"@) && m.matched@["path"@] == tail
            && m.matched@["_path"@] == "/files/*path"@,
{
    let path = "/files/"@ + tail;
    lemma_wildcard_takes_tail(tail);
    let caps = seq![("path"@, tail)];
    assert(params_result(ro, path) == Some(caps));
    assert(static_pass(ro, path, o));
    assert(!candidate_dynamic(ro, o));
    match res {
        Some(m) => {
            let i = choose|i: int|
                #![trigger cands[i]]
                {
                    &&& 0 <= i < cands.len()
                    &&& static_pass(cands[i], path, o)
                    &&& result_matches(cands[i], path, o, m)
                    &&& forall|j: int| 0 <= j < i ==> rejectable(#[trigger] cands[j], path, o)
                };
            assert(cands[i] == ro);
            let base = matched_map(ro, path, o);
            lemma_captures_land_in_map(
                match o.method {
                    Some(ms) => Map::<Seq<char>, Seq<char>>::empty().insert("_method"@, ms),
                    None => Map::<Seq<char>, Seq<char>>::empty(),
                },
                caps,
                0,
            );
            reveal_strlit("path");
            reveal_strlit("_path");
            assert("path"@.len() != "_path"@.len());
            assert(base.contains_key("path"@) && base["path"@] == tail);
            assert(m.matched@ == base.insert("_path"@, ro.path_org@));
        },
        None => {
            assert(rejectable(cands[0], path, o));
            assert(false);
        },
    }
}

/// A capture lands in the `matched` map under its name: the map built from
/// a capture list holds, for each name, the value of the last capture
/// carrying it.
pub proof fn lemma_captures_land_in_map(
    m: Map<Seq<char>, Seq<char>>,
    ps: Seq<(Seq<char>, Seq<char>)>,
    i: int,
)
    requires
        0 <= i < ps.len(),
        forall|j: int| i < j < ps.len() ==> (#[trigger] ps[j]).0 != ps[i].0,
    ensures
        pairs_into_map(m, ps).contains_key(ps[i].0),
        pairs_into_map(m, ps)[ps[i].0] == ps[i].1,
    decreases ps.len(),
{
    if i < ps.len() - 1 {
        assert forall|j: int| i < j < ps.drop_last().len() implies (#[trigger] ps.drop_last()[j]).0
            != ps.drop_last()[i].0 by {
            assert(ps.drop_last()[j] == ps[j]);
        }
        lemma_captures_land_in_map(m, ps.drop_last(), i);
        assert(ps.last().0 != ps[i].0);
    }
}

/// A name no capture carries stays as the map had it.
pub proof fn lemma_other_names_untouched(
    m: Map<Seq<char>, Seq<char>>,
    ps: Seq<(Seq<char>, Seq<char>)>,
    name: Seq<char>,
)
    requires
        forall|j: int| 0 <= j < ps.len() ==> (#[trigger] ps[j]).0 != name,
    ensures
        pairs_into_map(m, ps).contains_key(name) == m.contains_key(name),
        m.contains_key(name) ==> pairs_into_map(m, ps)[name] == m[name],
    decreases ps.len(),
{
    if ps.len() > 0 {
        lemma_other_names_untouched(m, ps.drop_last(), name);
    }
}

/// No record anywhere in the index carries `id`.
pub open spec fn id_fresh(bv: Seq<BucketView>, id: Seq<char>) -> bool {
    forall|i: int, j: int|
        0 <= i < bv.len() && 0 <= j < bv[i].routes.len() ==> (#[trigger] bv[i].routes[j]).id@ != id
}

/// Removing an id that no record carries changes nothing.
proof fn lemma_retained_fresh(rs: Seq<RouteOpts>, id: Seq<char>)
    requires
        forall|j: int| 0 <= j < rs.len() ==> (#[trigger] rs[j]).id@ != id,
    ensures
        retained(rs, id) == rs,
    decreases rs.len(),
{
    if rs.len() > 0 {
        assert forall|j: int| 0 <= j < rs.skip(1).len() implies (#[trigger] rs.skip(1)[j]).id@
            != id by {
            assert(rs.skip(1)[j] == rs[j + 1]);
        }
        lemma_retained_fresh(rs.skip(1), id);
        assert(seq![rs[0]] + rs.skip(1) =~= rs);
    }
}

/// Removing an id right after inserting its one record restores the list.
proof fn lemma_retained_insert(rs: Seq<RouteOpts>, ro: RouteOpts, p: int)
    requires
        0 <= p <= rs.len(),
        forall|j: int| 0 <= j < rs.len() ==> (#[trigger] rs[j]).id@ != ro.id@,
    ensures
        retained(rs.insert(p, ro), ro.id@) == rs,
    decreases p,
{
    let ns = rs.insert(p, ro);
    if p == 0 {
        assert(ns.skip(1) =~= rs);
        lemma_retained_fresh(rs, ro.id@);
        assert(retained(ns, ro.id@) =~= Seq::<RouteOpts>::empty() + retained(rs, ro.id@));
        assert(Seq::<RouteOpts>::empty() + rs =~= rs);
    } else {
        assert(ns[0] == rs[0]);
        assert(ns.skip(1) =~= rs.skip(1).insert(p - 1, ro));
        assert forall|j: int| 0 <= j < rs.skip(1).len() implies (#[trigger] rs.skip(1)[j]).id@
            != ro.id@ by {
            assert(rs.skip(1)[j] == rs[j + 1]);
        }
        lemma_retained_insert(rs.skip(1), ro, p - 1);
        assert(retained(ns, ro.id@) == seq![rs[0]] + retained(ns.skip(1), ro.id@));
        assert(seq![rs[0]] + rs.skip(1) =~= rs);
    }
}

/// Removing a record's id right after inserting the record restores the
/// whole index.
proof fn lemma_remove_of_insert(bv: Seq<BucketView>, ro: RouteOpts)
    requires
        id_fresh(bv, ro.id@),
        forall|i: int| 0 <= i < bv.len() ==> (#[trigger] bv[i]).routes.len() > 0,
    ensures
        remove_from(insert_into(bv, ro.path@, ro), ro.path@, ro.id@) == Some(bv),
    decreases bv.len(),
{
    let key = ro.path@;
    let id = ro.id@;
    let ins = insert_into(bv, key, ro);
    if bv.len() == 0 {
        assert(ins =~= seq![BucketView { key, routes: seq![ro] }]);
        assert(retained(seq![ro], id) =~= Seq::<RouteOpts>::empty() + retained(
            seq![ro].skip(1),
            id,
        ));
        assert(seq![ro].skip(1) =~= Seq::<RouteOpts>::empty());
        assert(retained(seq![ro], id).len() == 0);
        assert(ins.skip(1) =~= bv);
    } else if bv[0].key == key {
        let rs = bv[0].routes;
        let b2 = BucketView { key, routes: insert_sorted(rs, ro) };
        assert(ins =~= seq![b2] + bv.skip(1));
        assert(ins[0] == b2);
        lemma_insert_pos_props(rs, ro);
        assert forall|j: int| 0 <= j < rs.len() implies (#[trigger] rs[j]).id@ != id by {
            assert(bv[0].routes[j].id@ != id);
        }
        lemma_retained_insert(rs, ro, insert_pos(rs, ro));
        assert(retained(b2.routes, id) == rs);
        assert(rs.len() > 0);
        assert(seq![BucketView { key, routes: rs }] + ins.skip(1) =~= bv) by {
            assert(BucketView { key, routes: rs } == bv[0]);
            assert(ins.skip(1) =~= bv.skip(1));
        }
        assert(remove_from(ins, key, id) == Some(
            seq![BucketView { key, routes: rs }] + ins.skip(1),
        ));
    } else {
        let rec = insert_into(bv.skip(1), key, ro);
        assert(ins =~= seq![bv[0]] + rec);
        assert(ins[0] == bv[0]);
        assert forall|i: int, j: int|
            0 <= i < bv.skip(1).len() && 0 <= j < bv.skip(1)[i].routes.len() implies (
        #[trigger] bv.skip(1)[i].routes[j]).id@ != id by {
            assert(bv.skip(1)[i] == bv[i + 1]);
        }
        assert forall|i: int| 0 <= i < bv.skip(1).len() implies (#[trigger] bv.skip(
            1,
        )[i]).routes.len() > 0 by {
            assert(bv.skip(1)[i] == bv[i + 1]);
        }
        lemma_remove_of_insert(bv.skip(1), ro);
        assert(ins.skip(1) =~= rec);
        assert(remove_from(ins, key, id) == Some(seq![bv[0]] + bv.skip(1)));
        assert(seq![bv[0]] + bv.skip(1) =~= bv);
    }
}

/// Insertion under one key and removal under another commute.
proof fn lemma_remove_insert_commute(
    bv: Seq<BucketView>,
    key: Seq<char>,
    id: Seq<char>,
    ro2: RouteOpts,
)
    requires
        key != ro2.path@,
    ensures
        remove_from(insert_into(bv, ro2.path@, ro2), key, id) == (match remove_from(bv, key, id) {
            Some(nv) => Some(insert_into(nv, ro2.path@, ro2)),
            None => None,
        }),
    decreases bv.len(),
{
    let key2 = ro2.path@;
    let ins = insert_into(bv, key2, ro2);
    if bv.len() == 0 {
        assert(ins =~= seq![BucketView { key: key2, routes: seq![ro2] }]);
        assert(remove_from(ins.skip(1), key, id) is None);
    } else if bv[0].key == key2 {
        let b2 = BucketView { key: key2, routes: insert_sorted(bv[0].routes, ro2) };
        assert(ins =~= seq![b2] + bv.skip(1));
        assert(ins[0] == b2);
        assert(ins.skip(1) =~= bv.skip(1));
        match remove_from(bv.skip(1), key, id) {
            Some(t) => {
                assert(remove_from(bv, key, id) == Some(seq![bv[0]] + t));
                assert(remove_from(ins, key, id) == Some(seq![b2] + t));
                let nv = seq![bv[0]] + t;
                assert(nv[0] == bv[0]);
                assert(nv.skip(1) =~= t);
                assert(insert_into(nv, key2, ro2) =~= seq![b2] + t);
            },
            None => {
                assert(remove_from(bv, key, id) is None);
                assert(remove_from(ins, key, id) is None);
            },
        }
    } else if bv[0].key == key {
        assert(ins =~= seq![bv[0]] + insert_into(bv.skip(1), key2, ro2));
        assert(ins[0] == bv[0]);
        assert(ins.skip(1) =~= insert_into(bv.skip(1), key2, ro2));
        let rs = retained(bv[0].routes, id);
        if rs.len() == 0 {
            assert(remove_from(bv, key, id) == Some(bv.skip(1)));
            assert(remove_from(ins, key, id) == Some(ins.skip(1)));
        } else {
            let b2 = BucketView { key, routes: rs };
            assert(remove_from(bv, key, id) == Some(seq![b2] + bv.skip(1)));
            assert(remove_from(ins, key, id) == Some(seq![b2] + ins.skip(1)));
            let nv = seq![b2] + bv.skip(1);
            assert(nv[0] == b2);
            assert(b2.key != key2);
            assert(nv.skip(1) =~= bv.skip(1));
            assert(insert_into(nv, key2, ro2) =~= seq![b2] + insert_into(bv.skip(1), key2, ro2));
        }
    } else {
        assert(ins =~= seq![bv[0]] + insert_into(bv.skip(1), key2, ro2));
        assert(ins[0] == bv[0]);
        assert(ins.skip(1) =~= insert_into(bv.skip(1), key2, ro2));
        lemma_remove_insert_commute(bv.skip(1), key, id, ro2);
        match remove_from(bv.skip(1), key, id) {
            Some(t) => {
                assert(remove_from(bv, key, id) == Some(seq![bv[0]] + t));
                assert(remove_from(ins, key, id) == Some(
                    seq![bv[0]] + insert_into(t, key2, ro2),
                ));
                let nv = seq![bv[0]] + t;
                assert(nv[0] == bv[0]);
                assert(nv.skip(1) =~= t);
                assert(insert_into(nv, key2, ro2) =~= seq![bv[0]] + insert_into(t, key2, ro2));
            },
            None => {
                assert(remove_from(bv, key, id) is None);
                assert(remove_from(ins, key, id) is None);
            },
        }
    }
}

/// The slot a record occupies: its index kind and its key.
pub open spec fn same_slot(a: RouteOpts, b: RouteOpts) -> bool {
    a.path_op == b.path_op && a.path@ == b.path@
}

/// Removing a record commutes with inserting a record of another slot.
proof fn lemma_remove_commutes_one(
    hv: Seq<BucketView>,
    tv: Seq<BucketView>,
    ro2: RouteOpts,
    rm: RouteOpts,
)
    requires
        !same_slot(ro2, rm),
        remove_record(hv, tv, rm) is Some,
    ensures
        ({
            let p = insert_record(hv, tv, ro2);
            remove_record(p.0, p.1, rm) == Some(
                ({
                    let q = remove_record(hv, tv, rm)->Some_0;
                    insert_record(q.0, q.1, ro2)
                }),
            )
        }),
{
    if ro2.path_op == rm.path_op {
        assert(ro2.path@ != rm.path@);
        if rm.path_op == PathOp::Equal {
            lemma_remove_insert_commute(hv, rm.path@, rm.id@, ro2);
        } else {
            lemma_remove_insert_commute(tv, rm.path@, rm.id@, ro2);
        }
    } else {
    }
}

/// Removing a record commutes with inserting a run of records none of
/// which occupies the record's slot.
proof fn lemma_remove_commutes_with_inserts(
    hv: Seq<BucketView>,
    tv: Seq<BucketView>,
    ros: Seq<RouteOpts>,
    rm: RouteOpts,
)
    requires
        forall|i: int| 0 <= i < ros.len() ==> !same_slot(#[trigger] ros[i], rm),
        remove_record(hv, tv, rm) is Some,
    ensures
        ({
            let p = insert_records(hv, tv, ros);
            remove_record(p.0, p.1, rm) == Some(
                ({
                    let q = remove_record(hv, tv, rm)->Some_0;
                    insert_records(q.0, q.1, ros)
                }),
            )
        }),
    decreases ros.len(),
{
    if ros.len() > 0 {
        let p1 = insert_record(hv, tv, ros[0]);
        lemma_remove_commutes_one(hv, tv, ros[0], rm);
        assert forall|i: int| 0 <= i < ros.skip(1).len() implies !same_slot(
            #[trigger] ros.skip(1)[i],
            rm,
        ) by {
            assert(ros.skip(1)[i] == ros[i + 1]);
        }
        lemma_remove_commutes_with_inserts(p1.0, p1.1, ros.skip(1), rm);
        let q = remove_record(hv, tv, rm)->Some_0;
        let q1 = remove_record(p1.0, p1.1, rm)->Some_0;
        assert(q1 == insert_record(q.0, q.1, ros[0]));
    }
}

/// Inserting a run of records and then removing them again, first to last,
/// restores both indices: the records share one fresh id, and no two of
/// them occupy the same slot.  The removal run may rebuild the records
/// (`ros2`), as `delete_route` does; only slots and ids matter.
proof fn lemma_inserts_then_removes(
    h0: Seq<BucketView>,
    t0: Seq<BucketView>,
    ros: Seq<RouteOpts>,
    ros2: Seq<RouteOpts>,
    id: Seq<char>,
)
    requires
        index_wf(h0, PathOp::Equal),
        index_wf(t0, PathOp::PrefixMatch),
        id_fresh(h0, id),
        id_fresh(t0, id),
        ros.len() == ros2.len(),
        forall|i: int|
            0 <= i < ros.len() ==> same_slot(#[trigger] ros[i], ros2[i]) && ros[i].id@ == id
                && ros2[i].id@ == id && record_wf(ros[i]),
        forall|i: int, j: int|
            0 <= i < j < ros.len() ==> !same_slot(#[trigger] ros[i], #[trigger] ros[j]),
    ensures
        ({
            let p = insert_records(h0, t0, ros);
            remove_records(p.0, p.1, ros2) == Some((h0, t0))
        }),
    decreases ros.len(),
{
    if ros.len() > 0 {
        let r0 = ros[0];
        let s0 = ros2[0];
        let p1 = insert_record(h0, t0, r0);
        let p = insert_records(h0, t0, ros);
        assert(p == insert_records(p1.0, p1.1, ros.skip(1)));
        // removing the first record from its own freshly made slot
        // restores the state before that insertion
        if r0.path_op == PathOp::Equal {
            assert forall|i: int| 0 <= i < h0.len() implies (#[trigger] h0[i]).routes.len()
                > 0 by {
                assert(bucket_wf(h0[i], PathOp::Equal));
            }
            lemma_remove_of_insert(h0, r0);
            assert(remove_from(insert_into(h0, r0.path@, r0), s0.path@, s0.id@) == Some(h0));
            assert(remove_record(p1.0, p1.1, s0) == Some((h0, t0)));
        } else {
            assert forall|i: int| 0 <= i < t0.len() implies (#[trigger] t0[i]).routes.len()
                > 0 by {
                assert(bucket_wf(t0[i], PathOp::PrefixMatch));
            }
            lemma_remove_of_insert(t0, r0);
            assert(remove_record(p1.0, p1.1, s0) == Some((h0, t0)));
        }
        // that removal commutes past the later insertions
        assert forall|i: int| 0 <= i < ros.skip(1).len() implies !same_slot(
            #[trigger] ros.skip(1)[i],
            s0,
        ) by {
            assert(ros.skip(1)[i] == ros[i + 1]);
        }
        lemma_remove_commutes_with_inserts(p1.0, p1.1, ros.skip(1), s0);
        assert(remove_record(p.0, p.1, s0) == Some(insert_records(h0, t0, ros.skip(1))));
        // the remaining records restore the rest by induction
        assert forall|i: int| 0 <= i < ros.skip(1).len() implies same_slot(
            #[trigger] ros.skip(1)[i],
            ros2.skip(1)[i],
        ) && ros.skip(1)[i].id@ == id && ros2.skip(1)[i].id@ == id && record_wf(
            ros.skip(1)[i],
        ) by {
            assert(ros.skip(1)[i] == ros[i + 1]);
            assert(ros2.skip(1)[i] == ros2[i + 1]);
        }
        assert forall|i: int, j: int| 0 <= i < j < ros.skip(1).len() implies !same_slot(
            #[trigger] ros.skip(1)[i],
            #[trigger] ros.skip(1)[j],
        ) by {
            assert(ros.skip(1)[i] == ros[i + 1]);
            assert(ros.skip(1)[j] == ros[j + 1]);
        }
        lemma_inserts_then_removes(h0, t0, ros.skip(1), ros2.skip(1), id);
        let pr = insert_records(h0, t0, ros.skip(1));
        assert(remove_records(pr.0, pr.1, ros2.skip(1)) == Some((h0, t0)));
        assert(remove_records(p.0, p.1, ros2) == remove_records(pr.0, pr.1, ros2.skip(1)));
    } else {
        assert(insert_records(h0, t0, ros) == (h0, t0));
    }
}

/// Registering a route and then removing the identical descriptor restores
/// the router to a state indistinguishable from before: for a router that
/// holds no record under the descriptor's id, and a descriptor whose paths
/// claim pairwise distinct index slots, a successful `add_route` followed
/// by a successful `delete_route` of the same descriptor brings both
/// indices back exactly, so every later query answers as before.
pub proof fn lemma_add_then_delete_restores(
    h0: Seq<BucketView>,
    t0: Seq<BucketView>,
    h1: Seq<BucketView>,
    t1: Seq<BucketView>,
    h2: Seq<BucketView>,
    t2: Seq<BucketView>,
    route: RadixNode,
)
    requires
        index_wf(h0, PathOp::Equal),
        index_wf(t0, PathOp::PrefixMatch),
        id_fresh(h0, route.id@),
        id_fresh(t0, route.id@),
        forall|i: int, j: int|
            0 <= i < j < route.paths@.len() ==> !(path_is_exact(#[trigger] route.paths@[i]@)
                == path_is_exact(#[trigger] route.paths@[j]@) && path_key_of(route.paths@[i]@)
                == path_key_of(route.paths@[j]@)),
        add_post(h0, t0, route, Result::<(), RouterError>::Ok(()), h1, t1),
        delete_post(h1, t1, route, Result::<(), RouterError>::Ok(()), h2, t2),
    ensures
        h2 == h0,
        t2 == t0,
{
    let n = route.paths@.len() as int;
    let ros = choose|ros: Seq<RouteOpts>|
        #![auto]
        records_for(route, ros, n) && insert_records(h0, t0, ros) == (h1, t1);
    let ros2 = choose|ros2: Seq<RouteOpts>|
        #![auto]
        records_for(route, ros2, n) && remove_records(h1, t1, ros2) == Some((h2, t2))
            && removes_hit(h1, t1, ros2);
    assert forall|i: int| 0 <= i < n implies same_slot(#[trigger] ros[i], ros2[i]) && ros[i].id@
        == route.id@ && ros2[i].id@ == route.id@ && record_wf(ros[i]) by {
        assert(record_rel(route, route.paths@[i]@, ros[i]));
        assert(record_rel(route, route.paths@[i]@, ros2[i]));
    }
    assert forall|i: int, j: int| 0 <= i < j < n implies !same_slot(
        #[trigger] ros[i],
        #[trigger] ros[j],
    ) by {
        assert(record_rel(route, route.paths@[i]@, ros[i]));
        assert(record_rel(route, route.paths@[j]@, ros[j]));
    }
    lemma_inserts_then_removes(h0, t0, ros, ros2, route.id@);
    assert(remove_records(h1, t1, ros2) == Some((h0, t0)));
}

} // verus!
