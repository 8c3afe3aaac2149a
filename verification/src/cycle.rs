//! Cycle detection over the recipe graph.
//!
//! The catalog induces a directed graph on ingredient names: an edge runs
//! from a produced ingredient to each input of its recipe. A committed
//! catalog must keep this graph acyclic, so before a recipe for `output` may
//! take `candidate` as an input, [`would_create_cycle`] asks whether
//! `candidate` already reaches `output` through the committed graph.
//!
//! The search keeps an explicit visited set and worklist, so it terminates
//! even on a catalog that (through some outside mistake) already holds a
//! cycle.

use crate::data::{has_key, key_index, recipe_keys, spec_find, Ingredient, RecipeDB, RecipeModel};
use vstd::prelude::*;
use vstd::seq_lib::seq_to_set_is_finite;
use vstd::set_lib::lemma_len_subset;

verus! {

/// One production edge: `to` is an input of the recipe producing `from`.
pub open spec fn edge(rs: Seq<(Seq<char>, RecipeModel)>, from: Seq<char>, to: Seq<char>) -> bool {
    exists|k: int, j: int|
        0 <= k < rs.len() && rs[k].0 == from && 0 <= j < rs[k].1.inputs.len() && (
        #[trigger] rs[k].1.inputs[j]).0 == to
}

/// `from` reaches `to` along at most `n` production edges.
pub open spec fn reach_n(
    rs: Seq<(Seq<char>, RecipeModel)>,
    from: Seq<char>,
    to: Seq<char>,
    n: nat,
) -> bool
    decreases n,
{
    from == to || (n > 0 && exists|mid: Seq<char>|
        #[trigger] edge(rs, from, mid) && reach_n(rs, mid, to, (n - 1) as nat))
}

/// `from` reaches `to` along the reflexive, transitive "input of" relation.
pub open spec fn reaches(
    rs: Seq<(Seq<char>, RecipeModel)>,
    from: Seq<char>,
    to: Seq<char>,
) -> bool {
    exists|n: nat| reach_n(rs, from, to, n)
}

/// No ingredient is (directly or transitively) an input to its own producing
/// recipe.
pub open spec fn acyclic(rs: Seq<(Seq<char>, RecipeModel)>) -> bool {
    forall|a: Seq<char>, b: Seq<char>| #[trigger] edge(rs, a, b) ==> !reaches(rs, b, a)
}

/// An edge springs from any recipe entry to any of its inputs.
pub proof fn lemma_edge_intro(rs: Seq<(Seq<char>, RecipeModel)>, k: int, j: int)
    requires
        0 <= k < rs.len(),
        0 <= j < rs[k].1.inputs.len(),
    ensures
        edge(rs, rs[k].0, rs[k].1.inputs[j].0),
{
    assert(0 <= k < rs.len() && rs[k].0 == rs[k].0 && 0 <= j < rs[k].1.inputs.len() && (
    #[trigger] rs[k].1.inputs[j]).0 == rs[k].1.inputs[j].0);
}

/// When keys are distinct, an edge out of `from` names an input of the one
/// recipe that `spec_find` returns for `from`.
pub proof fn lemma_edge_elim(rs: Seq<(Seq<char>, RecipeModel)>, from: Seq<char>, to: Seq<char>)
    requires
        edge(rs, from, to),
        crate::data::distinct_names(recipe_keys(rs)),
    ensures
        has_key(rs, from),
        spec_find(rs, from) is Some,
        exists|j: int|
            0 <= j < spec_find(rs, from)->Some_0.inputs.len() && (#[trigger] spec_find(
                rs,
                from,
            )->Some_0.inputs[j]).0 == to,
{
    let (k, j) = choose|k: int, j: int|
        0 <= k < rs.len() && rs[k].0 == from && 0 <= j < rs[k].1.inputs.len() && (
        #[trigger] rs[k].1.inputs[j]).0 == to;
    assert((#[trigger] rs[k]).0 == from);
    let kx = key_index(rs, from);
    assert(recipe_keys(rs)[kx] == rs[kx].0);
    assert(recipe_keys(rs)[k] == rs[k].0);
    assert(kx == k);
    assert(spec_find(rs, from) == Some(rs[k].1));
    assert((#[trigger] spec_find(rs, from)->Some_0.inputs[j]).0 == to);
}

/// Reachability within a step bound still holds for any larger bound.
pub proof fn lemma_reach_mono(
    rs: Seq<(Seq<char>, RecipeModel)>,
    from: Seq<char>,
    to: Seq<char>,
    n: nat,
    m: nat,
)
    requires
        reach_n(rs, from, to, n),
        n <= m,
    ensures
        reach_n(rs, from, to, m),
    decreases n,
{
    if from != to {
        let mid = choose|mid: Seq<char>|
            #[trigger] edge(rs, from, mid) && reach_n(rs, mid, to, (n - 1) as nat);
        lemma_reach_mono(rs, mid, to, (n - 1) as nat, (m - 1) as nat);
    }
}

/// Step bounds add up along a concatenation of two reachability facts.
pub proof fn lemma_reach_n_trans(
    rs: Seq<(Seq<char>, RecipeModel)>,
    a: Seq<char>,
    b: Seq<char>,
    c: Seq<char>,
    n1: nat,
    n2: nat,
)
    requires
        reach_n(rs, a, b, n1),
        reach_n(rs, b, c, n2),
    ensures
        reach_n(rs, a, c, (n1 + n2) as nat),
    decreases n1,
{
    if a == b {
        lemma_reach_mono(rs, b, c, n2, (n1 + n2) as nat);
    } else {
        let mid = choose|mid: Seq<char>|
            #[trigger] edge(rs, a, mid) && reach_n(rs, mid, b, (n1 - 1) as nat);
        lemma_reach_n_trans(rs, mid, b, c, (n1 - 1) as nat, n2);
    }
}

/// Reachability is transitive.
pub proof fn lemma_reach_trans(
    rs: Seq<(Seq<char>, RecipeModel)>,
    a: Seq<char>,
    b: Seq<char>,
    c: Seq<char>,
)
    requires
        reaches(rs, a, b),
        reaches(rs, b, c),
    ensures
        reaches(rs, a, c),
{
    let n1 = choose|n: nat| reach_n(rs, a, b, n);
    let n2 = choose|n: nat| reach_n(rs, b, c, n);
    lemma_reach_n_trans(rs, a, b, c, n1, n2);
}

/// An ingredient without a recipe has no outgoing edges, so it reaches only
/// itself.
pub proof fn lemma_no_key_no_reach(
    rs: Seq<(Seq<char>, RecipeModel)>,
    from: Seq<char>,
    to: Seq<char>,
    n: nat,
)
    requires
        !has_key(rs, from),
        from != to,
    ensures
        !reach_n(rs, from, to, n),
{
    assert forall|mid: Seq<char>| !(#[trigger] edge(rs, from, mid)) by {
        if edge(rs, from, mid) {
            let (k, j) = choose|k: int, j: int|
                0 <= k < rs.len() && rs[k].0 == from && 0 <= j < rs[k].1.inputs.len() && (
                #[trigger] rs[k].1.inputs[j]).0 == mid;
            assert((#[trigger] rs[k]).0 == from);
        }
    }
}

/// A set of names that is closed under production edges and avoids `to`
/// cannot reach `to` from any of its members.
proof fn lemma_closed_unreachable(
    rs: Seq<(Seq<char>, RecipeModel)>,
    c: Set<Seq<char>>,
    to: Seq<char>,
    u: Seq<char>,
    n: nat,
)
    requires
        c.contains(u),
        !c.contains(to),
        forall|x: Seq<char>, v: Seq<char>|
            c.contains(x) && #[trigger] edge(rs, x, v) ==> v != to && (has_key(rs, v)
                ==> c.contains(v)),
    ensures
        !reach_n(rs, u, to, n),
    decreases n,
{
    if reach_n(rs, u, to, n) {
        assert(u != to);
        let mid = choose|mid: Seq<char>|
            #[trigger] edge(rs, u, mid) && reach_n(rs, mid, to, (n - 1) as nat);
        if has_key(rs, mid) {
            lemma_closed_unreachable(rs, c, to, mid, (n - 1) as nat);
        } else {
            lemma_no_key_no_reach(rs, mid, to, (n - 1) as nat);
        }
    }
}

/// The names of a sequence of ingredients, in order.
pub open spec fn names_of(s: Seq<Ingredient>) -> Seq<Seq<char>> {
    s.map(|i: int, e: Ingredient| e@)
}

/// Membership survives appending another element.
proof fn lemma_contains_push(s: Seq<Seq<char>>, x: Seq<char>, y: Seq<char>)
    requires
        s.contains(x),
    ensures
        s.push(y).contains(x),
{
    let k = choose|k: int| 0 <= k < s.len() && s[k] == x;
    assert(s.push(y)[k] == x);
}

/// A path of names where each step follows a production edge, and one more
/// edge leads from the path's last name to `last`.
pub open spec fn chain(rs: Seq<(Seq<char>, RecipeModel)>, path: Seq<Seq<char>>, last: Seq<char>) -> bool {
    &&& forall|i: int| 0 <= i < path.len() - 1 ==> edge(rs, #[trigger] path[i], path[i + 1])
    &&& path.len() > 0 ==> edge(rs, path[path.len() - 1], last)
}

/// Every name on a chain reaches the chain's endpoint.
pub proof fn lemma_chain_reaches(
    rs: Seq<(Seq<char>, RecipeModel)>,
    path: Seq<Seq<char>>,
    last: Seq<char>,
    k: int,
)
    requires
        chain(rs, path, last),
        0 <= k < path.len(),
    ensures
        reaches(rs, path[k], last),
    decreases path.len() - k,
{
    if k == path.len() - 1 {
        assert(edge(rs, path[k], last));
        assert(reach_n(rs, last, last, 0));
        assert(reach_n(rs, path[k], last, 1));
    } else {
        lemma_chain_reaches(rs, path, last, k + 1);
        assert(edge(rs, path[k], path[k + 1]));
        assert(reach_n(rs, path[k + 1], path[k + 1], 0));
        assert(reach_n(rs, path[k], path[k + 1], 1));
        assert(reaches(rs, path[k], path[k + 1]));
        lemma_reach_trans(rs, path[k], path[k + 1], last);
    }
}

/// On an acyclic graph, the endpoint of a chain never occurs on the chain
/// itself: that would close a cycle.
pub proof fn lemma_acyclic_chain_fresh(
    rs: Seq<(Seq<char>, RecipeModel)>,
    path: Seq<Seq<char>>,
    last: Seq<char>,
)
    requires
        acyclic(rs),
        chain(rs, path, last),
    ensures
        !path.contains(last),
{
    if path.contains(last) {
        let k = choose|k: int| 0 <= k < path.len() && path[k] == last;
        if k == path.len() - 1 {
            assert(edge(rs, last, last));
            assert(reach_n(rs, last, last, 0));
            assert(reaches(rs, last, last));
        } else {
            assert(edge(rs, last, path[k + 1]));
            lemma_chain_reaches(rs, path, last, k + 1);
        }
    }
}

/// A chain extends by one step along a further edge.
pub proof fn lemma_chain_push(
    rs: Seq<(Seq<char>, RecipeModel)>,
    path: Seq<Seq<char>>,
    name: Seq<char>,
    child: Seq<char>,
)
    requires
        chain(rs, path, name),
        edge(rs, name, child),
    ensures
        chain(rs, path.push(name), child),
{
    let p2 = path.push(name);
    assert(p2[p2.len() - 1] == name);
    assert forall|i: int| 0 <= i < p2.len() - 1 implies edge(rs, #[trigger] p2[i], p2[i + 1]) by {
        if i < path.len() - 1 {
            assert(p2[i] == path[i] && p2[i + 1] == path[i + 1]);
        } else {
            assert(p2[i] == path[i] && p2[i + 1] == name);
        }
    }
}

/// Distinct names that all key a recipe are at most as many as the recipes.
pub proof fn lemma_seen_bound(rs: Seq<(Seq<char>, RecipeModel)>, names: Seq<Seq<char>>)
    requires
        names.no_duplicates(),
        forall|i: int| 0 <= i < names.len() ==> has_key(rs, #[trigger] names[i]),
    ensures
        names.len() <= rs.len(),
{
    broadcast use seq_to_set_is_finite;

    names.unique_seq_to_set();
    let keys = recipe_keys(rs);
    assert forall|x: Seq<char>| names.to_set().contains(x) implies keys.to_set().contains(x) by {
        let k = choose|k: int| 0 <= k < rs.len() && (#[trigger] rs[k]).0 == x;
        assert(keys[k] == x);
        assert(keys.contains(x));
    }
    keys.lemma_cardinality_of_set();
    lemma_len_subset(names.to_set(), keys.to_set());
}

/// Whether some ingredient in `v` has exactly the name of `x`.
fn contains_ing(v: &Vec<Ingredient>, x: &Ingredient) -> (r: bool)
    ensures
        r == names_of(v@).contains(x@),
{
    let n = v.len();
    for i in 0..n
        invariant
            n == v.len(),
            forall|j: int| 0 <= j < i ==> names_of(v@)[j] != x@,
    {
        if v[i] == *x {
            proof {
                assert(names_of(v@)[i as int] == x@);
            }
            return true;
        }
    }
    false
}

/// Whether committing a recipe for `output` with input `candidate` would
/// close a cycle: true iff `candidate`'s committed recipe graph, followed
/// transitively, reaches `output` (in particular when the two are equal).
///
/// Bounded by a visited set, so it terminates even on a catalog that already
/// holds a cycle.
pub fn would_create_cycle(output: &Ingredient, candidate: &Ingredient, db: &RecipeDB) -> (r: bool)
    requires
        db.wf(),
    ensures
        r == reaches(db@.recipes, candidate@, output@),
{
    let ghost rs = db@.recipes;
    if *candidate == *output {
        proof {
            assert(reach_n(rs, candidate@, output@, 0));
        }
        return true;
    }
    if db.get_recipe(candidate).is_none() {
        proof {
            assert(!has_key(rs, candidate@));
            assert forall|n: nat| !reach_n(rs, candidate@, output@, n) by {
                lemma_no_key_no_reach(rs, candidate@, output@, n);
            }
        }
        return false;
    }
    let mut seen: Vec<Ingredient> = Vec::new();
    let mut stack: Vec<Ingredient> = Vec::new();
    seen.push(candidate.clone());
    stack.push(candidate.clone());
    proof {
        assert(reach_n(rs, candidate@, candidate@, 0));
        assert(names_of(seen@) =~= seq![candidate@]);
        assert(names_of(stack@) =~= seq![candidate@]);
        assert(names_of(seen@)[0] == candidate@);
        assert(names_of(stack@)[0] == candidate@);
        assert(seen@.len() <= rs.len()) by {
            let i = choose|i: int| 0 <= i < rs.len() && (#[trigger] rs[i]).0 == candidate@;
        }
    }
    while stack.len() > 0
        invariant
            db.wf(),
            rs == db@.recipes,
            candidate@ != output@,
            names_of(seen@).no_duplicates(),
            names_of(seen@).contains(candidate@),
            seen@.len() <= rs.len(),
            forall|k: int|
                0 <= k < seen@.len() ==> {
                    &&& has_key(rs, #[trigger] names_of(seen@)[k])
                    &&& names_of(seen@)[k] != output@
                    &&& reaches(rs, candidate@, names_of(seen@)[k])
                },
            forall|k: int|
                0 <= k < stack@.len() ==> names_of(seen@).contains(
                    #[trigger] names_of(stack@)[k],
                ),
            forall|x: Seq<char>, v: Seq<char>|
                names_of(seen@).contains(x) && !names_of(stack@).contains(x) && #[trigger] edge(
                    rs,
                    x,
                    v,
                ) ==> v != output@ && (has_key(rs, v) ==> names_of(seen@).contains(v)),
        decreases rs.len() - seen@.len(), stack@.len(),
    {
        let ghost pre_stack = stack@;
        let u = stack.pop().unwrap();
        proof {
            assert(names_of(pre_stack)[pre_stack.len() - 1] == u@);
            assert(names_of(seen@).contains(u@));
            let k = choose|k: int| 0 <= k < seen@.len() && names_of(seen@)[k] == u@;
            assert(has_key(rs, names_of(seen@)[k]));
            assert(has_key(rs, u@));
            assert(reaches(rs, candidate@, u@));
            assert forall|kk: int|
                0 <= kk < stack@.len() implies names_of(seen@).contains(
                #[trigger] names_of(stack@)[kk],
            ) by {
                assert(stack@[kk] == pre_stack[kk]);
                assert(names_of(pre_stack)[kk] == names_of(stack@)[kk]);
            }
            assert forall|x: Seq<char>, v: Seq<char>|
                names_of(seen@).contains(x) && !names_of(stack@).contains(x) && x != u@
                    && #[trigger] edge(rs, x, v) implies v != output@ && (has_key(rs, v)
                ==> names_of(seen@).contains(v)) by {
                assert(!names_of(pre_stack).contains(x)) by {
                    if names_of(pre_stack).contains(x) {
                        let kk = choose|kk: int|
                            0 <= kk < names_of(pre_stack).len() && names_of(pre_stack)[kk] == x;
                        if kk < pre_stack.len() - 1 {
                            assert(names_of(stack@)[kk] == names_of(pre_stack)[kk]);
                        } else {
                            assert(names_of(pre_stack)[kk] == u@);
                        }
                    }
                }
            }
        }
        let rec_opt = db.get_recipe(&u);
        match rec_opt {
            None => {
                // Unreachable: everything on the worklist keys a recipe.
                proof {
                    assert(false);
                }
                return false;
            },
            Some(rec) => {
                let ghost seen0 = seen@;
                let ghost stack0 = stack@;
                let ghost rm = spec_find(rs, u@)->Some_0;
                let ghost ku = key_index(rs, u@);
                proof {
                    assert(0 <= ku < rs.len() && rs[ku].0 == u@);
                    assert(rs[ku].1 == rm);
                }
                let m = rec.inputs.len();
                for j in 0..m
                    invariant
                        db.wf(),
                        rs == db@.recipes,
                        candidate@ != output@,
                        rec@ == rm,
                        spec_find(rs, u@) == Some(rm),
                        0 <= ku < rs.len(),
                        rs[ku].0 == u@,
                        rs[ku].1 == rm,
                        reaches(rs, candidate@, u@),
                        m == rec.inputs.len(),
                        rm.inputs.len() == m,
                        seen@.len() >= seen0.len(),
                        stack@.len() == stack0.len() + seen@.len() - seen0.len(),
                        names_of(seen@).no_duplicates(),
                        names_of(seen@).contains(candidate@),
                        names_of(seen@).contains(u@),
                        seen@.len() <= rs.len(),
                        forall|k: int|
                            0 <= k < seen@.len() ==> {
                                &&& has_key(rs, #[trigger] names_of(seen@)[k])
                                &&& names_of(seen@)[k] != output@
                                &&& reaches(rs, candidate@, names_of(seen@)[k])
                            },
                        forall|k: int|
                            0 <= k < stack@.len() ==> names_of(seen@).contains(
                                #[trigger] names_of(stack@)[k],
                            ),
                        forall|x: Seq<char>, v: Seq<char>|
                            names_of(seen@).contains(x) && !names_of(stack@).contains(x) && x != u@
                                && #[trigger] edge(rs, x, v) ==> v != output@ && (has_key(rs, v)
                                ==> names_of(seen@).contains(v)),
                        forall|jj: int|
                            0 <= jj < j ==> (#[trigger] rm.inputs[jj]).0 != output@ && (has_key(
                                rs,
                                rm.inputs[jj].0,
                            ) ==> names_of(seen@).contains(rm.inputs[jj].0)),
                    decreases m - j,
                {
                    let inp = &rec.inputs[j];
                    proof {
                        assert(rm.inputs[j as int] == (inp.ing@, inp.count));
                    }
                    if inp.ing == *output {
                        proof {
                            assert(rs[ku].1.inputs[j as int].0 == output@);
                            lemma_edge_intro(rs, ku, j as int);
                            assert(edge(rs, u@, output@));
                            assert(reach_n(rs, output@, output@, 0));
                            assert(reach_n(rs, u@, output@, 1));
                            assert(reaches(rs, u@, output@));
                            lemma_reach_trans(rs, candidate@, u@, output@);
                        }
                        return true;
                    }
                    if db.get_recipe(&inp.ing).is_some() {
                        if !contains_ing(&seen, &inp.ing) {
                            proof {
                                assert(has_key(rs, inp.ing@));
                                let sn = names_of(seen@);
                                let pushed = sn.push(inp.ing@);
                                assert forall|a: int, b: int|
                                    0 <= a < pushed.len() && 0 <= b < pushed.len() && a
                                        != b implies pushed[a] != pushed[b] by {
                                    if a < sn.len() && b < sn.len() {
                                        assert(pushed[a] == sn[a] && pushed[b] == sn[b]);
                                    } else if a < sn.len() {
                                        assert(pushed[a] == sn[a] && pushed[b] == inp.ing@);
                                        assert(!sn.contains(inp.ing@));
                                    } else {
                                        assert(pushed[b] == sn[b] && pushed[a] == inp.ing@);
                                        assert(!sn.contains(inp.ing@));
                                    }
                                }
                                assert(pushed.no_duplicates());
                                assert forall|i: int| 0 <= i < pushed.len() implies has_key(
                                    rs,
                                    #[trigger] pushed[i],
                                ) by {
                                    if i < sn.len() {
                                        assert(pushed[i] == sn[i]);
                                    }
                                }
                                lemma_seen_bound(rs, pushed);
                                assert(rs[ku].1.inputs[j as int].0 == inp.ing@);
                                lemma_edge_intro(rs, ku, j as int);
                                assert(edge(rs, u@, inp.ing@));
                                assert(reach_n(rs, inp.ing@, inp.ing@, 0));
                                assert(reach_n(rs, u@, inp.ing@, 1));
                                lemma_reach_trans(rs, candidate@, u@, inp.ing@);
                            }
                            let ghost seen_before = seen@;
                            let ghost stack_inner_before = stack@;
                            seen.push(inp.ing.clone());
                            stack.push(inp.ing.clone());
                            proof {
                                let sb = names_of(seen_before);
                                let tb = names_of(stack_inner_before);
                                assert(names_of(seen@) =~= sb.push(inp.ing@));
                                assert(names_of(stack@) =~= tb.push(inp.ing@));
                                assert(names_of(stack@)[stack@.len() - 1] == inp.ing@);
                                assert(names_of(seen@)[seen@.len() - 1] == inp.ing@);
                                lemma_contains_push(sb, candidate@, inp.ing@);
                                lemma_contains_push(sb, u@, inp.ing@);
                                assert forall|kk: int|
                                    0 <= kk < stack@.len() implies names_of(seen@).contains(
                                    #[trigger] names_of(stack@)[kk],
                                ) by {
                                    if kk < stack@.len() - 1 {
                                        assert(names_of(stack@)[kk] == tb[kk]);
                                        lemma_contains_push(sb, tb[kk], inp.ing@);
                                    }
                                }
                                assert forall|x: Seq<char>, v: Seq<char>|
                                    names_of(seen@).contains(x) && !names_of(stack@).contains(x)
                                        && x != u@ && #[trigger] edge(rs, x, v) implies v
                                    != output@ && (has_key(rs, v) ==> names_of(seen@).contains(
                                    v,
                                )) by {
                                    assert(names_of(stack@).contains(inp.ing@)) by {
                                        assert(names_of(stack@)[stack@.len() - 1] == inp.ing@);
                                    }
                                    assert(x != inp.ing@);
                                    let k = choose|k: int|
                                        0 <= k < names_of(seen@).len() && names_of(seen@)[k] == x;
                                    assert(k < sb.len());
                                    assert(sb[k] == x);
                                    assert(sb.contains(x));
                                    assert(!tb.contains(x)) by {
                                        if tb.contains(x) {
                                            let k2 = choose|k2: int|
                                                0 <= k2 < tb.len() && tb[k2] == x;
                                            assert(names_of(stack@)[k2] == x);
                                        }
                                    }
                                    if has_key(rs, v) {
                                        lemma_contains_push(sb, v, inp.ing@);
                                    }
                                }
                                assert forall|k: int|
                                    0 <= k < seen@.len() implies {
                                    &&& has_key(rs, #[trigger] names_of(seen@)[k])
                                    &&& names_of(seen@)[k] != output@
                                    &&& reaches(rs, candidate@, names_of(seen@)[k])
                                } by {
                                    if k < sb.len() {
                                        assert(names_of(seen@)[k] == sb[k]);
                                    } else {
                                        assert(names_of(seen@)[k] == inp.ing@);
                                    }
                                }
                                assert forall|jj: int|
                                    0 <= jj < j + 1 implies (#[trigger] rm.inputs[jj]).0
                                    != output@ && (has_key(rs, rm.inputs[jj].0)
                                    ==> names_of(seen@).contains(rm.inputs[jj].0)) by {
                                    if jj < j {
                                        if has_key(rs, rm.inputs[jj].0) {
                                            lemma_contains_push(sb, rm.inputs[jj].0, inp.ing@);
                                        }
                                    } else {
                                        assert(rm.inputs[jj].0 == inp.ing@);
                                        assert(names_of(seen@)[seen@.len() - 1] == inp.ing@);
                                    }
                                }
                            }
                        }
                    }
                }
                proof {
                    // `u` is now fully expanded: every edge out of it leads
                    // away from `output` and into `seen`.
                    assert forall|x: Seq<char>, v: Seq<char>|
                        names_of(seen@).contains(x) && !names_of(stack@).contains(x)
                            && #[trigger] edge(rs, x, v) implies v != output@ && (has_key(rs, v)
                        ==> names_of(seen@).contains(v)) by {
                        if x == u@ {
                            lemma_edge_elim(rs, u@, v);
                            let jj = choose|jj: int|
                                0 <= jj < spec_find(rs, u@)->Some_0.inputs.len() && (
                                #[trigger] spec_find(rs, u@)->Some_0.inputs[jj]).0 == v;
                            assert(rm.inputs[jj].0 == v);
                        }
                    }
                }
            },
        }
    }
    proof {
        let c = names_of(seen@).to_set();
        assert(c.contains(candidate@));
        assert(!c.contains(output@)) by {
            if c.contains(output@) {
                let k = choose|k: int|
                    0 <= k < names_of(seen@).len() && names_of(seen@)[k] == output@;
            }
        }
        assert forall|x: Seq<char>, v: Seq<char>|
            c.contains(x) && #[trigger] edge(rs, x, v) implies v != output@ && (has_key(rs, v)
            ==> c.contains(v)) by {
            assert(names_of(seen@).contains(x));
            assert(!names_of(stack@).contains(x));
        }
        assert forall|n: nat| !reach_n(rs, candidate@, output@, n) by {
            lemma_closed_unreachable(rs, c, output@, candidate@, n);
        }
    }
    false
}

/// An edge of the graph after an insert either springs from the inserted
/// key into one of its new inputs, or is an edge of the old graph from some
/// other name.
proof fn lemma_insert_edge_elim(
    rs: Seq<(Seq<char>, RecipeModel)>,
    key: Seq<char>,
    rm: RecipeModel,
    a: Seq<char>,
    b: Seq<char>,
)
    requires
        crate::data::distinct_names(recipe_keys(rs)),
        edge(crate::data::spec_insert_entry(rs, key, rm), a, b),
    ensures
        a == key ==> exists|j: int| 0 <= j < rm.inputs.len() && (#[trigger] rm.inputs[j]).0 == b,
        a != key ==> edge(rs, a, b),
{
    let rs2 = crate::data::spec_insert_entry(rs, key, rm);
    let (k, j) = choose|k: int, j: int|
        0 <= k < rs2.len() && rs2[k].0 == a && 0 <= j < rs2[k].1.inputs.len() && (
        #[trigger] rs2[k].1.inputs[j]).0 == b;
    if has_key(rs, key) {
        let kx = key_index(rs, key);
        assert(0 <= kx < rs.len() && rs[kx].0 == key);
        if k == kx {
            assert(rs2[k] == (key, rm));
            assert(a == key);
            assert((#[trigger] rm.inputs[j]).0 == b);
        } else {
            assert(rs2[k] == rs[k]);
            assert(a != key) by {
                if a == key {
                    assert(recipe_keys(rs)[k] == rs[k].0);
                    assert(recipe_keys(rs)[kx] == rs[kx].0);
                }
            }
            lemma_edge_intro(rs, k, j);
        }
    } else {
        if k == rs.len() {
            assert(rs2[k] == (key, rm));
            assert((#[trigger] rm.inputs[j]).0 == b);
        } else {
            assert(rs2[k] == rs[k]);
            assert(a != key) by {
                if a == key {
                    assert((#[trigger] rs[k]).0 == key);
                }
            }
            lemma_edge_intro(rs, k, j);
        }
    }
}

/// An old edge out of any name other than the inserted key survives the
/// insert.
proof fn lemma_insert_edge_intro(
    rs: Seq<(Seq<char>, RecipeModel)>,
    key: Seq<char>,
    rm: RecipeModel,
    a: Seq<char>,
    b: Seq<char>,
)
    requires
        edge(rs, a, b),
        a != key,
    ensures
        edge(crate::data::spec_insert_entry(rs, key, rm), a, b),
{
    let rs2 = crate::data::spec_insert_entry(rs, key, rm);
    let (k, j) = choose|k: int, j: int|
        0 <= k < rs.len() && rs[k].0 == a && 0 <= j < rs[k].1.inputs.len() && (
        #[trigger] rs[k].1.inputs[j]).0 == b;
    if has_key(rs, key) {
        let kx = key_index(rs, key);
        assert(k != kx);
        assert(rs2[k] == rs[k]);
    } else {
        assert(rs2[k] == rs[k]);
    }
    lemma_edge_intro(rs2, k, j);
}

/// After the insert, anything that reaches the inserted key either is the
/// key or already reached it before the insert.
proof fn lemma_insert_reach_key(
    rs: Seq<(Seq<char>, RecipeModel)>,
    key: Seq<char>,
    rm: RecipeModel,
    u: Seq<char>,
    n: nat,
)
    requires
        crate::data::distinct_names(recipe_keys(rs)),
        reach_n(crate::data::spec_insert_entry(rs, key, rm), u, key, n),
    ensures
        u == key || reaches(rs, u, key),
    decreases n,
{
    let rs2 = crate::data::spec_insert_entry(rs, key, rm);
    if u != key {
        let mid = choose|mid: Seq<char>|
            #[trigger] edge(rs2, u, mid) && reach_n(rs2, mid, key, (n - 1) as nat);
        lemma_insert_edge_elim(rs, key, rm, u, mid);
        assert(edge(rs, u, mid));
        lemma_insert_reach_key(rs, key, rm, mid, (n - 1) as nat);
        if mid == key {
            assert(reach_n(rs, key, key, 0));
            assert(reach_n(rs, u, key, 1));
        } else {
            let m = choose|m: nat| reach_n(rs, mid, key, m);
            assert(reach_n(rs, mid, mid, 0));
            assert(reach_n(rs, u, mid, 1));
            lemma_reach_n_trans(rs, u, mid, key, 1, m);
        }
    }
}

/// After the insert, any reachability fact either already held, or passes
/// through the inserted key: the start reaches the key in the old graph and
/// one of the new inputs reaches the target in the new graph.
proof fn lemma_insert_reach_split(
    rs: Seq<(Seq<char>, RecipeModel)>,
    key: Seq<char>,
    rm: RecipeModel,
    u: Seq<char>,
    w: Seq<char>,
    n: nat,
)
    requires
        crate::data::distinct_names(recipe_keys(rs)),
        reach_n(crate::data::spec_insert_entry(rs, key, rm), u, w, n),
    ensures
        reaches(rs, u, w) || (reaches(rs, u, key) && exists|j: int, m: nat|
            0 <= j < rm.inputs.len() && m < n && #[trigger] reach_n(
                crate::data::spec_insert_entry(rs, key, rm),
                rm.inputs[j].0,
                w,
                m,
            )),
    decreases n,
{
    let rs2 = crate::data::spec_insert_entry(rs, key, rm);
    if u == w {
        assert(reach_n(rs, u, w, 0));
    } else {
        let mid = choose|mid: Seq<char>|
            #[trigger] edge(rs2, u, mid) && reach_n(rs2, mid, w, (n - 1) as nat);
        lemma_insert_edge_elim(rs, key, rm, u, mid);
        if u == key {
            assert(reach_n(rs, u, key, 0));
            let j = choose|j: int| 0 <= j < rm.inputs.len() && (#[trigger] rm.inputs[j]).0 == mid;
            assert(0 <= j < rm.inputs.len() && ((n - 1) as nat) < n && reach_n(
                rs2,
                rm.inputs[j].0,
                w,
                (n - 1) as nat,
            ));
        } else {
            assert(edge(rs, u, mid));
            lemma_insert_reach_split(rs, key, rm, mid, w, (n - 1) as nat);
            if reaches(rs, mid, w) {
                let m = choose|m: nat| reach_n(rs, mid, w, m);
                assert(reach_n(rs, mid, mid, 0));
                assert(reach_n(rs, u, mid, 1));
                lemma_reach_n_trans(rs, u, mid, w, 1, m);
            } else {
                let m0 = choose|m0: nat| reach_n(rs, mid, key, m0);
                assert(reach_n(rs, mid, mid, 0));
                assert(reach_n(rs, u, mid, 1));
                lemma_reach_n_trans(rs, u, mid, key, 1, m0);
                let (j, m) = choose|j: int, m: nat|
                    0 <= j < rm.inputs.len() && m < (n - 1) as nat && #[trigger] reach_n(
                        rs2,
                        rm.inputs[j].0,
                        w,
                        m,
                    );
                assert(0 <= j < rm.inputs.len() && m < n && reach_n(
                    rs2,
                    rm.inputs[j].0,
                    w,
                    m,
                ));
            }
        }
    }
}

/// Committing a recipe whose inputs pass the cycle check keeps the whole
/// graph acyclic: the invariant guard is sound.
pub proof fn lemma_insert_preserves_acyclic(
    rs: Seq<(Seq<char>, RecipeModel)>,
    key: Seq<char>,
    rm: RecipeModel,
)
    requires
        acyclic(rs),
        crate::data::distinct_names(recipe_keys(rs)),
        forall|j: int| 0 <= j < rm.inputs.len() ==> !reaches(rs, (#[trigger] rm.inputs[j]).0, key),
    ensures
        acyclic(crate::data::spec_insert_entry(rs, key, rm)),
{
    let rs2 = crate::data::spec_insert_entry(rs, key, rm);
    assert forall|a: Seq<char>, b: Seq<char>| #[trigger] edge(rs2, a, b) implies !reaches(
        rs2,
        b,
        a,
    ) by {
        if reaches(rs2, b, a) {
            let n = choose|n: nat| reach_n(rs2, b, a, n);
            lemma_insert_edge_elim(rs, key, rm, a, b);
            if a == key {
                let j = choose|j: int|
                    0 <= j < rm.inputs.len() && (#[trigger] rm.inputs[j]).0 == b;
                lemma_insert_reach_key(rs, key, rm, b, n);
                if b == key {
                    assert(reach_n(rs, b, key, 0));
                    assert(reaches(rs, rm.inputs[j].0, key));
                } else {
                    assert(reaches(rs, b, key));
                }
            } else {
                // `a` keeps its old recipe, so `b` is an old input of `a`.
                assert(edge(rs, a, b));
                lemma_insert_reach_split(rs, key, rm, b, a, n);
                if reaches(rs, b, a) {
                    assert(false);
                } else {
                    // The new path leaves through the key: some new input
                    // reaches `a` in the new graph.
                    assert(reaches(rs, b, key));
                    let (j, m) = choose|j: int, m: nat|
                        0 <= j < rm.inputs.len() && m < n && #[trigger] reach_n(
                            rs2,
                            rm.inputs[j].0,
                            a,
                            m,
                        );
                    let c = rm.inputs[j].0;
                    lemma_insert_reach_split(rs, key, rm, c, a, m);
                    if reaches(rs, c, a) {
                        // Then that input already reached the key through
                        // `a` and `b`, which the check ruled out.
                        let m1 = choose|m1: nat| reach_n(rs, c, a, m1);
                        assert(reach_n(rs, b, b, 0));
                        assert(reach_n(rs, a, b, 1));
                        let m2 = choose|m2: nat| reach_n(rs, b, key, m2);
                        lemma_reach_n_trans(rs, a, b, key, 1, m2);
                        lemma_reach_n_trans(rs, c, a, key, m1, (1 + m2) as nat);
                        assert(reaches(rs, c, key));
                    } else {
                        assert(reaches(rs, c, key));
                    }
                }
            }
        }
    }
}

/// Whether the whole committed recipe graph is acyclic.
pub fn is_acyclic(db: &RecipeDB) -> (r: bool)
    requires
        db.wf(),
    ensures
        r == acyclic(db@.recipes),
{
    let ghost rs = db@.recipes;
    let entries = db.recipe_entries();
    let n = entries.len();
    for k in 0..n
        invariant
            db.wf(),
            rs == db@.recipes,
            n == entries@.len(),
            entries@.map(|i: int, e: (Ingredient, crate::data::Recipe)| (e.0@, e.1@)) == rs,
            forall|kk: int, jj: int|
                0 <= kk < k && 0 <= jj < (#[trigger] rs[kk]).1.inputs.len() ==> !reaches(
                    rs,
                    (#[trigger] rs[kk].1.inputs[jj]).0,
                    rs[kk].0,
                ),
    {
        let key = &entries[k].0;
        let rec = &entries[k].1;
        let m = rec.inputs.len();
        proof {
            assert(rs[k as int] == (key@, rec@));
        }
        for j in 0..m
            invariant
                db.wf(),
                rs == db@.recipes,
                m == rec.inputs.len(),
                rs[k as int] == (key@, rec@),
                k < rs.len(),
                forall|jj: int|
                    0 <= jj < j ==> !reaches(rs, (#[trigger] rec@.inputs[jj]).0, key@),
        {
            proof {
                assert(rec@.inputs[j as int] == (rec.inputs@[j as int].ing@, rec.inputs@[
                j as int].count));
            }
            if would_create_cycle(key, &rec.inputs[j].ing, db) {
                proof {
                    assert(rs[k as int].0 == key@);
                    assert(rs[k as int].1.inputs[j as int].0 == rec.inputs@[j as int].ing@);
                    lemma_edge_intro(rs, k as int, j as int);
                    assert(edge(rs, key@, rec.inputs@[j as int].ing@));
                    assert(reaches(rs, rec.inputs@[j as int].ing@, key@));
                    assert(!acyclic(rs));
                }
                return false;
            }
        }
    }
    proof {
        assert forall|a: Seq<char>, b: Seq<char>| #[trigger] edge(rs, a, b) implies !reaches(
            rs,
            b,
            a,
        ) by {
            let (k, j) = choose|k: int, j: int|
                0 <= k < rs.len() && rs[k].0 == a && 0 <= j < rs[k].1.inputs.len() && (
                #[trigger] rs[k].1.inputs[j]).0 == b;
        }
    }
    true
}

} // verus!
