//! Rate propagation: producers needed and upstream rates.
//!
//! One expansion step ([`Calculator::compute_required_rates`]) turns a
//! demanded output rate into a producer count and the rates demanded of the
//! recipe's inputs. The recursive walks build a whole demand tree
//! ([`Calculator::expand_tree`]) or merge repeated ingredients into flat,
//! order-stable totals ([`Calculator::compute_aggregate_rates`]).
//!
//! All arithmetic is exact over [`Ratio`]; a committed recipe with a zero
//! yield or a quantity that no longer fits a machine word is reported as an
//! error, never silently turned into a nonsense rate.

use crate::cycle::{
    acyclic, chain, edge, lemma_acyclic_chain_fresh, lemma_chain_push, lemma_edge_intro,
    lemma_seen_bound,
};
use crate::data::{has_key, key_index, spec_find, Ingredient, RecipeDB, RecipeModel};
use crate::rat::{spec_div, spec_mul, spec_zero, Ratio};
use vstd::prelude::*;

verus! {

/// Why a query over a committed catalog could not produce a rate.
#[derive(Clone, Copy, Debug, PartialEq, Eq, Structural)]
pub enum CalcError {
    /// A recipe along the expansion yields zero units per cycle, so the
    /// demanded rate has no finite answer.
    DegenerateRecipe,
    /// An exact intermediate quantity no longer fits a machine word.
    Overflow,
}

/// A query: which ingredient is demanded, and at what rate.
pub struct Calculator {
    pub output_rate: Ratio,
    pub output_ingredient: Ingredient,
}

impl Default for Calculator {
    fn default() -> (r: Self)
        ensures
            r.output_rate == spec_zero(),
            r.output_ingredient@ == Seq::<char>::empty(),
    {
        Calculator { output_rate: Ratio::zero(), output_ingredient: Ingredient::blank() }
    }
}

/// Every input quantity times `cycles` still fits a machine word.
pub open spec fn all_inputs_fit(inputs: Seq<(Seq<char>, Ratio)>, cycles: Ratio) -> bool {
    forall|j: int| 0 <= j < inputs.len() ==> spec_mul((#[trigger] inputs[j]).1, cycles) is Some
}

/// The demanded rate of each input, in recipe order: `count * cycles`.
pub open spec fn input_rates(inputs: Seq<(Seq<char>, Ratio)>, cycles: Ratio) -> Seq<
    (Seq<char>, Ratio),
> {
    Seq::new(inputs.len(), |j: int| (inputs[j].0, spec_mul(inputs[j].1, cycles)->Some_0))
}

/// One expansion step of recipe `rm` at demanded rate `rate`:
/// `cycles = rate / output_num`, `producers = cycles * craft_time`, and each
/// input demands `count * cycles`. A zero yield is degenerate; a component
/// that no longer fits a machine word is an overflow.
pub open spec fn spec_step(rm: RecipeModel, rate: Ratio) -> Result<
    (Ratio, Seq<(Seq<char>, Ratio)>),
    CalcError,
> {
    if rm.output_num.num == 0 {
        Err(CalcError::DegenerateRecipe)
    } else if spec_div(rate, rm.output_num) is None {
        Err(CalcError::Overflow)
    } else {
        let cycles = spec_div(rate, rm.output_num)->Some_0;
        if spec_mul(cycles, rm.craft_time) is None {
            Err(CalcError::Overflow)
        } else if !all_inputs_fit(rm.inputs, cycles) {
            Err(CalcError::Overflow)
        } else {
            Ok((spec_mul(cycles, rm.craft_time)->Some_0, input_rates(rm.inputs, cycles)))
        }
    }
}

/// The names and rates of an (ingredient, rate) list.
pub open spec fn rate_pairs_view(s: Seq<(Ingredient, Ratio)>) -> Seq<(Seq<char>, Ratio)> {
    s.map(|i: int, e: (Ingredient, Ratio)| (e.0@, e.1))
}

impl Calculator {
    /// One expansion step for `output_ingredient` demanded at `output_rate`.
    ///
    /// An ingredient without a recipe is a raw resource: zero producers and
    /// no inputs, whatever the rate. With a recipe, the result is exactly
    /// [`spec_step`]: `producers = (rate / output_num) * craft_time` and each
    /// input `(ing, qty)` demands `qty * (rate / output_num)`, in recipe
    /// order; a zero-yield recipe or an overflowing component is the
    /// corresponding error instead.
    pub fn compute_required_rates(
        output_ingredient: &Ingredient,
        output_rate: Ratio,
        db: &RecipeDB,
    ) -> (r: Result<(Ratio, Option<Vec<(Ingredient, Ratio)>>), CalcError>)
        requires
            db.wf(),
            output_rate.wf(),
        ensures
            ({
                let found = spec_find(db@.recipes, output_ingredient@);
                match found {
                    None => r is Ok && r->Ok_0.0 == spec_zero() && r->Ok_0.1 is None,
                    Some(rm) => match spec_step(rm, output_rate) {
                        Ok(pr) => {
                            &&& r is Ok
                            &&& r->Ok_0.0 == pr.0
                            &&& r->Ok_0.1 is Some
                            &&& rate_pairs_view(r->Ok_0.1->Some_0@) == pr.1
                        },
                        Err(e) => r is Err && r->Err_0 == e,
                    },
                }
            }),
    {
        let ghost rs = db@.recipes;
        let rec = match db.get_recipe(output_ingredient) {
            None => {
                return Ok((Ratio::zero(), None));
            },
            Some(rec) => rec,
        };
        let ghost rm = spec_find(rs, output_ingredient@)->Some_0;
        proof {
            assert(rec@ == rm);
            let k = crate::data::key_index(rs, output_ingredient@);
            assert(rs[k].1 == rm);
            assert(rm.wf());
        }
        if rec.output_num.is_zero() {
            return Err(CalcError::DegenerateRecipe);
        }
        let cycles = match output_rate.checked_div(rec.output_num) {
            None => {
                return Err(CalcError::Overflow);
            },
            Some(c) => c,
        };
        let producers = match cycles.checked_mul(rec.craft_time) {
            None => {
                return Err(CalcError::Overflow);
            },
            Some(p) => p,
        };
        let mut out: Vec<(Ingredient, Ratio)> = Vec::new();
        let n = rec.inputs.len();
        for j in 0..n
            invariant
                db.wf(),
                rs == db@.recipes,
                rec@ == rm,
                rm.wf(),
                spec_find(rs, output_ingredient@) == Some(rm),
                n == rec.inputs.len(),
                rm.inputs.len() == n,
                cycles.wf(),
                spec_div(output_rate, rm.output_num) == Some(cycles),
                spec_mul(cycles, rm.craft_time) == Some(producers),
                rm.output_num.num != 0,
                out@.len() == j,
                forall|jj: int|
                    0 <= jj < j ==> spec_mul((#[trigger] rm.inputs[jj]).1, cycles) is Some,
                forall|jj: int|
                    0 <= jj < j ==> (#[trigger] out@[jj]).0@ == rm.inputs[jj].0 && out@[jj].1
                        == spec_mul(rm.inputs[jj].1, cycles)->Some_0,
        {
            let inp = &rec.inputs[j];
            proof {
                assert(rm.inputs[j as int] == (inp.ing@, inp.count));
                assert(inp.count.wf());
            }
            match inp.count.checked_mul(cycles) {
                None => {
                    proof {
                        assert(spec_mul(rm.inputs[j as int].1, cycles) is None);
                        assert(!all_inputs_fit(rm.inputs, cycles));
                    }
                    return Err(CalcError::Overflow);
                },
                Some(v) => {
                    out.push((inp.ing.clone(), v));
                },
            }
        }
        proof {
            assert(all_inputs_fit(rm.inputs, cycles));
            assert(spec_step(rm, output_rate) is Ok);
            assert(rate_pairs_view(out@) =~= input_rates(rm.inputs, cycles));
        }
        Ok((producers, Some(out)))
    }
}

/// One node of the demand tree: `ing` is demanded at `rate`, needs
/// `producers` concurrent producers, and its children expand the inputs of
/// its recipe, in recipe order. An ingredient without a recipe is a leaf.
#[derive(Debug)]
pub struct DemandNode {
    pub ing: Ingredient,
    pub producers: Ratio,
    pub rate: Ratio,
    pub children: Vec<DemandNode>,
}

/// The tree `t` is exactly the demand expansion of `name` at `rate`: each
/// node carries the producers of one [`spec_step`], and its children expand
/// that step's input demands, in recipe order.
pub open spec fn tree_ok(
    rs: Seq<(Seq<char>, RecipeModel)>,
    t: DemandNode,
    name: Seq<char>,
    rate: Ratio,
) -> bool
    decreases t,
{
    &&& t.ing@ == name
    &&& t.rate == rate
    &&& match spec_find(rs, name) {
        None => t.producers == spec_zero() && t.children@.len() == 0,
        Some(rm) => match spec_step(rm, rate) {
            Err(e) => false,
            Ok(pr) => {
                &&& t.producers == pr.0
                &&& t.children@.len() == pr.1.len()
                &&& forall|i: int|
                    0 <= i < pr.1.len() ==> tree_ok(
                        rs,
                        #[trigger] t.children@[i],
                        pr.1[i].0,
                        pr.1[i].1,
                    )
            },
        },
    }
}

/// Whether the whole expansion of `name` at `rate` succeeds within `fuel`
/// recursion levels, and with which error it fails otherwise. `None` means
/// the fuel ran out before the walk did.
pub open spec fn expand_status(
    rs: Seq<(Seq<char>, RecipeModel)>,
    name: Seq<char>,
    rate: Ratio,
    fuel: nat,
) -> Option<Result<(), CalcError>>
    decreases fuel, 0int,
{
    if fuel == 0 {
        None
    } else {
        match spec_find(rs, name) {
            None => Some(Ok(())),
            Some(rm) => match spec_step(rm, rate) {
                Err(e) => Some(Err(e)),
                Ok(pr) => children_status(rs, pr.1, 0, (fuel - 1) as nat),
            },
        }
    }
}

/// The first failure among the expansions of the demands `ins[j..]`, in
/// order, or success when every one succeeds within `fuel`.
pub open spec fn children_status(
    rs: Seq<(Seq<char>, RecipeModel)>,
    ins: Seq<(Seq<char>, Ratio)>,
    j: int,
    fuel: nat,
) -> Option<Result<(), CalcError>>
    decreases fuel, ins.len() - j + 1,
{
    if j < 0 || j >= ins.len() {
        Some(Ok(()))
    } else {
        match expand_status(rs, ins[j].0, ins[j].1, fuel) {
            None => None,
            Some(st) => match st {
                Err(e) => Some(Err(e)),
                Ok(u) => children_status(rs, ins, j + 1, fuel),
            },
        }
    }
}

/// On an acyclic catalog, a recursion budget of one more than the number of
/// recipes always suffices: no expansion path can revisit a recipe.
proof fn lemma_expand_some(
    rs: Seq<(Seq<char>, RecipeModel)>,
    name: Seq<char>,
    rate: Ratio,
    path: Seq<Seq<char>>,
)
    requires
        acyclic(rs),
        path.no_duplicates(),
        forall|i: int| 0 <= i < path.len() ==> has_key(rs, #[trigger] path[i]),
        chain(rs, path, name),
    ensures
        expand_status(rs, name, rate, (rs.len() + 1 - path.len()) as nat) is Some,
    decreases rs.len() + 1 - path.len(), 0int,
{
    lemma_seen_bound(rs, path);
    let fuel = (rs.len() + 1 - path.len()) as nat;
    assert(fuel >= 1);
    match spec_find(rs, name) {
        None => {},
        Some(rm) => match spec_step(rm, rate) {
            Err(e) => {},
            Ok(pr) => {
                assert(has_key(rs, name));
                let kn = key_index(rs, name);
                assert(0 <= kn < rs.len() && rs[kn].0 == name && rs[kn].1 == rm);
                let p2 = path.push(name);
                lemma_acyclic_chain_fresh(rs, path, name);
                assert forall|a: int, b: int|
                    0 <= a < p2.len() && 0 <= b < p2.len() && a != b implies p2[a] != p2[b] by {
                    if a < path.len() && b < path.len() {
                        assert(p2[a] == path[a] && p2[b] == path[b]);
                    } else if a < path.len() {
                        assert(p2[a] == path[a] && p2[b] == name);
                        assert(!path.contains(name));
                    } else {
                        assert(p2[b] == path[b] && p2[a] == name);
                        assert(!path.contains(name));
                    }
                }
                assert(p2.no_duplicates());
                assert forall|i: int| 0 <= i < p2.len() implies has_key(rs, #[trigger] p2[i]) by {
                    if i < path.len() {
                        assert(p2[i] == path[i]);
                    } else {
                        assert(p2[i] == name);
                    }
                }
                lemma_expand_children_some(rs, rm, pr.1, 0, rate, p2);
            },
        },
    }
}

/// As [`lemma_expand_some`], for the child demands of one recipe whose
/// produced name ends the path.
proof fn lemma_expand_children_some(
    rs: Seq<(Seq<char>, RecipeModel)>,
    rm: RecipeModel,
    ins: Seq<(Seq<char>, Ratio)>,
    j: int,
    rate: Ratio,
    p2: Seq<Seq<char>>,
)
    requires
        acyclic(rs),
        p2.no_duplicates(),
        p2.len() > 0,
        forall|i: int| 0 <= i < p2.len() ==> has_key(rs, #[trigger] p2[i]),
        spec_find(rs, p2[p2.len() - 1]) == Some(rm),
        spec_step(rm, rate) == Ok::<_, CalcError>((spec_step(rm, rate)->Ok_0.0, ins)),
        chain(rs, p2.drop_last(), p2[p2.len() - 1]),
        ins == input_rates(rm.inputs, spec_div(rate, rm.output_num)->Some_0),
    ensures
        children_status(rs, ins, j, (rs.len() + 1 - p2.len()) as nat) is Some,
    decreases rs.len() + 1 - p2.len(), ins.len() - j + 1,
{
    let fuel = (rs.len() + 1 - p2.len()) as nat;
    if 0 <= j < ins.len() {
        let name = p2[p2.len() - 1];
        let kn = key_index(rs, name);
        assert(0 <= kn < rs.len() && rs[kn].0 == name && rs[kn].1 == rm);
        assert(ins[j].0 == rm.inputs[j].0);
        lemma_edge_intro(rs, kn, j);
        assert(edge(rs, name, ins[j].0));
        lemma_chain_push(rs, p2.drop_last(), name, ins[j].0);
        assert(p2.drop_last().push(name) =~= p2);
        assert(chain(rs, p2, ins[j].0));
        lemma_expand_some(rs, ins[j].0, ins[j].1, p2);
        match expand_status(rs, ins[j].0, ins[j].1, fuel) {
            None => {},
            Some(st) => match st {
                Err(e) => {},
                Ok(u) => {
                    lemma_expand_children_some(rs, rm, ins, j + 1, rate, p2);
                },
            },
        }
    }
}

/// The status of the full expansion of `name` at `rate` over an acyclic
/// catalog: success, or the first error met in depth-first, recipe order.
pub open spec fn spec_expand_result(
    rs: Seq<(Seq<char>, RecipeModel)>,
    name: Seq<char>,
    rate: Ratio,
) -> Result<(), CalcError> {
    expand_status(rs, name, rate, (rs.len() + 1) as nat)->Some_0
}

/// The names and quantities of an (ingredient, producers, rate) list.
pub open spec fn agg_view(s: Seq<(Ingredient, Ratio, Ratio)>) -> Seq<(Seq<char>, Ratio, Ratio)> {
    s.map(|i: int, e: (Ingredient, Ratio, Ratio)| (e.0@, e.1, e.2))
}

/// The accumulator holds each ingredient once, with well-formed totals.
pub open spec fn agg_wf(s: Seq<(Ingredient, Ratio, Ratio)>) -> bool {
    &&& crate::data::distinct_names(s.map(|i: int, e: (Ingredient, Ratio, Ratio)| e.0@))
    &&& forall|k: int| 0 <= k < s.len() ==> (#[trigger] s[k]).1.wf() && s[k].2.wf()
}

/// Some accumulated entry is for `name`.
pub open spec fn agg_has(acc: Seq<(Seq<char>, Ratio, Ratio)>, name: Seq<char>) -> bool {
    exists|k: int| 0 <= k < acc.len() && (#[trigger] acc[k]).0 == name
}

/// The index of the accumulated entry for `name` (the only one).
pub open spec fn agg_index(acc: Seq<(Seq<char>, Ratio, Ratio)>, name: Seq<char>) -> int {
    choose|k: int| 0 <= k < acc.len() && (#[trigger] acc[k]).0 == name
}

/// One visit of `name` with `producers` and `rate`: a fresh ingredient is
/// appended; a revisited one has both totals increased and its entry moved
/// to the back, so the final order is by *last* visit in the depth-first,
/// input-order walk. `None` when a total no longer fits.
pub open spec fn agg_step(
    acc: Seq<(Seq<char>, Ratio, Ratio)>,
    name: Seq<char>,
    producers: Ratio,
    rate: Ratio,
) -> Option<Seq<(Seq<char>, Ratio, Ratio)>> {
    if agg_has(acc, name) {
        let k = agg_index(acc, name);
        if crate::rat::spec_add(acc[k].1, producers) is Some && crate::rat::spec_add(
            acc[k].2,
            rate,
        ) is Some {
            Some(
                acc.remove(k).push(
                    (
                        name,
                        crate::rat::spec_add(acc[k].1, producers)->Some_0,
                        crate::rat::spec_add(acc[k].2, rate)->Some_0,
                    ),
                ),
            )
        } else {
            None
        }
    } else {
        Some(acc.push((name, producers, rate)))
    }
}

/// The accumulator after aggregating the whole expansion of `name` at
/// `rate` into `acc`, within `fuel` recursion levels; the first error met
/// in depth-first, input order; or `None` when the fuel ran out.
pub open spec fn spec_agg(
    rs: Seq<(Seq<char>, RecipeModel)>,
    name: Seq<char>,
    rate: Ratio,
    acc: Seq<(Seq<char>, Ratio, Ratio)>,
    fuel: nat,
) -> Option<Result<Seq<(Seq<char>, Ratio, Ratio)>, CalcError>>
    decreases fuel, 0int,
{
    if fuel == 0 {
        None
    } else {
        match spec_find(rs, name) {
            None => match agg_step(acc, name, spec_zero(), rate) {
                None => Some(Err(CalcError::Overflow)),
                Some(acc2) => Some(Ok(acc2)),
            },
            Some(rm) => match spec_step(rm, rate) {
                Err(e) => Some(Err(e)),
                Ok(pr) => match agg_step(acc, name, pr.0, rate) {
                    None => Some(Err(CalcError::Overflow)),
                    Some(acc2) => spec_agg_children(rs, pr.1, 0, acc2, (fuel - 1) as nat),
                },
            },
        }
    }
}

/// As [`spec_agg`], over the run of child demands `ins[j..]`.
pub open spec fn spec_agg_children(
    rs: Seq<(Seq<char>, RecipeModel)>,
    ins: Seq<(Seq<char>, Ratio)>,
    j: int,
    acc: Seq<(Seq<char>, Ratio, Ratio)>,
    fuel: nat,
) -> Option<Result<Seq<(Seq<char>, Ratio, Ratio)>, CalcError>>
    decreases fuel, ins.len() - j + 1,
{
    if j < 0 || j >= ins.len() {
        Some(Ok(acc))
    } else {
        match spec_agg(rs, ins[j].0, ins[j].1, acc, fuel) {
            None => None,
            Some(st) => match st {
                Err(e) => Some(Err(e)),
                Ok(acc2) => spec_agg_children(rs, ins, j + 1, acc2, fuel),
            },
        }
    }
}

/// On an acyclic catalog, the same fuel bound as for the tree suffices for
/// the aggregate walk, whatever has been accumulated so far.
proof fn lemma_agg_some(
    rs: Seq<(Seq<char>, RecipeModel)>,
    name: Seq<char>,
    rate: Ratio,
    acc: Seq<(Seq<char>, Ratio, Ratio)>,
    path: Seq<Seq<char>>,
)
    requires
        acyclic(rs),
        path.no_duplicates(),
        forall|i: int| 0 <= i < path.len() ==> has_key(rs, #[trigger] path[i]),
        chain(rs, path, name),
    ensures
        spec_agg(rs, name, rate, acc, (rs.len() + 1 - path.len()) as nat) is Some,
    decreases rs.len() + 1 - path.len(), 0int,
{
    lemma_seen_bound(rs, path);
    let fuel = (rs.len() + 1 - path.len()) as nat;
    assert(fuel >= 1);
    match spec_find(rs, name) {
        None => {},
        Some(rm) => match spec_step(rm, rate) {
            Err(e) => {},
            Ok(pr) => match agg_step(acc, name, pr.0, rate) {
                None => {},
                Some(acc2) => {
                    let p2 = path.push(name);
                    lemma_acyclic_chain_fresh(rs, path, name);
                    assert forall|a: int, b: int|
                        0 <= a < p2.len() && 0 <= b < p2.len() && a != b implies p2[a] != p2[b] by {
                        if a < path.len() && b < path.len() {
                            assert(p2[a] == path[a] && p2[b] == path[b]);
                        } else if a < path.len() {
                            assert(p2[a] == path[a] && p2[b] == name);
                            assert(!path.contains(name));
                        } else {
                            assert(p2[b] == path[b] && p2[a] == name);
                            assert(!path.contains(name));
                        }
                    }
                    assert(p2.no_duplicates());
                    assert forall|i: int| 0 <= i < p2.len() implies has_key(
                        rs,
                        #[trigger] p2[i],
                    ) by {
                        if i < path.len() {
                            assert(p2[i] == path[i]);
                        } else {
                            assert(p2[i] == name);
                        }
                    }
                    lemma_agg_children_some(rs, rm, pr.1, 0, rate, acc2, p2);
                },
            },
        },
    }
}

/// As [`lemma_agg_some`], for the child demands of one recipe whose
/// produced name ends the path.
proof fn lemma_agg_children_some(
    rs: Seq<(Seq<char>, RecipeModel)>,
    rm: RecipeModel,
    ins: Seq<(Seq<char>, Ratio)>,
    j: int,
    rate: Ratio,
    acc: Seq<(Seq<char>, Ratio, Ratio)>,
    p2: Seq<Seq<char>>,
)
    requires
        acyclic(rs),
        p2.no_duplicates(),
        p2.len() > 0,
        forall|i: int| 0 <= i < p2.len() ==> has_key(rs, #[trigger] p2[i]),
        spec_find(rs, p2[p2.len() - 1]) == Some(rm),
        chain(rs, p2.drop_last(), p2[p2.len() - 1]),
        ins == input_rates(rm.inputs, spec_div(rate, rm.output_num)->Some_0),
    ensures
        spec_agg_children(rs, ins, j, acc, (rs.len() + 1 - p2.len()) as nat) is Some,
    decreases rs.len() + 1 - p2.len(), ins.len() - j + 1,
{
    let fuel = (rs.len() + 1 - p2.len()) as nat;
    if 0 <= j < ins.len() {
        let name = p2[p2.len() - 1];
        let kn = key_index(rs, name);
        assert(0 <= kn < rs.len() && rs[kn].0 == name && rs[kn].1 == rm);
        assert(ins[j].0 == rm.inputs[j].0);
        lemma_edge_intro(rs, kn, j);
        assert(edge(rs, name, ins[j].0));
        lemma_chain_push(rs, p2.drop_last(), name, ins[j].0);
        assert(p2.drop_last().push(name) =~= p2);
        assert(chain(rs, p2, ins[j].0));
        lemma_agg_some(rs, ins[j].0, ins[j].1, acc, p2);
        match spec_agg(rs, ins[j].0, ins[j].1, acc, fuel) {
            None => {},
            Some(st) => match st {
                Err(e) => {},
                Ok(acc2) => {
                    lemma_agg_children_some(rs, rm, ins, j + 1, rate, acc2, p2);
                },
            },
        }
    }
}

/// The aggregated totals for `name` demanded at `rate` over an acyclic
/// catalog, in last-visit order, or the first error met in depth-first,
/// input order.
pub open spec fn spec_aggregate_result(
    rs: Seq<(Seq<char>, RecipeModel)>,
    name: Seq<char>,
    rate: Ratio,
) -> Result<Seq<(Seq<char>, Ratio, Ratio)>, CalcError> {
    spec_agg(rs, name, rate, Seq::empty(), (rs.len() + 1) as nat)->Some_0
}

/// Performs one [`agg_step`] on the accumulator vector.
fn agg_insert(
    acc: &mut Vec<(Ingredient, Ratio, Ratio)>,
    ing: &Ingredient,
    producers: Ratio,
    rate: Ratio,
) -> (r: Result<(), CalcError>)
    requires
        agg_wf(old(acc)@),
        producers.wf(),
        rate.wf(),
    ensures
        match r {
            Ok(u) => {
                &&& agg_step(agg_view(old(acc)@), ing@, producers, rate) == Some(
                    agg_view(final(acc)@),
                )
                &&& agg_wf(final(acc)@)
            },
            Err(e) => {
                &&& e == CalcError::Overflow
                &&& agg_step(agg_view(old(acc)@), ing@, producers, rate) is None
                &&& *final(acc) == *old(acc)
            },
        },
{
    let ghost av = agg_view(acc@);
    let n = acc.len();
    for i in 0..n
        invariant
            n == acc.len(),
            acc == old(acc),
            av == agg_view(acc@),
            agg_wf(acc@),
            producers.wf(),
            rate.wf(),
            forall|k: int| 0 <= k < i ==> (#[trigger] av[k]).0 != ing@,
    {
        if acc[i].0 == *ing {
            proof {
                assert(av[i as int].0 == ing@);
                assert(agg_has(av, ing@));
                let k = agg_index(av, ing@);
                let nm = acc@.map(|x: int, e: (Ingredient, Ratio, Ratio)| e.0@);
                assert(nm[k] == av[k].0);
                assert(nm[i as int] == av[i as int].0);
                assert(k == i as int);
            }
            let p2 = match acc[i].1.checked_add(producers) {
                None => {
                    return Err(CalcError::Overflow);
                },
                Some(p2) => p2,
            };
            let r2 = match acc[i].2.checked_add(rate) {
                None => {
                    return Err(CalcError::Overflow);
                },
                Some(r2) => r2,
            };
            let entry = acc.remove(i);
            acc.push((entry.0, p2, r2));
            proof {
                assert(agg_view(acc@) =~= av.remove(i as int).push((ing@, p2, r2)));
                let nm2 = acc@.map(|x: int, e: (Ingredient, Ratio, Ratio)| e.0@);
                let nm = old(acc)@.map(|x: int, e: (Ingredient, Ratio, Ratio)| e.0@);
                assert(nm2 =~= nm.remove(i as int).push(ing@));
                assert forall|a: int, b: int|
                    0 <= a < b < nm2.len() implies nm2[a] != nm2[b] by {
                    if b < nm2.len() - 1 {
                        let a0: int = if a < i as int {
                            a
                        } else {
                            a + 1
                        };
                        let b0: int = if b < i as int {
                            b
                        } else {
                            b + 1
                        };
                        assert(nm2[a] == nm[a0] && nm2[b] == nm[b0]);
                    } else {
                        let a0: int = if a < i as int {
                            a
                        } else {
                            a + 1
                        };
                        assert(nm2[a] == nm[a0]);
                        assert(nm2[b] == ing@);
                        assert(nm[a0] != nm[i as int]);
                    }
                }
            }
            return Ok(());
        }
    }
    proof {
        assert(!agg_has(av, ing@));
    }
    acc.push((ing.clone(), producers, rate));
    proof {
        assert(agg_view(acc@) =~= av.push((ing@, producers, rate)));
        let nm2 = acc@.map(|x: int, e: (Ingredient, Ratio, Ratio)| e.0@);
        let nm = old(acc)@.map(|x: int, e: (Ingredient, Ratio, Ratio)| e.0@);
        assert(nm2 =~= nm.push(ing@));
        assert forall|a: int, b: int| 0 <= a < b < nm2.len() implies nm2[a] != nm2[b] by {
            if b == nm2.len() - 1 {
                assert(nm2[a] == nm[a]);
                assert(nm[a] == av[a].0);
                assert(nm2[b] == ing@);
            } else {
                assert(nm2[a] == nm[a] && nm2[b] == nm[b]);
            }
        }
    }
    Ok(())
}

impl Calculator {
    /// Recursive worker for [`Calculator::expand_tree`], bounded by ghost
    /// fuel that the caller has shown sufficient.
    fn expand_rec(ing: &Ingredient, rate: Ratio, db: &RecipeDB, Ghost(fuel): Ghost<nat>) -> (r:
        Result<DemandNode, CalcError>)
        requires
            db.wf(),
            rate.wf(),
            expand_status(db@.recipes, ing@, rate, fuel) is Some,
        ensures
            ({
                let st = expand_status(db@.recipes, ing@, rate, fuel)->Some_0;
                match r {
                    Ok(t) => st is Ok && tree_ok(db@.recipes, t, ing@, rate),
                    Err(e) => st is Err && st->Err_0 == e,
                }
            }),
        decreases fuel,
    {
        let ghost rs = db@.recipes;
        let step = Self::compute_required_rates(ing, rate, db);
        match step {
            Err(e) => {
                return Err(e);
            },
            Ok((producers, maybe_inputs)) => {
                match maybe_inputs {
                    None => {
                        let t = DemandNode {
                            ing: ing.clone(),
                            producers,
                            rate,
                            children: Vec::new(),
                        };
                        proof {
                            assert(spec_find(rs, ing@) is None);
                            assert(t.children@.len() == 0);
                        }
                        return Ok(t);
                    },
                    Some(inputs) => {
                        let ghost rm = spec_find(rs, ing@)->Some_0;
                        let ghost pr = spec_step(rm, rate)->Ok_0;
                        let ghost ins = pr.1;
                        proof {
                            assert(rate_pairs_view(inputs@) == ins);
                            assert(expand_status(rs, ing@, rate, fuel) == children_status(
                                rs,
                                ins,
                                0,
                                (fuel - 1) as nat,
                            ));
                        }
                        let mut children: Vec<DemandNode> = Vec::new();
                        let n = inputs.len();
                        for j in 0..n
                            invariant
                                db.wf(),
                                rs == db@.recipes,
                                rate.wf(),
                                spec_find(rs, ing@) == Some(rm),
                                spec_step(rm, rate) is Ok,
                                pr == spec_step(rm, rate)->Ok_0,
                                ins == pr.1,
                                n == inputs.len(),
                                ins.len() == n,
                                rate_pairs_view(inputs@) == ins,
                                fuel >= 1,
                                children_status(rs, ins, j as int, (fuel - 1) as nat)
                                    == children_status(rs, ins, 0, (fuel - 1) as nat),
                                children_status(rs, ins, 0, (fuel - 1) as nat) is Some,
                                children@.len() == j,
                                forall|jj: int|
                                    0 <= jj < j ==> tree_ok(
                                        rs,
                                        #[trigger] children@[jj],
                                        ins[jj].0,
                                        ins[jj].1,
                                    ),
                            decreases n - j,
                        {
                            let pair = &inputs[j];
                            proof {
                                assert(ins[j as int] == (pair.0@, pair.1));
                                assert(expand_status(rs, pair.0@, pair.1, (fuel - 1) as nat)
                                    is Some);
                                assert(ins[j as int].1 == spec_mul(
                                    rm.inputs[j as int].1,
                                    spec_div(rate, rm.output_num)->Some_0,
                                )->Some_0);
                                assert(pair.1.wf()) by {
                                    let k = key_index(rs, ing@);
                                    assert(rs[k].1 == rm);
                                    assert(rm.wf());
                                    assert(rm.inputs[j as int].1.wf());
                                    crate::rat::lemma_div_wf(rate, rm.output_num);
                                    crate::rat::lemma_mul_wf(
                                        rm.inputs[j as int].1,
                                        spec_div(rate, rm.output_num)->Some_0,
                                    );
                                }
                            }
                            let child = match Self::expand_rec(
                                &pair.0,
                                pair.1,
                                db,
                                Ghost((fuel - 1) as nat),
                            ) {
                                Err(e) => {
                                    proof {
                                        assert(children_status(rs, ins, j as int, (fuel - 1) as nat)
                                            == Some(Err::<(), CalcError>(e)));
                                    }
                                    return Err(e);
                                },
                                Ok(child) => child,
                            };
                            children.push(child);
                        }
                        proof {
                            assert(children_status(rs, ins, n as int, (fuel - 1) as nat) == Some(
                                Ok::<(), CalcError>(()),
                            ));
                        }
                        let t = DemandNode { ing: ing.clone(), producers, rate, children };
                        return Ok(t);
                    },
                }
            },
        }
    }

    /// The full demand tree for `target` demanded at `desired_rate`.
    ///
    /// Requires an acyclic catalog, which is what commits maintain; the
    /// result is the unique tree satisfying [`tree_ok`], or the first error
    /// met in depth-first, recipe order.
    pub fn expand_tree(target: &Ingredient, desired_rate: Ratio, db: &RecipeDB) -> (r: Result<
        DemandNode,
        CalcError,
    >)
        requires
            db.wf(),
            desired_rate.wf(),
            acyclic(db@.recipes),
        ensures
            ({
                let st = spec_expand_result(db@.recipes, target@, desired_rate);
                match r {
                    Ok(t) => st is Ok && tree_ok(db@.recipes, t, target@, desired_rate),
                    Err(e) => st is Err && st->Err_0 == e,
                }
            }),
    {
        let ghost rs = db@.recipes;
        proof {
            lemma_expand_some(rs, target@, desired_rate, Seq::empty());
            assert(expand_status(rs, target@, desired_rate, (rs.len() + 1) as nat) is Some);
        }
        Self::expand_rec(target, desired_rate, db, Ghost((rs.len() + 1) as nat))
    }

    /// Recursive worker for [`Calculator::compute_aggregate_rates`].
    fn aggregate_rec(
        ing: &Ingredient,
        rate: Ratio,
        acc: &mut Vec<(Ingredient, Ratio, Ratio)>,
        db: &RecipeDB,
        Ghost(fuel): Ghost<nat>,
    ) -> (r: Result<(), CalcError>)
        requires
            db.wf(),
            rate.wf(),
            agg_wf(old(acc)@),
            spec_agg(db@.recipes, ing@, rate, agg_view(old(acc)@), fuel) is Some,
        ensures
            ({
                let st = spec_agg(db@.recipes, ing@, rate, agg_view(old(acc)@), fuel)->Some_0;
                match r {
                    Ok(u) => st is Ok && st->Ok_0 == agg_view(final(acc)@) && agg_wf(
                        final(acc)@,
                    ),
                    Err(e) => st is Err && st->Err_0 == e,
                }
            }),
        decreases fuel,
    {
        let ghost rs = db@.recipes;
        let step = Self::compute_required_rates(ing, rate, db);
        match step {
            Err(e) => {
                return Err(e);
            },
            Ok((producers, maybe_inputs)) => {
                proof {
                    assert(producers.wf()) by {
                        match spec_find(rs, ing@) {
                            None => {},
                            Some(rm) => {
                                let k = key_index(rs, ing@);
                                assert(rs[k].1 == rm);
                                assert(rm.wf());
                                crate::rat::lemma_div_wf(rate, rm.output_num);
                                crate::rat::lemma_mul_wf(
                                    spec_div(rate, rm.output_num)->Some_0,
                                    rm.craft_time,
                                );
                            },
                        }
                    }
                }
                if let Err(e) = agg_insert(acc, ing, producers, rate) {
                    return Err(e);
                }
                match maybe_inputs {
                    None => {
                        return Ok(());
                    },
                    Some(inputs) => {
                        let ghost rm = spec_find(rs, ing@)->Some_0;
                        let ghost pr = spec_step(rm, rate)->Ok_0;
                        let ghost ins = pr.1;
                        let ghost acc1 = agg_view(acc@);
                        proof {
                            assert(rate_pairs_view(inputs@) == ins);
                            assert(spec_agg(rs, ing@, rate, agg_view(old(acc)@), fuel)
                                == spec_agg_children(rs, ins, 0, acc1, (fuel - 1) as nat));
                        }
                        let n = inputs.len();
                        for j in 0..n
                            invariant
                                db.wf(),
                                rs == db@.recipes,
                                rate.wf(),
                                spec_find(rs, ing@) == Some(rm),
                                spec_step(rm, rate) is Ok,
                                pr == spec_step(rm, rate)->Ok_0,
                                ins == pr.1,
                                n == inputs.len(),
                                ins.len() == n,
                                rate_pairs_view(inputs@) == ins,
                                fuel >= 1,
                                agg_wf(acc@),
                                spec_agg(rs, ing@, rate, agg_view(old(acc)@), fuel)
                                    == spec_agg_children(rs, ins, 0, acc1, (fuel - 1) as nat),
                                spec_agg_children(rs, ins, j as int, agg_view(acc@), (fuel
                                    - 1) as nat) == spec_agg_children(
                                    rs,
                                    ins,
                                    0,
                                    acc1,
                                    (fuel - 1) as nat,
                                ),
                                spec_agg_children(rs, ins, 0, acc1, (fuel - 1) as nat) is Some,
                            decreases n - j,
                        {
                            let pair = &inputs[j];
                            proof {
                                assert(ins[j as int] == (pair.0@, pair.1));
                                assert(spec_agg(rs, pair.0@, pair.1, agg_view(acc@), (fuel
                                    - 1) as nat) is Some);
                                assert(pair.1.wf()) by {
                                    let k = key_index(rs, ing@);
                                    assert(rs[k].1 == rm);
                                    assert(rm.wf());
                                    assert(rm.inputs[j as int].1.wf());
                                    assert(ins[j as int].1 == spec_mul(
                                        rm.inputs[j as int].1,
                                        spec_div(rate, rm.output_num)->Some_0,
                                    )->Some_0);
                                    crate::rat::lemma_div_wf(rate, rm.output_num);
                                    crate::rat::lemma_mul_wf(
                                        rm.inputs[j as int].1,
                                        spec_div(rate, rm.output_num)->Some_0,
                                    );
                                }
                            }
                            let ghost pre_view = agg_view(acc@);
                            if let Err(e) = Self::aggregate_rec(
                                &pair.0,
                                pair.1,
                                acc,
                                db,
                                Ghost((fuel - 1) as nat),
                            ) {
                                proof {
                                    assert(spec_agg(rs, pair.0@, pair.1, pre_view, (fuel
                                        - 1) as nat) == Some(
                                        Err::<Seq<(Seq<char>, Ratio, Ratio)>, CalcError>(e),
                                    ));
                                    assert(spec_agg_children(rs, ins, j as int, pre_view, (fuel
                                        - 1) as nat) == Some(
                                        Err::<Seq<(Seq<char>, Ratio, Ratio)>, CalcError>(e),
                                    ));
                                }
                                return Err(e);
                            }
                        }
                        return Ok(());
                    },
                }
            },
        }
    }

    /// The aggregated demand list for `self.output_ingredient` demanded at
    /// `self.output_rate`.
    ///
    /// Walks the same expansion as [`Calculator::expand_tree`] but merges
    /// repeated ingredients: each returned `(ingredient, producers, rate)`
    /// carries the ingredient's *total* demand summed over every place it is
    /// consumed, and entries are ordered by the last time the walk touched
    /// them, exactly as [`spec_aggregate_result`] states.
    pub fn compute_aggregate_rates(&self, db: &RecipeDB) -> (r: Result<
        Vec<(Ingredient, Ratio, Ratio)>,
        CalcError,
    >)
        requires
            db.wf(),
            self.output_rate.wf(),
            acyclic(db@.recipes),
        ensures
            ({
                let st = spec_aggregate_result(db@.recipes, self.output_ingredient@,
                    self.output_rate);
                match r {
                    Ok(v) => st is Ok && st->Ok_0 == agg_view(v@) && agg_wf(v@),
                    Err(e) => st is Err && st->Err_0 == e,
                }
            }),
    {
        let ghost rs = db@.recipes;
        let mut acc: Vec<(Ingredient, Ratio, Ratio)> = Vec::new();
        proof {
            lemma_agg_some(rs, self.output_ingredient@, self.output_rate, agg_view(acc@),
                Seq::empty());
            assert(agg_view(acc@) =~= Seq::<(Seq<char>, Ratio, Ratio)>::empty());
            assert(acc@.map(|i: int, e: (Ingredient, Ratio, Ratio)| e.0@) =~= Seq::<
                Seq<char>,
            >::empty());
        }
        match Self::aggregate_rec(
            &self.output_ingredient,
            self.output_rate,
            &mut acc,
            db,
            Ghost((rs.len() + 1) as nat),
        ) {
            Ok(u) => Ok(acc),
            Err(e) => Err(e),
        }
    }
}

} // verus!
