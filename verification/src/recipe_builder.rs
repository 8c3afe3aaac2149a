//! The recipe builder and invariant guard.
//!
//! A draft recipe is edited one field or slot at a time: its output
//! ingredient, its craft time, and a list of input slots that may hold unset
//! placeholders while the user is choosing. The builder privately owns the
//! reservation set of names currently occupying a slot (or the output), so
//! no caller can desynchronise it, and it keeps a cached list of the legal
//! candidates for the next slot. Committing runs the full validation —
//! output set, quantities in range, inputs distinct, no cycle — and only a
//! valid draft ever reaches the catalog, so an acyclic catalog stays
//! acyclic.

use crate::cycle::{acyclic, lemma_insert_preserves_acyclic, names_of, reaches, would_create_cycle};
use crate::data::{
    distinct_names, spec_insert_entry, Ingredient, IngredientWithCount, Recipe, RecipeDB,
    RecipeModel,
};
use crate::rat::Ratio;
use vstd::pervasive::VecAdditionalExecFns;
use vstd::prelude::*;

verus! {

/// The specific validation rule a draft recipe breaks.
#[derive(Clone, Copy, Debug, PartialEq, Eq, Structural)]
pub enum BuildError {
    /// The output ingredient is unset, or its per-cycle yield is not
    /// positive.
    InvalidOutput,
    /// Some input slot is unset, or demands a quantity below one.
    InvalidInput,
    /// Two input slots name the same ingredient.
    DuplicateInput,
    /// Some input already (directly or transitively) feeds on the draft's
    /// own output.
    CyclicInput,
}

/// A draft recipe being authored, with its reservation bookkeeping.
///
/// All state is private: the slot-level operations below are the only way
/// to edit a draft, so the reservation set can never fall out of step with
/// the slots.
pub struct RecipeBuilder {
    craft_time: Ratio,
    output_ingredient: IngredientWithCount,
    used_ingredients: Vec<Ingredient>,
    input_ingredients: Vec<IngredientWithCount>,
    available_ingredients: Vec<Ingredient>,
}

impl RecipeBuilder {
    /// The set of names currently reserved by an input slot or the output.
    pub closed spec fn used_names(self) -> Set<Seq<char>> {
        names_of(self.used_ingredients@).to_set()
    }

    /// The reservation list holds each name at most once.
    pub closed spec fn used_distinct(self) -> bool {
        names_of(self.used_ingredients@).no_duplicates()
    }

    /// The input slots: name and quantity of each, in slot order.
    pub closed spec fn inputs_view(self) -> Seq<(Seq<char>, Ratio)> {
        self.input_ingredients@.map(|i: int, e: IngredientWithCount| e@)
    }

    /// The cached candidate names, in catalog order.
    pub closed spec fn available_view(self) -> Seq<Seq<char>> {
        names_of(self.available_ingredients@)
    }

    /// The draft's craft time.
    pub closed spec fn craft_time_spec(self) -> Ratio {
        self.craft_time
    }

    /// The draft's output: name and per-cycle yield.
    pub closed spec fn output_view(self) -> (Seq<char>, Ratio) {
        self.output_ingredient@
    }

    /// The draft's bookkeeping is consistent and every quantity denotes a
    /// rational.
    pub open spec fn wf(self) -> bool {
        &&& self.used_distinct()
        &&& self.craft_time_spec().wf()
        &&& self.output_view().1.wf()
        &&& forall|i: int|
            0 <= i < self.inputs_view().len() ==> (#[trigger] self.inputs_view()[i]).1.wf()
    }

    /// `name` may legally fill the next input slot: it is not already
    /// reserved, and it does not reach the draft's output through the
    /// committed recipe graph.
    pub open spec fn candidate_legal(
        self,
        rs: Seq<(Seq<char>, RecipeModel)>,
        name: Seq<char>,
    ) -> bool {
        !self.used_names().contains(name) && !reaches(rs, name, self.output_view().0)
    }

    /// The recipe the draft would commit.
    pub open spec fn draft_model(self) -> RecipeModel {
        RecipeModel {
            craft_time: self.craft_time_spec(),
            output_num: self.output_view().1,
            inputs: self.inputs_view(),
        }
    }

    /// Rule (a): the output ingredient is set and its yield is positive.
    pub open spec fn output_rule_ok(self) -> bool {
        self.output_view().0.len() > 0 && self.output_view().1.num > 0
    }

    /// Rule (b): every input slot is set and demands at least one unit.
    pub open spec fn input_rule_ok(self) -> bool {
        forall|i: int|
            0 <= i < self.inputs_view().len() ==> {
                &&& (#[trigger] self.inputs_view()[i]).0.len() > 0
                &&& self.inputs_view()[i].1.num >= self.inputs_view()[i].1.den
            }
    }

    /// Rule (c): no two input slots name the same ingredient.
    pub open spec fn distinct_rule_ok(self) -> bool {
        distinct_names(self.inputs_view().map(|i: int, e: (Seq<char>, Ratio)| e.0))
    }

    /// Rule (d): no input reaches the draft's output through the committed
    /// graph.
    pub open spec fn acyclic_rule_ok(self, rs: Seq<(Seq<char>, RecipeModel)>) -> bool {
        forall|i: int|
            0 <= i < self.inputs_view().len() ==> !reaches(
                rs,
                (#[trigger] self.inputs_view()[i]).0,
                self.output_view().0,
            )
    }

    /// The draft is valid against the given committed recipe entries.
    pub open spec fn spec_recipe_valid(self, rs: Seq<(Seq<char>, RecipeModel)>) -> bool {
        &&& self.output_rule_ok()
        &&& self.input_rule_ok()
        &&& self.distinct_rule_ok()
        &&& self.acyclic_rule_ok(rs)
    }

    /// The first rule the draft breaks, in the order (a) output, (b) inputs,
    /// (c) duplicates, (d) cycles; `None` for a valid draft.
    pub open spec fn first_violation(self, rs: Seq<(Seq<char>, RecipeModel)>) -> Option<
        BuildError,
    > {
        if !self.output_rule_ok() {
            Some(BuildError::InvalidOutput)
        } else if !self.input_rule_ok() {
            Some(BuildError::InvalidInput)
        } else if !self.distinct_rule_ok() {
            Some(BuildError::DuplicateInput)
        } else if !self.acyclic_rule_ok(rs) {
            Some(BuildError::CyclicInput)
        } else {
            None
        }
    }

    /// An empty draft: no output, no slots, nothing reserved.
    pub fn new() -> (r: RecipeBuilder)
        ensures
            r.wf(),
            r.craft_time_spec() == crate::rat::spec_zero(),
            r.output_view() == (Seq::<char>::empty(), crate::rat::spec_zero()),
            r.used_names() == Set::<Seq<char>>::empty(),
            r.inputs_view() == Seq::<(Seq<char>, Ratio)>::empty(),
            r.available_view() == Seq::<Seq<char>>::empty(),
    {
        let r = RecipeBuilder {
            craft_time: Ratio::zero(),
            output_ingredient: IngredientWithCount::placeholder(),
            used_ingredients: Vec::new(),
            input_ingredients: Vec::new(),
            available_ingredients: Vec::new(),
        };
        proof {
            assert(names_of(r.used_ingredients@) =~= Seq::<Seq<char>>::empty());
            assert(r.used_names() =~= Set::<Seq<char>>::empty());
            assert(r.inputs_view() =~= Seq::<(Seq<char>, Ratio)>::empty());
            assert(r.available_view() =~= Seq::<Seq<char>>::empty());
        }
        r
    }

    /// The draft's craft time.
    pub fn craft_time(&self) -> (r: Ratio)
        ensures
            r == self.craft_time_spec(),
    {
        self.craft_time
    }

    /// Sets the draft's craft time.
    pub fn set_craft_time(&mut self, t: Ratio)
        requires
            old(self).wf(),
            t.wf(),
        ensures
            final(self).wf(),
            final(self).craft_time_spec() == t,
            final(self).output_view() == old(self).output_view(),
            final(self).used_names() == old(self).used_names(),
            final(self).inputs_view() == old(self).inputs_view(),
            final(self).available_view() == old(self).available_view(),
    {
        self.craft_time = t;
        proof {
            assert(self.used_ingredients == old(self).used_ingredients);
            assert(self.used_distinct());
            assert(self.inputs_view() == old(self).inputs_view());
        }
    }

    /// The draft's output ingredient and per-cycle yield.
    pub fn output_ingredient(&self) -> (r: &IngredientWithCount)
        ensures
            r@ == self.output_view(),
    {
        &self.output_ingredient
    }

    /// Sets the per-cycle yield of the draft's output.
    pub fn set_output_count(&mut self, c: Ratio)
        requires
            old(self).wf(),
            c.wf(),
        ensures
            final(self).wf(),
            final(self).output_view() == (old(self).output_view().0, c),
            final(self).craft_time_spec() == old(self).craft_time_spec(),
            final(self).used_names() == old(self).used_names(),
            final(self).inputs_view() == old(self).inputs_view(),
            final(self).available_view() == old(self).available_view(),
    {
        self.output_ingredient.count = c;
        proof {
            assert(self.used_ingredients == old(self).used_ingredients);
            assert(self.used_distinct());
            assert(self.inputs_view() == old(self).inputs_view());
            assert(self.output_view() == (old(self).output_view().0, c));
        }
    }

    /// The cached candidates for the next input slot.
    pub fn available_ingredients(&self) -> (r: &Vec<Ingredient>)
        ensures
            names_of(r@) == self.available_view(),
    {
        &self.available_ingredients
    }

    /// The input slots, in order.
    pub fn inputs(&self) -> (r: &Vec<IngredientWithCount>)
        ensures
            r@.map(|i: int, e: IngredientWithCount| e@) == self.inputs_view(),
    {
        &self.input_ingredients
    }

    /// The number of input slots.
    pub fn num_inputs(&self) -> (r: usize)
        ensures
            r == self.inputs_view().len(),
    {
        self.input_ingredients.len()
    }

    /// The input slot at `index`, when there is one.
    pub fn get_input(&self, index: usize) -> (r: Option<&IngredientWithCount>)
        ensures
            match r {
                Some(e) => index < self.inputs_view().len() && e@ == self.inputs_view()[
                    index as int],
                None => index >= self.inputs_view().len(),
            },
    {
        if index < self.input_ingredients.len() {
            Some(&self.input_ingredients[index])
        } else {
            None
        }
    }

    /// Appends an unset placeholder slot.
    pub fn add_blank_input(&mut self)
        requires
            old(self).wf(),
        ensures
            final(self).wf(),
            final(self).inputs_view() == old(self).inputs_view().push(
                (Seq::<char>::empty(), crate::rat::spec_zero()),
            ),
            final(self).craft_time_spec() == old(self).craft_time_spec(),
            final(self).output_view() == old(self).output_view(),
            final(self).used_names() == old(self).used_names(),
            final(self).available_view() == old(self).available_view(),
    {
        self.input_ingredients.push(IngredientWithCount::placeholder());
        proof {
            assert(self.inputs_view() =~= old(self).inputs_view().push(
                (Seq::<char>::empty(), crate::rat::spec_zero()),
            ));
        }
    }

    /// Deletes the slot at `index`, releasing its ingredient and shifting
    /// later slots down; out of range, a no-op.
    pub fn remove_input(&mut self, index: usize)
        requires
            old(self).wf(),
        ensures
            final(self).wf(),
            index >= old(self).inputs_view().len() ==> *final(self) == *old(self),
            index < old(self).inputs_view().len() ==> {
                &&& final(self).inputs_view() == old(self).inputs_view().remove(index as int)
                &&& final(self).used_names() == old(self).used_names().remove(
                    old(self).inputs_view()[index as int].0,
                )
                &&& final(self).craft_time_spec() == old(self).craft_time_spec()
                &&& final(self).output_view() == old(self).output_view()
                &&& final(self).available_view() == old(self).available_view()
            },
    {
        if index < self.input_ingredients.len() {
            let prev = self.input_ingredients[index].ing.clone();
            proof {
                assert(old(self).inputs_view()[index as int].0 == prev@);
            }
            self.remove_used(&prev);
            self.input_ingredients.remove(index);
            proof {
                assert(self.inputs_view() =~= old(self).inputs_view().remove(index as int));
            }
        }
    }

    /// Replaces the ingredient in the slot at `index`, releasing the old one
    /// and reserving the new; out of range, a no-op.
    pub fn change_input_ingredient(&mut self, index: usize, value: Ingredient)
        requires
            old(self).wf(),
        ensures
            final(self).wf(),
            index >= old(self).inputs_view().len() ==> *final(self) == *old(self),
            index < old(self).inputs_view().len() ==> {
                &&& final(self).inputs_view() == old(self).inputs_view().update(
                    index as int,
                    (value@, old(self).inputs_view()[index as int].1),
                )
                &&& final(self).used_names() == old(self).used_names().remove(
                    old(self).inputs_view()[index as int].0,
                ).insert(value@)
                &&& final(self).craft_time_spec() == old(self).craft_time_spec()
                &&& final(self).output_view() == old(self).output_view()
                &&& final(self).available_view() == old(self).available_view()
            },
    {
        if index < self.input_ingredients.len() {
            let prev = self.input_ingredients[index].ing.clone();
            proof {
                assert(old(self).inputs_view()[index as int].0 == prev@);
            }
            self.remove_used(&prev);
            self.insert_used(value.clone());
            let count = self.input_ingredients[index].count;
            self.input_ingredients.set(index, IngredientWithCount { ing: value, count });
            proof {
                assert(self.inputs_view() =~= old(self).inputs_view().update(
                    index as int,
                    (value@, old(self).inputs_view()[index as int].1),
                ));
            }
        }
    }

    /// Changes the draft's output ingredient. The old output's name is
    /// released and the new one reserved, and any input slot that already
    /// held the new output is reset to the unset placeholder (keeping its
    /// quantity): an ingredient cannot be its own direct input.
    pub fn change_output_ingredient(&mut self, value: Ingredient)
        requires
            old(self).wf(),
        ensures
            final(self).wf(),
            final(self).output_view() == (value@, old(self).output_view().1),
            final(self).used_names() == old(self).used_names().remove(
                old(self).output_view().0,
            ).insert(value@),
            final(self).inputs_view() == old(self).inputs_view().map(
                |i: int, e: (Seq<char>, Ratio)|
                    if e.0 == value@ {
                        (Seq::<char>::empty(), e.1)
                    } else {
                        e
                    },
            ),
            final(self).craft_time_spec() == old(self).craft_time_spec(),
            final(self).available_view() == old(self).available_view(),
    {
        let prev = self.output_ingredient.ing.clone();
        proof {
            assert(old(self).output_view().0 == prev@);
        }
        self.remove_used(&prev);
        self.insert_used(value.clone());
        let out_name = value.clone();
        self.output_ingredient.ing = value;
        let ghost mid = *self;
        proof {
            assert(mid.output_view() == (out_name@, old(self).output_view().1));
            assert(mid.inputs_view() == old(self).inputs_view());
        }
        let n = self.input_ingredients.len();
        for i in 0..n
            invariant
                n == self.input_ingredients.len(),
                self.used_ingredients == mid.used_ingredients,
                self.output_ingredient == mid.output_ingredient,
                self.craft_time == mid.craft_time,
                self.available_ingredients == mid.available_ingredients,
                mid.wf(),
                out_name@ == mid.output_view().0,
                self.inputs_view().len() == mid.inputs_view().len(),
                forall|j: int|
                    i <= j < mid.inputs_view().len() ==> self.inputs_view()[j]
                        == (#[trigger] mid.inputs_view()[j]),
                forall|j: int|
                    0 <= j < i ==> self.inputs_view()[j] == (
                    if (#[trigger] mid.inputs_view()[j]).0 == out_name@ {
                        (Seq::<char>::empty(), mid.inputs_view()[j].1)
                    } else {
                        mid.inputs_view()[j]
                    }),
        {
            if self.input_ingredients[i].ing == out_name {
                let count = self.input_ingredients[i].count;
                self.input_ingredients.set(
                    i,
                    IngredientWithCount { ing: Ingredient::blank(), count },
                );
                proof {
                    assert(self.inputs_view()[i as int] == (Seq::<char>::empty(), count));
                    assert forall|j: int|
                        i + 1 <= j < mid.inputs_view().len() implies self.inputs_view()[j] == (
                    #[trigger] mid.inputs_view()[j]) by {}
                }
            }
        }
        proof {
            assert(self.inputs_view() =~= mid.inputs_view().map(
                |i: int, e: (Seq<char>, Ratio)|
                    if e.0 == out_name@ {
                        (Seq::<char>::empty(), e.1)
                    } else {
                        e
                    },
            ));
            assert(self.used_distinct()) by {
                assert(self.used_ingredients == mid.used_ingredients);
            }
            assert forall|i: int|
                0 <= i < self.inputs_view().len() implies (
            #[trigger] self.inputs_view()[i]).1.wf() by {
                assert(mid.inputs_view()[i].1.wf());
            }
        }
    }

    /// A mutable handle on the quantity of the slot at `index`, for a caller
    /// that edits it in place. The builder stays well formed as long as the
    /// quantity written back is itself well formed.
    pub fn get_input_count_mut(&mut self, index: usize) -> (r: &mut Ratio)
        requires
            old(self).wf(),
            index < old(self).inputs_view().len(),
        ensures
            *r == old(self).inputs_view()[index as int].1,
            final(self).inputs_view().len() == old(self).inputs_view().len(),
            final(self).inputs_view()[index as int] == (
                old(self).inputs_view()[index as int].0,
                *final(r),
            ),
            forall|j: int|
                0 <= j < old(self).inputs_view().len() && j != index
                    ==> final(self).inputs_view()[j] == old(self).inputs_view()[j],
            final(self).craft_time_spec() == old(self).craft_time_spec(),
            final(self).output_view() == old(self).output_view(),
            final(self).used_names() == old(self).used_names(),
            final(self).used_distinct(),
            final(self).available_view() == old(self).available_view(),
    {
        &mut self.input_ingredients[index].count
    }

    /// Sets the quantity of the slot at `index`; out of range, a no-op.
    pub fn set_input_count(&mut self, index: usize, count: Ratio)
        requires
            old(self).wf(),
            count.wf(),
        ensures
            final(self).wf(),
            index >= old(self).inputs_view().len() ==> *final(self) == *old(self),
            index < old(self).inputs_view().len() ==> final(self).inputs_view() == old(
                self,
            ).inputs_view().update(index as int, (old(self).inputs_view()[index as int].0, count)),
            final(self).craft_time_spec() == old(self).craft_time_spec(),
            final(self).output_view() == old(self).output_view(),
            final(self).used_names() == old(self).used_names(),
            final(self).available_view() == old(self).available_view(),
    {
        if index < self.input_ingredients.len() {
            let ing = self.input_ingredients[index].ing.clone();
            proof {
                assert(old(self).inputs_view()[index as int].0 == ing@);
            }
            self.input_ingredients.set(index, IngredientWithCount { ing, count });
            proof {
                assert(self.inputs_view() =~= old(self).inputs_view().update(
                    index as int,
                    (old(self).inputs_view()[index as int].0, count),
                ));
                assert(self.used_ingredients == old(self).used_ingredients);
                assert(self.used_distinct());
            }
        }
    }

    /// The list of names that may legally fill an input slot: every known
    /// ingredient of the catalog, in catalog order, that is neither
    /// reserved already nor reaching the draft's output.
    pub open spec fn spec_available(
        self,
        ings: Seq<Seq<char>>,
        rs: Seq<(Seq<char>, RecipeModel)>,
    ) -> Seq<Seq<char>>
        decreases ings.len(),
    {
        if ings.len() == 0 {
            Seq::empty()
        } else {
            let rest = self.spec_available(ings.drop_last(), rs);
            if self.candidate_legal(rs, ings.last()) {
                rest.push(ings.last())
            } else {
                rest
            }
        }
    }

    /// Recomputes the cached candidate list from the catalog and the
    /// draft's current reservations; nothing else changes.
    pub fn recompute_available_ingredients(&mut self, rdb: &RecipeDB)
        requires
            old(self).wf(),
            rdb.wf(),
        ensures
            final(self).wf(),
            final(self).craft_time_spec() == old(self).craft_time_spec(),
            final(self).output_view() == old(self).output_view(),
            final(self).used_names() == old(self).used_names(),
            final(self).inputs_view() == old(self).inputs_view(),
            final(self).available_view() == old(self).spec_available(
                rdb@.ingredients,
                rdb@.recipes,
            ),
    {
        let ghost rs = rdb@.recipes;
        let mut available: Vec<Ingredient> = Vec::new();
        let ings = rdb.known_ingredients();
        let n = ings.len();
        proof {
            assert(names_of(available@) =~= Seq::<Seq<char>>::empty());
            assert(rdb@.ingredients.take(0) =~= Seq::<Seq<char>>::empty());
        }
        for i in 0..n
            invariant
                self == old(self),
                self.wf(),
                rdb.wf(),
                rs == rdb@.recipes,
                n == ings@.len(),
                ings@.map(|k: int, e: Ingredient| e@) == rdb@.ingredients,
                names_of(available@) == self.spec_available(rdb@.ingredients.take(i as int), rs),
        {
            let ing = &ings[i];
            proof {
                assert(rdb@.ingredients[i as int] == ing@);
            }
            let legal = !self.used_contains(ing) && !would_create_cycle(
                &self.output_ingredient.ing,
                ing,
                rdb,
            );
            let ghost pre = names_of(available@);
            if legal {
                available.push(ing.clone());
            }
            proof {
                let t2 = rdb@.ingredients.take(i + 1);
                assert(t2.drop_last() =~= rdb@.ingredients.take(i as int));
                assert(t2.last() == ing@);
                if legal {
                    assert(names_of(available@) =~= pre.push(ing@));
                }
            }
        }
        proof {
            assert(rdb@.ingredients.take(n as int) =~= rdb@.ingredients);
        }
        self.available_ingredients = available;
        proof {
            assert(self.used_ingredients == old(self).used_ingredients);
            assert(self.used_distinct());
            assert(self.inputs_view() == old(self).inputs_view());
        }
    }

    /// Whether taking `input_ingredient` as an input of the draft's output
    /// would close a cycle in the committed recipe graph.
    pub fn detect_cyclical_recipe(&self, rdb: &RecipeDB, input_ingredient: &Ingredient) -> (r:
        bool)
        requires
            rdb.wf(),
        ensures
            r == reaches(rdb@.recipes, input_ingredient@, self.output_view().0),
    {
        would_create_cycle(&self.output_ingredient.ing, input_ingredient, rdb)
    }

    /// The first rule the draft breaks against the catalog, or `None` when
    /// it is valid.
    fn first_violation_exec(&self, rdb: &RecipeDB) -> (r: Option<BuildError>)
        requires
            self.wf(),
            rdb.wf(),
        ensures
            r == self.first_violation(rdb@.recipes),
    {
        let ghost rs = rdb@.recipes;
        if !(self.output_ingredient.ing.is_set() && self.output_ingredient.count.num() > 0) {
            return Some(BuildError::InvalidOutput);
        }
        proof {
            assert(self.output_rule_ok());
        }
        let n = self.input_ingredients.len();
        for i in 0..n
            invariant
                n == self.input_ingredients.len(),
                self.wf(),
                self.output_rule_ok(),
                forall|j: int|
                    0 <= j < i ==> (#[trigger] self.inputs_view()[j]).0.len() > 0
                        && self.inputs_view()[j].1.num >= self.inputs_view()[j].1.den,
        {
            let slot = &self.input_ingredients[i];
            proof {
                assert(self.inputs_view()[i as int] == (slot.ing@, slot.count));
            }
            if !(slot.ing.is_set() && slot.count.ge_one()) {
                return Some(BuildError::InvalidInput);
            }
        }
        proof {
            assert(self.input_rule_ok());
        }
        let ghost nm = self.inputs_view().map(|k: int, e: (Seq<char>, Ratio)| e.0);
        for i in 0..n
            invariant
                n == self.input_ingredients.len(),
                self.wf(),
                self.output_rule_ok(),
                self.input_rule_ok(),
                nm == self.inputs_view().map(|k: int, e: (Seq<char>, Ratio)| e.0),
                forall|a: int, b: int| 0 <= a < i && a < b < nm.len() ==> nm[a] != nm[b],
        {
            let mut j = i + 1;
            while j < n
                invariant
                    n == self.input_ingredients.len(),
                    self.wf(),
                    self.output_rule_ok(),
                    self.input_rule_ok(),
                    i < n,
                    i < j,
                    nm == self.inputs_view().map(|k: int, e: (Seq<char>, Ratio)| e.0),
                    forall|b: int| i < b < j ==> nm[i as int] != nm[b],
                decreases n - j,
            {
                if self.input_ingredients[i].ing == self.input_ingredients[j].ing {
                    proof {
                        assert(nm[i as int] == self.input_ingredients@[i as int].ing@);
                        assert(nm[j as int] == self.input_ingredients@[j as int].ing@);
                        assert(!self.distinct_rule_ok());
                    }
                    return Some(BuildError::DuplicateInput);
                }
                proof {
                    assert(nm[i as int] == self.input_ingredients@[i as int].ing@);
                    assert(nm[j as int] == self.input_ingredients@[j as int].ing@);
                }
                j += 1;
            }
        }
        proof {
            assert(self.distinct_rule_ok());
        }
        for i in 0..n
            invariant
                n == self.input_ingredients.len(),
                self.wf(),
                rdb.wf(),
                rs == rdb@.recipes,
                self.output_rule_ok(),
                self.input_rule_ok(),
                self.distinct_rule_ok(),
                forall|j: int|
                    0 <= j < i ==> !reaches(
                        rs,
                        (#[trigger] self.inputs_view()[j]).0,
                        self.output_view().0,
                    ),
        {
            let slot = &self.input_ingredients[i];
            proof {
                assert(self.inputs_view()[i as int] == (slot.ing@, slot.count));
            }
            if self.detect_cyclical_recipe(rdb, &slot.ing) {
                return Some(BuildError::CyclicInput);
            }
        }
        proof {
            assert(self.acyclic_rule_ok(rs));
        }
        None
    }

    /// Whether the draft passes the full validation against the catalog:
    /// output set with positive yield, every slot set with quantity at least
    /// one, no duplicate inputs, no cycle.
    pub fn is_recipe_valid(&self, rdb: &RecipeDB) -> (r: bool)
        requires
            self.wf(),
            rdb.wf(),
        ensures
            r == self.spec_recipe_valid(rdb@.recipes),
    {
        self.first_violation_exec(rdb).is_none()
    }

    /// Commits the draft into the catalog.
    ///
    /// On success the recipe keyed by the draft's output replaces any prior
    /// one, and an acyclic catalog stays acyclic. On failure the specific
    /// violated rule is returned and the catalog is untouched. The draft
    /// itself is never changed: a caller starts the next edit from a fresh
    /// draft.
    pub fn build_recipe(&self, rdb: &mut RecipeDB) -> (r: Result<(), BuildError>)
        requires
            self.wf(),
            old(rdb).wf(),
        ensures
            final(rdb).wf(),
            r is Ok <==> self.spec_recipe_valid(old(rdb)@.recipes),
            match r {
                Ok(u) => {
                    &&& final(rdb)@.ingredients == old(rdb)@.ingredients
                    &&& final(rdb)@.recipes == spec_insert_entry(
                        old(rdb)@.recipes,
                        self.output_view().0,
                        self.draft_model(),
                    )
                    &&& acyclic(old(rdb)@.recipes) ==> acyclic(final(rdb)@.recipes)
                },
                Err(e) => {
                    &&& self.first_violation(old(rdb)@.recipes) == Some(e)
                    &&& *final(rdb) == *old(rdb)
                },
            },
    {
        let ghost rs = rdb@.recipes;
        match self.first_violation_exec(rdb) {
            Some(e) => Err(e),
            None => {
                let recipe = Recipe {
                    craft_time: self.craft_time,
                    output_num: self.output_ingredient.count,
                    inputs: self.input_ingredients.clone(),
                };
                proof {
                    assert(recipe@.inputs =~= self.inputs_view());
                    assert(recipe@ == self.draft_model());
                    assert(recipe@.wf());
                }
                rdb.insert_recipe(self.output_ingredient.ing.clone(), recipe);
                proof {
                    if acyclic(rs) {
                        lemma_insert_preserves_acyclic(
                            rs,
                            self.output_view().0,
                            self.draft_model(),
                        );
                    }
                }
                Ok(())
            },
        }
    }

    /// Whether `x`'s name is currently reserved.
    fn used_contains(&self, x: &Ingredient) -> (r: bool)
        ensures
            r == self.used_names().contains(x@),
    {
        let n = self.used_ingredients.len();
        for i in 0..n
            invariant
                n == self.used_ingredients.len(),
                forall|j: int| 0 <= j < i ==> names_of(self.used_ingredients@)[j] != x@,
        {
            if self.used_ingredients[i] == *x {
                proof {
                    assert(names_of(self.used_ingredients@)[i as int] == x@);
                }
                return true;
            }
        }
        proof {
            assert(!names_of(self.used_ingredients@).contains(x@));
        }
        false
    }

    /// Releases `x`'s name from the reservation set (a no-op when absent).
    fn remove_used(&mut self, x: &Ingredient)
        requires
            old(self).used_distinct(),
        ensures
            final(self).used_distinct(),
            final(self).used_names() == old(self).used_names().remove(x@),
            final(self).craft_time_spec() == old(self).craft_time_spec(),
            final(self).output_view() == old(self).output_view(),
            final(self).inputs_view() == old(self).inputs_view(),
            final(self).available_view() == old(self).available_view(),
    {
        let n = self.used_ingredients.len();
        for i in 0..n
            invariant
                n == self.used_ingredients.len(),
                self == old(self),
                old(self).used_distinct(),
                forall|j: int| 0 <= j < i ==> names_of(self.used_ingredients@)[j] != x@,
        {
            if self.used_ingredients[i] == *x {
                let ghost s = names_of(self.used_ingredients@);
                proof {
                    assert(s[i as int] == x@);
                }
                self.used_ingredients.remove(i);
                proof {
                    let s2 = names_of(self.used_ingredients@);
                    assert(s2 =~= s.remove(i as int));
                    lemma_remove_at(s, i as int);
                    assert(s2.to_set() =~= s.to_set().remove(x@));
                }
                return ;
            }
        }
        proof {
            let s = names_of(self.used_ingredients@);
            assert(!s.contains(x@));
            assert(s.to_set() =~= s.to_set().remove(x@));
        }
    }

    /// Reserves `x`'s name (a no-op when already reserved).
    fn insert_used(&mut self, x: Ingredient)
        requires
            old(self).used_distinct(),
        ensures
            final(self).used_distinct(),
            final(self).used_names() == old(self).used_names().insert(x@),
            final(self).craft_time_spec() == old(self).craft_time_spec(),
            final(self).output_view() == old(self).output_view(),
            final(self).inputs_view() == old(self).inputs_view(),
            final(self).available_view() == old(self).available_view(),
    {
        if self.used_contains(&x) {
            proof {
                let s = names_of(self.used_ingredients@);
                assert(s.to_set() =~= s.to_set().insert(x@));
            }
            return ;
        }
        let ghost s = names_of(self.used_ingredients@);
        self.used_ingredients.push(x);
        proof {
            let s2 = names_of(self.used_ingredients@);
            assert(s2 =~= s.push(x@));
            assert(s2.to_set() =~= s.to_set().insert(x@)) by {
                assert forall|y: Seq<char>| s2.contains(y) implies s.contains(y) || y == x@ by {
                    let k = choose|k: int| 0 <= k < s2.len() && s2[k] == y;
                    if k < s.len() {
                        assert(s[k] == y);
                    }
                }
                assert forall|y: Seq<char>| s.contains(y) implies s2.contains(y) by {
                    let k = choose|k: int| 0 <= k < s.len() && s[k] == y;
                    assert(s2[k] == y);
                }
                assert(s2[s2.len() - 1] == x@);
            }
            assert(s2.no_duplicates()) by {
                assert forall|a: int, b: int|
                    0 <= a < s2.len() && 0 <= b < s2.len() && a != b implies s2[a] != s2[b] by {
                    if a < s.len() && b < s.len() {
                        assert(s2[a] == s[a] && s2[b] == s[b]);
                    } else if a < s.len() {
                        assert(s2[a] == s[a] && s2[b] == x@);
                        assert(!s.contains(x@));
                    } else {
                        assert(s2[b] == s[b] && s2[a] == x@);
                        assert(!s.contains(x@));
                    }
                }
            }
        }
    }
}

impl Default for RecipeBuilder {
    fn default() -> (r: Self)
        ensures
            r.wf(),
            r.craft_time_spec() == crate::rat::spec_zero(),
            r.output_view() == (Seq::<char>::empty(), crate::rat::spec_zero()),
            r.used_names() == Set::<Seq<char>>::empty(),
            r.inputs_view() == Seq::<(Seq<char>, Ratio)>::empty(),
            r.available_view() == Seq::<Seq<char>>::empty(),
    {
        RecipeBuilder::new()
    }
}

/// Law: recomputing the available list is idempotent. A recompute changes
/// nothing but the cached list, and the list is a function of the
/// reservations, the output and the catalog alone — so running it twice
/// without any other mutation stores the same list both times.
pub proof fn lemma_recompute_available_idempotent(
    before: RecipeBuilder,
    after: RecipeBuilder,
    ings: Seq<Seq<char>>,
    rs: Seq<(Seq<char>, RecipeModel)>,
)
    requires
        after.used_names() == before.used_names(),
        after.output_view().0 == before.output_view().0,
    ensures
        after.spec_available(ings, rs) == before.spec_available(ings, rs),
    decreases ings.len(),
{
    if ings.len() > 0 {
        lemma_recompute_available_idempotent(before, after, ings.drop_last(), rs);
    }
}

/// Removing the element at `i` from a duplicate-free sequence removes
/// exactly that name from the set of its elements.
proof fn lemma_remove_at(s: Seq<Seq<char>>, i: int)
    requires
        s.no_duplicates(),
        0 <= i < s.len(),
    ensures
        s.remove(i).no_duplicates(),
        s.remove(i).to_set() =~= s.to_set().remove(s[i]),
{
    let s2 = s.remove(i);
    assert forall|y: Seq<char>| s2.contains(y) implies s.contains(y) && y != s[i] by {
        let k = choose|k: int| 0 <= k < s2.len() && s2[k] == y;
        if k < i {
            assert(s[k] == y);
            assert(k != i);
        } else {
            assert(s[k + 1] == y);
            assert(k + 1 != i);
        }
    }
    assert forall|y: Seq<char>| s.contains(y) && y != s[i] implies s2.contains(y) by {
        let k = choose|k: int| 0 <= k < s.len() && s[k] == y;
        if k < i {
            assert(s2[k] == y);
        } else {
            assert(k > i);
            assert(s2[k - 1] == y);
        }
    }
    assert forall|a: int, b: int|
        0 <= a < s2.len() && 0 <= b < s2.len() && a != b implies s2[a] != s2[b] by {
        let a0: int = if a < i {
            a
        } else {
            a + 1
        };
        let b0: int = if b < i {
            b
        } else {
            b + 1
        };
        assert(s2[a] == s[a0] && s2[b] == s[b0]);
    }
}

} // verus!
