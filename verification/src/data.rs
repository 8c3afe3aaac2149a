//! The data model: ingredients, recipes and the catalog.
//!
//! An ingredient's identity is its name; two ingredients with equal names are
//! the same entity, and the empty name is the "no selection" placeholder.
//! Each ingredient has at most one producing recipe, so the catalog keeps its
//! recipes as an association list keyed by the produced ingredient's name,
//! with the keys pairwise distinct.

use crate::rat::Ratio;
use vstd::prelude::*;

verus! {

/// A named resource identity.
///
/// Compared by name: two ingredients with equal names are the same entity.
/// The empty name stands for "no selection" and is treated as absent by every
/// validity check.
#[derive(Debug)]
pub struct Ingredient {
    pub name: String,
}

impl View for Ingredient {
    type V = Seq<char>;

    open spec fn view(&self) -> Seq<char> {
        self.name@
    }
}

impl Ingredient {
    /// The name is non-empty, so the ingredient is a real selection.
    pub open spec fn is_set_spec(self) -> bool {
        self@.len() > 0
    }

    /// An ingredient with the given name.
    pub fn new(name: String) -> (r: Ingredient)
        ensures
            r@ == name@,
    {
        Ingredient { name }
    }

    /// The "no selection" placeholder: the empty name.
    pub fn blank() -> (r: Ingredient)
        ensures
            r@ == Seq::<char>::empty(),
            !r.is_set_spec(),
    {
        Ingredient { name: String::new() }
    }

    /// Whether the name is non-empty.
    pub fn is_set(&self) -> (r: bool)
        ensures
            r == self.is_set_spec(),
    {
        !self.name.as_str().is_empty()
    }
}

impl Clone for Ingredient {
    fn clone(&self) -> (r: Self)
        ensures
            r == *self,
    {
        Ingredient { name: self.name.clone() }
    }
}

impl PartialEq for Ingredient {
    fn eq(&self, other: &Ingredient) -> (r: bool) {
        self.name == other.name
    }
}

impl vstd::std_specs::cmp::PartialEqSpecImpl for Ingredient {
    open spec fn obeys_eq_spec() -> bool {
        true
    }

    open spec fn eq_spec(&self, other: &Ingredient) -> bool {
        self@ == other@
    }
}

/// An (ingredient, quantity) pair: units consumed or produced per craft
/// cycle.
///
/// A zero quantity or an unset ingredient denotes an unfilled placeholder and
/// is never valid in a committed recipe.
#[derive(Debug)]
pub struct IngredientWithCount {
    pub ing: Ingredient,
    pub count: Ratio,
}

impl View for IngredientWithCount {
    type V = (Seq<char>, Ratio);

    open spec fn view(&self) -> (Seq<char>, Ratio) {
        (self.ing@, self.count)
    }
}

impl IngredientWithCount {
    /// The quantity denotes a rational.
    pub open spec fn wf(self) -> bool {
        self.count.wf()
    }

    /// An unfilled slot: the blank ingredient with quantity zero.
    pub fn placeholder() -> (r: IngredientWithCount)
        ensures
            r@ == (Seq::<char>::empty(), crate::rat::spec_zero()),
            r.wf(),
    {
        IngredientWithCount { ing: Ingredient::blank(), count: Ratio::zero() }
    }

    /// The given pair.
    pub fn new(ing: Ingredient, count: Ratio) -> (r: IngredientWithCount)
        ensures
            r == (IngredientWithCount { ing, count }),
    {
        IngredientWithCount { ing, count }
    }
}

impl Clone for IngredientWithCount {
    fn clone(&self) -> (r: Self)
        ensures
            r == *self,
    {
        IngredientWithCount { ing: self.ing.clone(), count: self.count }
    }
}

impl PartialEq for IngredientWithCount {
    fn eq(&self, other: &IngredientWithCount) -> (r: bool) {
        self.ing == other.ing && self.count == other.count
    }
}

impl vstd::std_specs::cmp::PartialEqSpecImpl for IngredientWithCount {
    open spec fn obeys_eq_spec() -> bool {
        true
    }

    open spec fn eq_spec(&self, other: &IngredientWithCount) -> bool {
        self@ == other@
    }
}

/// The mathematical content of a recipe: craft time, per-cycle yield, and the
/// named input quantities in slot order.
pub struct RecipeModel {
    pub craft_time: Ratio,
    pub output_num: Ratio,
    pub inputs: Seq<(Seq<char>, Ratio)>,
}

impl RecipeModel {
    /// Every quantity denotes a rational.
    pub open spec fn wf(self) -> bool {
        &&& self.craft_time.wf()
        &&& self.output_num.wf()
        &&& forall|i: int| 0 <= i < self.inputs.len() ==> (#[trigger] self.inputs[i]).1.wf()
    }
}

/// A production rule: the keyed ingredient is produced `output_num` units per
/// cycle, each cycle takes `craft_time` seconds and consumes the `inputs`.
///
/// Input order is display-relevant but carries no mathematical meaning.
#[derive(Debug)]
pub struct Recipe {
    pub craft_time: Ratio,
    pub output_num: Ratio,
    pub inputs: Vec<IngredientWithCount>,
}

impl View for Recipe {
    type V = RecipeModel;

    open spec fn view(&self) -> RecipeModel {
        RecipeModel {
            craft_time: self.craft_time,
            output_num: self.output_num,
            inputs: self.inputs@.map(|i: int, e: IngredientWithCount| e@),
        }
    }
}

impl Clone for Recipe {
    fn clone(&self) -> (r: Self)
        ensures
            r@ == self@,
    {
        let r = Recipe {
            craft_time: self.craft_time,
            output_num: self.output_num,
            inputs: self.inputs.clone(),
        };
        proof {
            assert(r.inputs@ =~= self.inputs@);
            assert(r@.inputs =~= self@.inputs);
        }
        r
    }
}

impl PartialEq for Recipe {
    fn eq(&self, other: &Recipe) -> (r: bool) {
        if !(self.craft_time == other.craft_time && self.output_num == other.output_num) {
            proof {
                if self@ == other@ {
                    assert(self@.craft_time == other@.craft_time);
                    assert(self@.output_num == other@.output_num);
                }
            }
            return false;
        }
        if self.inputs.len() != other.inputs.len() {
            proof {
                if self@ == other@ {
                    assert(self@.inputs.len() == other@.inputs.len());
                }
            }
            return false;
        }
        let n = self.inputs.len();
        for i in 0..n
            invariant
                n == self.inputs.len(),
                n == other.inputs.len(),
                forall|j: int| 0 <= j < i ==> self.inputs@[j]@ == other.inputs@[j]@,
        {
            if !(self.inputs[i] == other.inputs[i]) {
                proof {
                    if self@ == other@ {
                        assert(self@.inputs[i as int] == other@.inputs[i as int]);
                    }
                }
                return false;
            }
        }
        proof {
            assert(self@.inputs =~= other@.inputs);
        }
        true
    }
}

impl vstd::std_specs::cmp::PartialEqSpecImpl for Recipe {
    open spec fn obeys_eq_spec() -> bool {
        true
    }

    open spec fn eq_spec(&self, other: &Recipe) -> bool {
        self@ == other@
    }
}

/// The mathematical content of a catalog: the known ingredient names in
/// insertion order, and the recipe entries keyed by the produced name.
pub struct DbModel {
    pub ingredients: Seq<Seq<char>>,
    pub recipes: Seq<(Seq<char>, RecipeModel)>,
}

/// The names are pairwise distinct.
pub open spec fn distinct_names(s: Seq<Seq<char>>) -> bool {
    forall|i: int, j: int| 0 <= i < j < s.len() ==> s[i] != s[j]
}

/// The keys of the recipe entries, in entry order.
pub open spec fn recipe_keys(rs: Seq<(Seq<char>, RecipeModel)>) -> Seq<Seq<char>> {
    rs.map(|i: int, e: (Seq<char>, RecipeModel)| e.0)
}

/// Some entry is keyed by `key`.
pub open spec fn has_key(rs: Seq<(Seq<char>, RecipeModel)>, key: Seq<char>) -> bool {
    exists|i: int| 0 <= i < rs.len() && (#[trigger] rs[i]).0 == key
}

/// The index of an entry keyed by `key` (the only one, when keys are
/// distinct).
pub open spec fn key_index(rs: Seq<(Seq<char>, RecipeModel)>, key: Seq<char>) -> int {
    choose|i: int| 0 <= i < rs.len() && (#[trigger] rs[i]).0 == key
}

/// The recipe producing `key`, or `None` when `key` is a raw resource.
pub open spec fn spec_find(rs: Seq<(Seq<char>, RecipeModel)>, key: Seq<char>) -> Option<
    RecipeModel,
> {
    if has_key(rs, key) {
        Some(rs[key_index(rs, key)].1)
    } else {
        None
    }
}

/// The entries after inserting the recipe `rm` for `key`: a prior entry for
/// `key` is replaced in place, a new key is appended.
pub open spec fn spec_insert_entry(
    rs: Seq<(Seq<char>, RecipeModel)>,
    key: Seq<char>,
    rm: RecipeModel,
) -> Seq<(Seq<char>, RecipeModel)> {
    if has_key(rs, key) {
        rs.update(key_index(rs, key), (key, rm))
    } else {
        rs.push((key, rm))
    }
}

impl DbModel {
    /// Ingredient names and recipe keys are pairwise distinct, and every
    /// stored quantity denotes a rational.
    pub open spec fn wf(self) -> bool {
        &&& distinct_names(self.ingredients)
        &&& distinct_names(recipe_keys(self.recipes))
        &&& forall|i: int| 0 <= i < self.recipes.len() ==> (#[trigger] self.recipes[i]).1.wf()
    }
}

/// The catalog: the known ingredients and the mapping from an ingredient to
/// its (at most one) producing recipe.
///
/// The recipe entries are an association list with pairwise distinct keys;
/// replacing a recipe keeps its position, a new key is appended.
#[derive(Debug)]
pub struct RecipeDB {
    known_ingredients: Vec<Ingredient>,
    known_recipes: Vec<(Ingredient, Recipe)>,
}

impl View for RecipeDB {
    type V = DbModel;

    closed spec fn view(&self) -> DbModel {
        DbModel {
            ingredients: self.known_ingredients@.map(|i: int, e: Ingredient| e@),
            recipes: self.known_recipes@.map(
                |i: int, e: (Ingredient, Recipe)| (e.0@, e.1@),
            ),
        }
    }
}

impl RecipeDB {
    /// The catalog's invariant holds of its model.
    pub open spec fn wf(self) -> bool {
        self@.wf()
    }

    /// An empty catalog.
    pub fn new() -> (r: RecipeDB)
        ensures
            r.wf(),
            r@.ingredients == Seq::<Seq<char>>::empty(),
            r@.recipes == Seq::<(Seq<char>, RecipeModel)>::empty(),
    {
        let r = RecipeDB { known_ingredients: Vec::new(), known_recipes: Vec::new() };
        proof {
            assert(r@.ingredients =~= Seq::<Seq<char>>::empty());
            assert(r@.recipes =~= Seq::<(Seq<char>, RecipeModel)>::empty());
        }
        r
    }

    /// The known ingredients, in insertion order.
    pub fn known_ingredients(&self) -> (r: &Vec<Ingredient>)
        ensures
            r@.map(|i: int, e: Ingredient| e@) == self@.ingredients,
    {
        &self.known_ingredients
    }

    /// The recipe entries, in storage order.
    pub fn recipe_entries(&self) -> (r: &Vec<(Ingredient, Recipe)>)
        ensures
            r@.map(|i: int, e: (Ingredient, Recipe)| (e.0@, e.1@)) == self@.recipes,
    {
        &self.known_recipes
    }

    /// The recipe producing `ing`, or `None` when `ing` is a raw resource
    /// (also for any ingredient the catalog has never heard of).
    pub fn get_recipe(&self, ing: &Ingredient) -> (r: Option<&Recipe>)
        requires
            self.wf(),
        ensures
            match r {
                Some(rec) => spec_find(self@.recipes, ing@) == Some(rec@),
                None => spec_find(self@.recipes, ing@) is None,
            },
    {
        let n = self.known_recipes.len();
        for i in 0..n
            invariant
                n == self.known_recipes.len(),
                self.wf(),
                forall|j: int| 0 <= j < i ==> self@.recipes[j].0 != ing@,
        {
            if self.known_recipes[i].0 == *ing {
                proof {
                    let rs = self@.recipes;
                    assert(rs[i as int].0 == ing@);
                    let k = key_index(rs, ing@);
                    assert(distinct_names(recipe_keys(rs)));
                    assert(recipe_keys(rs)[k] == rs[k].0);
                    assert(recipe_keys(rs)[i as int] == rs[i as int].0);
                    assert(k == i as int);
                }
                return Some(&self.known_recipes[i].1);
            }
        }
        proof {
            assert(!has_key(self@.recipes, ing@));
        }
        None
    }

    /// Appends a new raw ingredient name, unless an ingredient with exactly
    /// that name is already known.
    pub fn add_known_ingredient(&mut self, ing: Ingredient)
        requires
            old(self).wf(),
        ensures
            final(self).wf(),
            final(self)@.recipes == old(self)@.recipes,
            old(self)@.ingredients.contains(ing@) ==> final(self)@.ingredients == old(
                self,
            )@.ingredients,
            !old(self)@.ingredients.contains(ing@) ==> final(self)@.ingredients == old(
                self,
            )@.ingredients.push(ing@),
    {
        let n = self.known_ingredients.len();
        for i in 0..n
            invariant
                n == self.known_ingredients.len(),
                self.wf(),
                self == old(self),
                forall|j: int| 0 <= j < i ==> self@.ingredients[j] != ing@,
        {
            if self.known_ingredients[i] == ing {
                proof {
                    assert(self@.ingredients[i as int] == ing@);
                }
                return ;
            }
        }
        proof {
            assert(forall|j: int|
                0 <= j < self@.ingredients.len() ==> self@.ingredients[j] != ing@);
            assert(!self@.ingredients.contains(ing@));
        }
        let ghost old_db = *self;
        self.known_ingredients.push(ing);
        proof {
            assert(self@.ingredients =~= old_db@.ingredients.push(ing@));
            assert(self@.recipes =~= old_db@.recipes);
            assert forall|i: int, j: int| 0 <= i < j < self@.ingredients.len() implies self@.ingredients[i]
                != self@.ingredients[j] by {
                if j == self@.ingredients.len() - 1 {
                    assert(old_db@.ingredients[i] != ing@);
                }
            }
        }
    }

    /// Inserts the recipe producing `key`, replacing in place any prior
    /// recipe with that key and appending otherwise.
    pub(crate) fn insert_recipe(&mut self, key: Ingredient, recipe: Recipe)
        requires
            old(self).wf(),
            recipe@.wf(),
        ensures
            final(self).wf(),
            final(self)@.ingredients == old(self)@.ingredients,
            final(self)@.recipes == spec_insert_entry(old(self)@.recipes, key@, recipe@),
    {
        let n = self.known_recipes.len();
        for i in 0..n
            invariant
                n == self.known_recipes.len(),
                self.wf(),
                self == old(self),
                recipe@.wf(),
                forall|j: int| 0 <= j < i ==> self@.recipes[j].0 != key@,
        {
            if self.known_recipes[i].0 == key {
                let ghost old_db = *self;
                proof {
                    let rs = old_db@.recipes;
                    assert(rs[i as int].0 == key@);
                    let k = key_index(rs, key@);
                    assert(recipe_keys(rs)[k] == rs[k].0);
                    assert(recipe_keys(rs)[i as int] == rs[i as int].0);
                    assert(k == i as int);
                }
                self.known_recipes[i] = (key, recipe);
                proof {
                    assert(self@.recipes =~= old_db@.recipes.update(
                        i as int,
                        (key@, recipe@),
                    ));
                    assert(self@.ingredients =~= old_db@.ingredients);
                    assert(recipe_keys(self@.recipes) =~= recipe_keys(old_db@.recipes));
                    assert forall|m: int| 0 <= m < self@.recipes.len() implies (
                    #[trigger] self@.recipes[m]).1.wf() by {
                        if m != i as int {
                            assert(self@.recipes[m] == old_db@.recipes[m]);
                        }
                    }
                }
                return ;
            }
        }
        proof {
            assert(!has_key(self@.recipes, key@));
        }
        let ghost old_db = *self;
        self.known_recipes.push((key, recipe));
        proof {
            assert(self@.recipes =~= old_db@.recipes.push((key@, recipe@)));
            assert(self@.ingredients =~= old_db@.ingredients);
            let ks = recipe_keys(self@.recipes);
            assert forall|i: int, j: int| 0 <= i < j < ks.len() implies ks[i] != ks[j] by {
                assert(forall|m: int|
                    0 <= m < old_db@.recipes.len() ==> ks[m] == recipe_keys(old_db@.recipes)[m]);
                if j == ks.len() - 1 {
                    assert(old_db@.recipes[i].0 != key@);
                    assert(ks[i] == old_db@.recipes[i].0);
                    assert(ks[j] == key@);
                }
            }
        }
    }
}

/// Why a snapshot's parts cannot form a catalog.
#[derive(Clone, Copy, Debug, PartialEq, Eq, Structural)]
pub enum SnapshotError {
    /// Two known ingredients carry the same name.
    DuplicateIngredient,
    /// Two recipe entries are keyed by the same name.
    DuplicateRecipe,
    /// Some stored quantity has a zero denominator, so it denotes no
    /// rational.
    InvalidQuantity,
}

/// The catalog a snapshot denotes, or `None` when its parts break the
/// catalog invariant.
pub open spec fn spec_from_parts(
    ingredients: Seq<Seq<char>>,
    recipes: Seq<(Seq<char>, RecipeModel)>,
) -> Option<DbModel> {
    let m = DbModel { ingredients, recipes };
    if m.wf() {
        Some(m)
    } else {
        None
    }
}

/// Law: a catalog survives the snapshot round trip. Its own parts satisfy
/// the catalog invariant, so rebuilding from them yields exactly the same
/// catalog, field for field.
pub proof fn lemma_snapshot_roundtrip(db: RecipeDB)
    requires
        db.wf(),
    ensures
        spec_from_parts(db@.ingredients, db@.recipes) == Some(db@),
{
}

impl RecipeDB {
    /// Rebuilds a catalog from snapshot parts, validating the catalog
    /// invariant: distinct ingredient names, distinct recipe keys, and
    /// every quantity a well-formed fraction. Acyclicity is deliberately
    /// not demanded here — it is enforced when recipes are committed, and
    /// the cycle detector is safe on any catalog — so a caller that wants
    /// it checks [`crate::cycle::is_acyclic`].
    pub fn from_parts(ingredients: Vec<Ingredient>, recipes: Vec<(Ingredient, Recipe)>) -> (r:
        Result<RecipeDB, SnapshotError>)
        ensures
            ({
                let ings = ingredients@.map(|i: int, e: Ingredient| e@);
                let rs = recipes@.map(|i: int, e: (Ingredient, Recipe)| (e.0@, e.1@));
                match r {
                    Ok(db) => {
                        &&& spec_from_parts(ings, rs) == Some(db@)
                        &&& db.wf()
                        &&& db@ == (DbModel { ingredients: ings, recipes: rs })
                    },
                    Err(e) => {
                        &&& spec_from_parts(ings, rs) is None
                        &&& (e == SnapshotError::DuplicateIngredient <==> !distinct_names(ings))
                        &&& (e == SnapshotError::DuplicateRecipe <==> distinct_names(ings)
                            && !distinct_names(recipe_keys(rs)))
                        &&& (e == SnapshotError::InvalidQuantity <==> distinct_names(ings)
                            && distinct_names(recipe_keys(rs)) && !(forall|i: int|
                            0 <= i < rs.len() ==> (#[trigger] rs[i]).1.wf()))
                    },
                }
            }),
    {
        let ghost ings = ingredients@.map(|i: int, e: Ingredient| e@);
        let ghost rs = recipes@.map(|i: int, e: (Ingredient, Recipe)| (e.0@, e.1@));
        let n = ingredients.len();
        for i in 0..n
            invariant
                n == ingredients@.len(),
                ings == ingredients@.map(|k: int, e: Ingredient| e@),
                forall|a: int, b: int| 0 <= a < i && a < b < ings.len() ==> ings[a] != ings[b],
        {
            let mut j = i + 1;
            while j < n
                invariant
                    n == ingredients@.len(),
                    ings == ingredients@.map(|k: int, e: Ingredient| e@),
                    i < j,
                    i < n,
                    forall|b: int| i < b < j ==> ings[i as int] != ings[b],
                decreases n - j,
            {
                if ingredients[i] == ingredients[j] {
                    proof {
                        assert(ings[i as int] == ingredients@[i as int]@);
                        assert(ings[j as int] == ingredients@[j as int]@);
                        assert(!distinct_names(ings));
                    }
                    return Err(SnapshotError::DuplicateIngredient);
                }
                proof {
                    assert(ings[i as int] == ingredients@[i as int]@);
                    assert(ings[j as int] == ingredients@[j as int]@);
                }
                j += 1;
            }
        }
        proof {
            assert(distinct_names(ings));
        }
        let m = recipes.len();
        for i in 0..m
            invariant
                m == recipes@.len(),
                rs == recipes@.map(|k: int, e: (Ingredient, Recipe)| (e.0@, e.1@)),
                distinct_names(ings),
                ings == ingredients@.map(|k: int, e: Ingredient| e@),
                forall|a: int, b: int|
                    0 <= a < i && a < b < recipe_keys(rs).len() ==> recipe_keys(rs)[a]
                        != recipe_keys(rs)[b],
        {
            let mut j = i + 1;
            while j < m
                invariant
                    m == recipes@.len(),
                    rs == recipes@.map(|k: int, e: (Ingredient, Recipe)| (e.0@, e.1@)),
                    distinct_names(ings),
                    ings == ingredients@.map(|k: int, e: Ingredient| e@),
                    i < j,
                    i < m,
                    forall|b: int| i < b < j ==> recipe_keys(rs)[i as int] != recipe_keys(rs)[b],
                decreases m - j,
            {
                if recipes[i].0 == recipes[j].0 {
                    proof {
                        assert(recipe_keys(rs)[i as int] == recipes@[i as int].0@);
                        assert(recipe_keys(rs)[j as int] == recipes@[j as int].0@);
                        assert(!distinct_names(recipe_keys(rs)));
                    }
                    return Err(SnapshotError::DuplicateRecipe);
                }
                proof {
                    assert(recipe_keys(rs)[i as int] == recipes@[i as int].0@);
                    assert(recipe_keys(rs)[j as int] == recipes@[j as int].0@);
                }
                j += 1;
            }
        }
        proof {
            assert(distinct_names(recipe_keys(rs)));
        }
        for i in 0..m
            invariant
                m == recipes@.len(),
                rs == recipes@.map(|k: int, e: (Ingredient, Recipe)| (e.0@, e.1@)),
                distinct_names(ings),
                distinct_names(recipe_keys(rs)),
                ings == ingredients@.map(|k: int, e: Ingredient| e@),
                forall|a: int| 0 <= a < i ==> (#[trigger] rs[a]).1.wf(),
        {
            let rec = &recipes[i].1;
            proof {
                assert(rs[i as int].1 == rec@);
            }
            if rec.craft_time.den() == 0 || rec.output_num.den() == 0 {
                proof {
                    assert(!rs[i as int].1.wf());
                }
                return Err(SnapshotError::InvalidQuantity);
            }
            let c = rec.inputs.len();
            for j in 0..c
                invariant
                    c == rec.inputs@.len(),
                    rec@.inputs.len() == c,
                    m == recipes@.len(),
                    i < m,
                    rs == recipes@.map(|k: int, e: (Ingredient, Recipe)| (e.0@, e.1@)),
                    rs[i as int].1 == rec@,
                    distinct_names(ings),
                    distinct_names(recipe_keys(rs)),
                    ings == ingredients@.map(|k: int, e: Ingredient| e@),
                    forall|b: int| 0 <= b < j ==> (#[trigger] rec@.inputs[b]).1.wf(),
            {
                proof {
                    assert(rec@.inputs[j as int] == (rec.inputs@[j as int].ing@, rec.inputs@[
                    j as int].count));
                }
                if rec.inputs[j].count.den() == 0 {
                    proof {
                        assert(!rec@.inputs[j as int].1.wf());
                        assert(!rs[i as int].1.wf());
                    }
                    return Err(SnapshotError::InvalidQuantity);
                }
            }
            proof {
                assert(rec@.wf());
            }
        }
        let db = RecipeDB { known_ingredients: ingredients, known_recipes: recipes };
        proof {
            assert(db@ == (DbModel { ingredients: ings, recipes: rs }));
            assert(db.wf());
        }
        Ok(db)
    }
}

impl PartialEq for RecipeDB {
    fn eq(&self, other: &RecipeDB) -> (r: bool) {
        if self.known_ingredients.len() != other.known_ingredients.len() {
            proof {
                if self@ == other@ {
                    assert(self@.ingredients.len() == other@.ingredients.len());
                }
            }
            return false;
        }
        let n = self.known_ingredients.len();
        for i in 0..n
            invariant
                n == self.known_ingredients.len(),
                n == other.known_ingredients.len(),
                forall|j: int| 0 <= j < i ==> self@.ingredients[j] == other@.ingredients[j],
        {
            if !(self.known_ingredients[i] == other.known_ingredients[i]) {
                proof {
                    if self@ == other@ {
                        assert(self@.ingredients[i as int] == other@.ingredients[i as int]);
                    }
                }
                return false;
            }
            proof {
                assert(self@.ingredients[i as int] == self.known_ingredients@[i as int]@);
                assert(other@.ingredients[i as int] == other.known_ingredients@[i as int]@);
            }
        }
        if self.known_recipes.len() != other.known_recipes.len() {
            proof {
                if self@ == other@ {
                    assert(self@.recipes.len() == other@.recipes.len());
                }
            }
            return false;
        }
        let m = self.known_recipes.len();
        for i in 0..m
            invariant
                m == self.known_recipes.len(),
                m == other.known_recipes.len(),
                n == self.known_ingredients.len(),
                n == other.known_ingredients.len(),
                forall|j: int| 0 <= j < n ==> self@.ingredients[j] == other@.ingredients[j],
                forall|j: int| 0 <= j < i ==> self@.recipes[j] == other@.recipes[j],
        {
            let same = self.known_recipes[i].0 == other.known_recipes[i].0
                && self.known_recipes[i].1 == other.known_recipes[i].1;
            proof {
                assert(self@.recipes[i as int] == (self.known_recipes@[i as int].0@,
                self.known_recipes@[i as int].1@));
                assert(other@.recipes[i as int] == (other.known_recipes@[i as int].0@,
                other.known_recipes@[i as int].1@));
            }
            if !same {
                proof {
                    if self@ == other@ {
                        assert(self@.recipes[i as int] == other@.recipes[i as int]);
                    }
                }
                return false;
            }
        }
        proof {
            assert(self@.ingredients =~= other@.ingredients);
            assert(self@.recipes =~= other@.recipes);
        }
        true
    }
}

impl vstd::std_specs::cmp::PartialEqSpecImpl for RecipeDB {
    open spec fn obeys_eq_spec() -> bool {
        true
    }

    open spec fn eq_spec(&self, other: &RecipeDB) -> bool {
        self@ == other@
    }
}

impl Default for RecipeDB {
    fn default() -> (r: Self)
        ensures
            r.wf(),
            r@.ingredients == Seq::<Seq<char>>::empty(),
            r@.recipes == Seq::<(Seq<char>, RecipeModel)>::empty(),
    {
        RecipeDB::new()
    }
}

} // verus!
