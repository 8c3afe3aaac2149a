//! End-to-end tests of the recipe graph engine: the rate propagator, the
//! aggregate accumulator, cycle detection and the builder.

use rate_calc::calc::{CalcError, Calculator};
use rate_calc::cycle::{is_acyclic, would_create_cycle};
use rate_calc::data::{Ingredient, RecipeDB};
use rate_calc::rat::Ratio;
use rate_calc::recipe_builder::{BuildError, RecipeBuilder};

fn ing(name: &str) -> Ingredient {
    Ingredient::new(name.to_string())
}

fn r(num: u64, den: u64) -> Ratio {
    Ratio::new(num, den)
}

fn as_f64(x: Ratio) -> f64 {
    x.num() as f64 / x.den() as f64
}

/// Commits the recipe `output (xN) <- inputs`, taking `craft_time` seconds
/// per cycle, and panics when the draft is invalid.
fn commit(db: &mut RecipeDB, output: &str, output_num: Ratio, craft: Ratio, inputs: &[(&str, Ratio)]) {
    let mut b = RecipeBuilder::new();
    b.change_output_ingredient(ing(output));
    b.set_output_count(output_num);
    b.set_craft_time(craft);
    for (i, (name, count)) in inputs.iter().enumerate() {
        b.add_blank_input();
        b.change_input_ingredient(i, ing(name));
        b.set_input_count(i, *count);
    }
    b.build_recipe(db).unwrap();
}

#[test]
fn raw_resource_has_no_demands() {
    // An ingredient without a recipe is a raw resource: zero producers and
    // no inputs, whatever the demanded rate.
    let mut db = RecipeDB::new();
    db.add_known_ingredient(ing("Ore"));
    for rate in [r(0, 1), r(1, 1), r(7, 3), r(u64::MAX, 2)] {
        let (producers, inputs) =
            Calculator::compute_required_rates(&ing("Ore"), rate, &db).unwrap();
        assert_eq!(producers.num(), 0);
        assert!(inputs.is_none());
    }
    // Even an ingredient the catalog has never heard of.
    let (producers, inputs) =
        Calculator::compute_required_rates(&ing("Unheard"), r(5, 1), &db).unwrap();
    assert_eq!(producers.num(), 0);
    assert!(inputs.is_none());
}

#[test]
fn single_step_formula() {
    // output_num = 2, craft_time = 3, input (A, 4); demanded rate 5:
    // cycles = 5/2, producers = 15/2, input rate = 4 * 5/2 = 10.
    let mut db = RecipeDB::new();
    db.add_known_ingredient(ing("A"));
    db.add_known_ingredient(ing("X"));
    commit(&mut db, "X", r(2, 1), r(3, 1), &[("A", r(4, 1))]);

    let (producers, inputs) =
        Calculator::compute_required_rates(&ing("X"), r(5, 1), &db).unwrap();
    assert_eq!(as_f64(producers), 7.5);
    let inputs = inputs.unwrap();
    assert_eq!(inputs.len(), 1);
    assert_eq!(inputs[0].0, ing("A"));
    assert_eq!(as_f64(inputs[0].1), 10.0);
}

#[test]
fn plank_scenario() {
    // Plank: craft_time 2.0, output_num 1, inputs [(Log, 2)].
    // compute_required_rates(Plank, 1.0) == (2.0, [(Log, 2.0)]).
    let mut db = RecipeDB::new();
    db.add_known_ingredient(ing("Log"));
    db.add_known_ingredient(ing("Plank"));
    commit(&mut db, "Plank", r(1, 1), r(2, 1), &[("Log", r(2, 1))]);

    let (producers, inputs) =
        Calculator::compute_required_rates(&ing("Plank"), r(1, 1), &db).unwrap();
    assert_eq!(as_f64(producers), 2.0);
    let inputs = inputs.unwrap();
    assert_eq!(inputs.len(), 1);
    assert_eq!(inputs[0].0, ing("Log"));
    assert_eq!(as_f64(inputs[0].1), 2.0);
}

#[test]
fn degenerate_recipe_is_an_error() {
    // A committed recipe with a zero yield cannot answer any rate query.
    let parts_ings = vec![ing("X"), ing("A")];
    let recipe = rate_calc::data::Recipe {
        craft_time: r(1, 1),
        output_num: Ratio::zero(),
        inputs: vec![rate_calc::data::IngredientWithCount::new(ing("A"), r(1, 1))],
    };
    let db = RecipeDB::from_parts(parts_ings, vec![(ing("X"), recipe)]).unwrap();
    let e = Calculator::compute_required_rates(&ing("X"), r(1, 1), &db).unwrap_err();
    assert_eq!(e, CalcError::DegenerateRecipe);
}

#[test]
fn overflow_is_an_error() {
    // producers = (u64::MAX / 1) * 3 does not fit a machine word.
    let mut db = RecipeDB::new();
    db.add_known_ingredient(ing("X"));
    db.add_known_ingredient(ing("A"));
    commit(&mut db, "X", r(1, 1), r(3, 1), &[("A", r(1, 1))]);
    let e = Calculator::compute_required_rates(&ing("X"), r(u64::MAX, 1), &db).unwrap_err();
    assert_eq!(e, CalcError::Overflow);
}

#[test]
fn cycle_detection_on_three_chain() {
    // B's recipe consumes A, C's recipe consumes B (a chain A <- B <- C).
    let mut db = RecipeDB::new();
    for name in ["A", "B", "C"] {
        db.add_known_ingredient(ing(name));
    }
    commit(&mut db, "B", r(1, 1), r(1, 1), &[("A", r(1, 1))]);
    commit(&mut db, "C", r(1, 1), r(1, 1), &[("B", r(1, 1))]);

    // C transitively consumes A, so a recipe for A taking C would cycle.
    assert!(would_create_cycle(&ing("A"), &ing("C"), &db));
    assert!(would_create_cycle(&ing("B"), &ing("C"), &db));
    // A has no recipe: it reaches nothing, so it is a legal input anywhere.
    assert!(!would_create_cycle(&ing("C"), &ing("A"), &db));
    // An ingredient always "reaches" itself.
    assert!(would_create_cycle(&ing("C"), &ing("C"), &db));
    assert!(is_acyclic(&db));
}

#[test]
fn aggregate_diamond_totals() {
    // Plank <- Wood + Stone; Tool <- Plank + Stone. The aggregated Stone
    // demand is the direct demand from Tool plus the demand routed through
    // Plank.
    let mut db = RecipeDB::new();
    for name in ["Wood", "Stone", "Plank", "Tool"] {
        db.add_known_ingredient(ing(name));
    }
    commit(&mut db, "Plank", r(1, 1), r(1, 1), &[("Wood", r(1, 1)), ("Stone", r(1, 1))]);
    commit(&mut db, "Tool", r(1, 1), r(1, 1), &[("Plank", r(1, 1)), ("Stone", r(3, 1))]);

    let calc = Calculator { output_rate: r(2, 1), output_ingredient: ing("Tool") };
    let rows = calc.compute_aggregate_rates(&db).unwrap();

    // Demands at Tool rate 2: Plank 2, Wood 2, Stone via Plank 2 plus
    // direct 6 = 8. The walk touches Stone last (Tool's second input), so
    // Stone sits at the back.
    let names: Vec<String> =
        rows.iter().map(|(i, _, _)| i.name.clone()).collect();
    assert_eq!(names, vec!["Tool", "Plank", "Wood", "Stone"]);

    let stone = rows.iter().find(|(i, _, _)| i.name == "Stone").unwrap();
    assert_eq!(as_f64(stone.2), 8.0);
    assert_eq!(as_f64(stone.1), 0.0); // raw resource: no producers
    let tool = &rows[0];
    assert_eq!(as_f64(tool.2), 2.0);
    assert_eq!(as_f64(tool.1), 2.0);
    let plank = &rows[1];
    assert_eq!(as_f64(plank.2), 2.0);
    assert_eq!(as_f64(plank.1), 2.0);
}

#[test]
fn expand_tree_structure() {
    let mut db = RecipeDB::new();
    for name in ["Log", "Plank", "Bed"] {
        db.add_known_ingredient(ing(name));
    }
    commit(&mut db, "Plank", r(1, 1), r(2, 1), &[("Log", r(2, 1))]);
    commit(&mut db, "Bed", r(1, 1), r(1, 1), &[("Plank", r(3, 1))]);

    let tree = Calculator::expand_tree(&ing("Bed"), r(1, 1), &db).unwrap();
    assert_eq!(tree.ing, ing("Bed"));
    assert_eq!(as_f64(tree.producers), 1.0);
    assert_eq!(tree.children.len(), 1);
    let plank = &tree.children[0];
    assert_eq!(plank.ing, ing("Plank"));
    assert_eq!(as_f64(plank.rate), 3.0);
    assert_eq!(as_f64(plank.producers), 6.0);
    assert_eq!(plank.children.len(), 1);
    let log = &plank.children[0];
    assert_eq!(log.ing, ing("Log"));
    assert_eq!(as_f64(log.rate), 6.0);
    assert_eq!(as_f64(log.producers), 0.0);
    assert_eq!(log.children.len(), 0);
}

#[test]
fn builder_rejects_self_cycle() {
    // A recipe for Plank whose inputs include Plank itself.
    let mut db = RecipeDB::new();
    db.add_known_ingredient(ing("Plank"));
    let mut b = RecipeBuilder::new();
    b.change_output_ingredient(ing("Plank"));
    b.set_output_count(r(1, 1));
    b.set_craft_time(r(1, 1));
    b.add_blank_input();
    // Direct calls can still force the output into a slot; the validation
    // must catch it.
    b.change_input_ingredient(0, ing("Plank"));
    b.set_input_count(0, r(2, 1));
    let before = db.recipe_entries().len();
    assert_eq!(b.build_recipe(&mut db), Err(BuildError::CyclicInput));
    assert_eq!(db.recipe_entries().len(), before);
}

#[test]
fn builder_rejects_duplicate_inputs() {
    // Two input slots both set to Log.
    let mut db = RecipeDB::new();
    db.add_known_ingredient(ing("Log"));
    db.add_known_ingredient(ing("Plank"));
    let mut b = RecipeBuilder::new();
    b.change_output_ingredient(ing("Plank"));
    b.set_output_count(r(1, 1));
    b.set_craft_time(r(1, 1));
    b.add_blank_input();
    b.change_input_ingredient(0, ing("Log"));
    b.set_input_count(0, r(1, 1));
    b.add_blank_input();
    b.change_input_ingredient(1, ing("Log"));
    b.set_input_count(1, r(1, 1));
    assert_eq!(b.build_recipe(&mut db), Err(BuildError::DuplicateInput));
    assert!(db.recipe_entries().is_empty());
}

#[test]
fn builder_rejects_unset_output_and_bad_counts() {
    let mut db = RecipeDB::new();
    db.add_known_ingredient(ing("Log"));

    // No output chosen at all.
    let b = RecipeBuilder::new();
    assert_eq!(b.build_recipe(&mut db), Err(BuildError::InvalidOutput));

    // Zero output quantity.
    let mut b = RecipeBuilder::new();
    b.change_output_ingredient(ing("Plank"));
    assert_eq!(b.build_recipe(&mut db), Err(BuildError::InvalidOutput));

    // An untouched (blank) input slot.
    let mut b = RecipeBuilder::new();
    b.change_output_ingredient(ing("Plank"));
    b.set_output_count(r(1, 1));
    b.add_blank_input();
    assert_eq!(b.build_recipe(&mut db), Err(BuildError::InvalidInput));

    // A quantity below one.
    let mut b = RecipeBuilder::new();
    b.change_output_ingredient(ing("Plank"));
    b.set_output_count(r(1, 1));
    b.add_blank_input();
    b.change_input_ingredient(0, ing("Log"));
    b.set_input_count(0, r(1, 2));
    assert_eq!(b.build_recipe(&mut db), Err(BuildError::InvalidInput));
}

#[test]
fn builder_commit_replaces_prior_recipe() {
    let mut db = RecipeDB::new();
    for name in ["Log", "Stone", "Plank"] {
        db.add_known_ingredient(ing(name));
    }
    commit(&mut db, "Plank", r(1, 1), r(2, 1), &[("Log", r(2, 1))]);
    commit(&mut db, "Plank", r(2, 1), r(4, 1), &[("Stone", r(1, 1))]);
    assert_eq!(db.recipe_entries().len(), 1);
    let rec = db.get_recipe(&ing("Plank")).unwrap();
    assert_eq!(as_f64(rec.craft_time), 4.0);
    assert_eq!(as_f64(rec.output_num), 2.0);
    assert_eq!(rec.inputs.len(), 1);
    assert_eq!(rec.inputs[0].ing, ing("Stone"));
}

#[test]
fn available_ingredients_recompute_and_idempotence() {
    // Candidates exclude reserved names and anything that reaches the
    // draft's output; recomputing twice without mutation changes nothing.
    let mut db = RecipeDB::new();
    for name in ["A", "B", "C", "D"] {
        db.add_known_ingredient(ing(name));
    }
    // C consumes B, B consumes A.
    commit(&mut db, "B", r(1, 1), r(1, 1), &[("A", r(1, 1))]);
    commit(&mut db, "C", r(1, 1), r(1, 1), &[("B", r(1, 1))]);

    let mut b = RecipeBuilder::new();
    b.change_output_ingredient(ing("A")); // B and C reach A; A is reserved as output
    b.add_blank_input();
    b.change_input_ingredient(0, ing("D")); // D now reserved
    b.recompute_available_ingredients(&db);
    let first: Vec<Ingredient> = b.available_ingredients().clone();
    assert!(first.is_empty());

    // Release D: it becomes the only legal candidate again.
    b.remove_input(0);
    b.recompute_available_ingredients(&db);
    let second: Vec<Ingredient> = b.available_ingredients().clone();
    assert_eq!(second, vec![ing("D")]);

    // Idempotence: a second recompute without mutation yields the same list.
    b.recompute_available_ingredients(&db);
    assert_eq!(b.available_ingredients(), &second);
}

#[test]
fn change_output_resets_matching_slot() {
    let mut db = RecipeDB::new();
    for name in ["Iron", "Coal"] {
        db.add_known_ingredient(ing(name));
    }
    let mut b = RecipeBuilder::new();
    b.change_output_ingredient(ing("Steel"));
    b.set_output_count(r(1, 1));
    b.add_blank_input();
    b.change_input_ingredient(0, ing("Iron"));
    b.set_input_count(0, r(2, 1));
    b.add_blank_input();
    b.change_input_ingredient(1, ing("Coal"));
    b.set_input_count(1, r(1, 1));

    // Choosing Iron as the new output empties the slot that held it,
    // keeping its quantity.
    b.change_output_ingredient(ing("Iron"));
    assert_eq!(b.num_inputs(), 2);
    let slot0 = b.get_input(0).unwrap();
    assert_eq!(slot0.ing, Ingredient::blank());
    assert_eq!(as_f64(slot0.count), 2.0);
    let slot1 = b.get_input(1).unwrap();
    assert_eq!(slot1.ing, ing("Coal"));
}

#[test]
fn builder_slot_editing() {
    let mut b = RecipeBuilder::new();
    assert_eq!(b.num_inputs(), 0);
    assert!(b.get_input(0).is_none());
    b.add_blank_input();
    b.add_blank_input();
    assert_eq!(b.num_inputs(), 2);
    b.change_input_ingredient(0, ing("A"));
    b.change_input_ingredient(1, ing("B"));
    *b.get_input_count_mut(0) = r(5, 1);
    assert_eq!(as_f64(b.get_input(0).unwrap().count), 5.0);
    // Removing slot 0 shifts slot 1 down.
    b.remove_input(0);
    assert_eq!(b.num_inputs(), 1);
    assert_eq!(b.get_input(0).unwrap().ing, ing("B"));
    // Out-of-range edits are no-ops.
    b.remove_input(7);
    b.change_input_ingredient(7, ing("C"));
    assert_eq!(b.num_inputs(), 1);
    assert_eq!(b.inputs().len(), 1);
}

#[test]
fn blank_name_is_a_raw_resource() {
    // The empty name is the "no selection" sentinel; queried, it simply has
    // no recipe.
    let db = RecipeDB::new();
    let (producers, inputs) =
        Calculator::compute_required_rates(&Ingredient::blank(), r(3, 1), &db).unwrap();
    assert_eq!(producers.num(), 0);
    assert!(inputs.is_none());
}

#[test]
fn cycle_detector_survives_a_cyclic_catalog() {
    // A hand-edited snapshot can smuggle in a cycle; the detector must
    // still terminate and report it, and the acyclicity check must fail.
    let mk = |out: &str, input: &str| {
        (
            ing(out),
            rate_calc::data::Recipe {
                craft_time: r(1, 1),
                output_num: r(1, 1),
                inputs: vec![rate_calc::data::IngredientWithCount::new(ing(input), r(1, 1))],
            },
        )
    };
    let db = RecipeDB::from_parts(
        vec![ing("A"), ing("B")],
        vec![mk("A", "B"), mk("B", "A")],
    )
    .unwrap();
    assert!(!is_acyclic(&db));
    assert!(would_create_cycle(&ing("A"), &ing("B"), &db));
    assert!(would_create_cycle(&ing("B"), &ing("A"), &db));
    // An uninvolved name still resolves.
    assert!(!would_create_cycle(&ing("C"), &ing("D"), &db));
}

#[test]
fn aggregate_of_raw_target() {
    let mut db = RecipeDB::new();
    db.add_known_ingredient(ing("Ore"));
    let calc = Calculator { output_rate: r(4, 3), output_ingredient: ing("Ore") };
    let rows = calc.compute_aggregate_rates(&db).unwrap();
    assert_eq!(rows.len(), 1);
    assert_eq!(rows[0].0, ing("Ore"));
    assert_eq!(rows[0].1.num(), 0);
    assert_eq!(as_f64(rows[0].2), 4.0 / 3.0);
}

#[test]
fn expand_tree_reports_degenerate_recipe() {
    let rec = rate_calc::data::Recipe {
        craft_time: r(1, 1),
        output_num: Ratio::zero(),
        inputs: Vec::new(),
    };
    let db = RecipeDB::from_parts(vec![ing("X")], vec![(ing("X"), rec)]).unwrap();
    let e = Calculator::expand_tree(&ing("X"), r(1, 1), &db).unwrap_err();
    assert_eq!(e, CalcError::DegenerateRecipe);
}

#[test]
fn known_ingredients_deduplicate() {
    let mut db = RecipeDB::new();
    db.add_known_ingredient(ing("Log"));
    db.add_known_ingredient(ing("Stone"));
    db.add_known_ingredient(ing("Log"));
    let names: Vec<String> =
        db.known_ingredients().iter().map(|i| i.name.clone()).collect();
    assert_eq!(names, vec!["Log", "Stone"]);
}
