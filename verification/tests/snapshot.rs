//! Snapshot interchange: the catalog survives a round trip through its
//! plain parts, and through a JSON text written and read back with
//! serde_json, field for field.

use rate_calc::calc::Calculator;
use rate_calc::data::{Ingredient, IngredientWithCount, Recipe, RecipeDB, SnapshotError};
use rate_calc::rat::Ratio;
use rate_calc::recipe_builder::RecipeBuilder;
use serde_json::{Number, Value};

fn ing(name: &str) -> Ingredient {
    Ingredient::new(name.to_string())
}

fn r(num: u64, den: u64) -> Ratio {
    Ratio::new(num, den)
}

fn sample_catalog() -> RecipeDB {
    let mut db = RecipeDB::new();
    for name in ["Log", "Plank", "Bed"] {
        db.add_known_ingredient(ing(name));
    }
    // Committed in alphabetical order of the produced name, so the storage
    // order survives a trip through serde_json's sorted object keys.
    let mut b = RecipeBuilder::new();
    b.change_output_ingredient(ing("Bed"));
    b.set_output_count(r(1, 1));
    b.set_craft_time(r(5, 2));
    b.add_blank_input();
    b.change_input_ingredient(0, ing("Plank"));
    b.set_input_count(0, r(3, 1));
    b.build_recipe(&mut db).unwrap();

    let mut b = RecipeBuilder::new();
    b.change_output_ingredient(ing("Plank"));
    b.set_output_count(r(1, 1));
    b.set_craft_time(r(2, 1));
    b.add_blank_input();
    b.change_input_ingredient(0, ing("Log"));
    b.set_input_count(0, r(2, 1));
    b.build_recipe(&mut db).unwrap();
    db
}

fn ratio_to_json(x: Ratio) -> Value {
    let mut m = serde_json::Map::new();
    m.insert("num".to_string(), Value::Number(Number::from(x.num())));
    m.insert("den".to_string(), Value::Number(Number::from(x.den())));
    Value::Object(m)
}

fn ratio_from_json(v: &Value) -> Ratio {
    let num = v.get("num").unwrap().as_u64().unwrap();
    let den = v.get("den").unwrap().as_u64().unwrap();
    Ratio::new(num, den)
}

/// The catalog as JSON text: ingredient names as bare strings, recipes as
/// `{craft_time, output_num, inputs: [{ing, count}]}` keyed by the produced
/// name, entries in storage order.
fn catalog_to_json(db: &RecipeDB) -> String {
    let mut root = serde_json::Map::new();
    let ings: Vec<Value> = db
        .known_ingredients()
        .iter()
        .map(|i| Value::String(i.name.clone()))
        .collect();
    root.insert("known_ingredients".to_string(), Value::Array(ings));
    let mut recipes = serde_json::Map::new();
    for (key, rec) in db.recipe_entries() {
        let mut body = serde_json::Map::new();
        body.insert("craft_time".to_string(), ratio_to_json(rec.craft_time));
        body.insert("output_num".to_string(), ratio_to_json(rec.output_num));
        let inputs: Vec<Value> = rec
            .inputs
            .iter()
            .map(|iwc| {
                let mut e = serde_json::Map::new();
                e.insert("ing".to_string(), Value::String(iwc.ing.name.clone()));
                e.insert("count".to_string(), ratio_to_json(iwc.count));
                Value::Object(e)
            })
            .collect();
        body.insert("inputs".to_string(), Value::Array(inputs));
        recipes.insert(key.name.clone(), Value::Object(body));
    }
    root.insert("known_recipes".to_string(), Value::Object(recipes));
    Value::Object(root).to_string()
}

fn catalog_from_json(text: &str) -> Result<RecipeDB, SnapshotError> {
    let root: Value = serde_json::from_str(text).unwrap();
    let ingredients: Vec<Ingredient> = root
        .get("known_ingredients")
        .unwrap()
        .as_array()
        .unwrap()
        .iter()
        .map(|v| Ingredient::new(v.as_str().unwrap().to_string()))
        .collect();
    let mut recipes: Vec<(Ingredient, Recipe)> = Vec::new();
    for (name, body) in root.get("known_recipes").unwrap().as_object().unwrap() {
        let inputs: Vec<IngredientWithCount> = body
            .get("inputs")
            .unwrap()
            .as_array()
            .unwrap()
            .iter()
            .map(|e| {
                IngredientWithCount::new(
                    Ingredient::new(e.get("ing").unwrap().as_str().unwrap().to_string()),
                    ratio_from_json(e.get("count").unwrap()),
                )
            })
            .collect();
        let rec = Recipe {
            craft_time: ratio_from_json(body.get("craft_time").unwrap()),
            output_num: ratio_from_json(body.get("output_num").unwrap()),
            inputs,
        };
        recipes.push((Ingredient::new(name.clone()), rec));
    }
    RecipeDB::from_parts(ingredients, recipes)
}

#[test]
fn parts_roundtrip_restores_catalog() {
    let db = sample_catalog();
    let ingredients: Vec<Ingredient> = db.known_ingredients().clone();
    let recipes: Vec<(Ingredient, Recipe)> = db.recipe_entries().clone();
    let rebuilt = RecipeDB::from_parts(ingredients, recipes).unwrap();
    assert!(rebuilt == db);
}

#[test]
fn json_roundtrip_restores_catalog() {
    let db = sample_catalog();
    let text = catalog_to_json(&db);
    let rebuilt = catalog_from_json(&text).unwrap();
    assert!(rebuilt == db);
    // And the rebuilt catalog answers queries identically.
    let calc = Calculator { output_rate: r(1, 1), output_ingredient: ing("Bed") };
    let a = calc.compute_aggregate_rates(&db).unwrap();
    let b = calc.compute_aggregate_rates(&rebuilt).unwrap();
    assert_eq!(a.len(), b.len());
    for (x, y) in a.iter().zip(b.iter()) {
        assert_eq!(x.0, y.0);
        assert_eq!(x.1, y.1);
        assert_eq!(x.2, y.2);
    }
}

#[test]
fn from_parts_rejects_bad_snapshots() {
    // Duplicate ingredient names.
    let e = RecipeDB::from_parts(vec![ing("A"), ing("A")], Vec::new()).unwrap_err();
    assert_eq!(e, SnapshotError::DuplicateIngredient);

    // Two recipes for the same output.
    let mk = || Recipe { craft_time: r(1, 1), output_num: r(1, 1), inputs: Vec::new() };
    let e = RecipeDB::from_parts(
        vec![ing("A")],
        vec![(ing("A"), mk()), (ing("A"), mk())],
    )
    .unwrap_err();
    assert_eq!(e, SnapshotError::DuplicateRecipe);

    // A quantity with a zero denominator denotes no rational.
    let bad = Recipe {
        craft_time: Ratio { num: 1, den: 0 },
        output_num: r(1, 1),
        inputs: Vec::new(),
    };
    let e = RecipeDB::from_parts(vec![ing("A")], vec![(ing("A"), bad)]).unwrap_err();
    assert_eq!(e, SnapshotError::InvalidQuantity);
}
