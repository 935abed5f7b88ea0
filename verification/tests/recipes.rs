use meal_plan::recipe::parse_recipe;
use meal_plan::types::{Ingredient, IngredientList};

#[test]
fn recipe_file_is_read() {
    let content = "2 Personen\n\n## Zutaten\n- 100 g Butter\n- 200 ml Milch\n-  3\n\n## Zubereitung\n1. Mix everything together.\n\n2. Serve.\n";
    let recipe = parse_recipe(content);
    assert_eq!(recipe.people.as_deref(), Some("2"));
    let items: Vec<(&str, &str, &str)> = recipe
        .items
        .iter()
        .map(|i| (i.amount.as_str(), i.measure.as_str(), i.name.as_str()))
        .collect();
    assert_eq!(items, vec![("100", "g", "Butter"), ("200", "ml", "Milch"), ("", "3", "")]);
    assert_eq!(recipe.steps, vec!["1. Mix everything together.", "2. Serve."]);
}

#[test]
fn recipe_lines_outside_sections_are_ignored() {
    let content = "- 1 x Vorher\n4 Personen\n3 Personen\n## Zutaten\n- 2 Stück Eier mit Schale\nKommentar\n";
    let recipe = parse_recipe(content);
    assert_eq!(recipe.people.as_deref(), Some("4"));
    assert_eq!(recipe.items.len(), 1);
    assert_eq!(recipe.items[0].name, "Eier mit Schale");
    assert!(recipe.steps.is_empty());
    let empty = parse_recipe("");
    assert_eq!(empty.people, None);
    assert!(empty.items.is_empty());
}

fn ingredient(name: &str, measure: &str) -> Ingredient {
    Ingredient {
        amount_bits: 1.0f32.to_bits(),
        measure: measure.to_string(),
        name: name.to_string(),
        dish: "D".to_string(),
    }
}

#[test]
fn kinds_of_ingredients() {
    let list = IngredientList::from(vec![
        ingredient("Butter", "g"),
        ingredient("Milch", "ml"),
        ingredient("Butter", "g"),
        ingredient("Butter", "EL"),
        ingredient("Milch", "ml"),
    ]);
    assert_eq!(list.first_of_kind(), vec![0, 1, 0, 3, 1]);
    assert_eq!(IngredientList::new().first_of_kind(), Vec::<usize>::new());
}
