use meal_plan::dish::Dish;
use meal_plan::plan::{Day, PlanDate, WeekPlan};
use meal_plan::types::{Ingredient, IngredientList};

// Helper to create test ingredients
fn make_ingredient(amount: f32, measure: &str, name: &str, dish: &str) -> Ingredient {
    Ingredient {
        amount_bits: amount.to_bits(),
        measure: measure.to_string(),
        name: name.to_string(),
        dish: dish.to_string(),
    }
}

fn amount(ingredient: &Ingredient) -> f32 {
    f32::from_bits(ingredient.amount_bits)
}

// A dish as it is loaded from a recipe file with the given ingredients
// (already scaled) and rendering.
fn make_dish(name: &str, people: usize, items: &[(f32, &str, &str)], markdown: &str) -> Dish {
    Dish {
        name: name.to_string(),
        people,
        ingredients: items
            .iter()
            .map(|(a, m, n)| make_ingredient(*a, m, n, name))
            .collect(),
        markdown: markdown.to_string(),
    }
}

fn butter_dish(name: &str) -> Dish {
    make_dish(name, 2, &[(100.0, "g", "Butter")], "")
}

#[test]
fn test_ingredient_list_add() {
    let list1 = IngredientList::from(vec![
        make_ingredient(100.0, "g", "Butter", "Dish1"),
        make_ingredient(200.0, "ml", "Milch", "Dish1"),
    ]);

    let list2 = IngredientList::from(vec![make_ingredient(50.0, "g", "Zucker", "Dish2")]);

    let combined = list1 + list2;
    assert_eq!(combined.0.len(), 3);
}

#[test]
fn test_ingredient_list_sum() {
    let lists = vec![
        IngredientList::from(vec![make_ingredient(100.0, "g", "Butter", "Dish1")]),
        IngredientList::from(vec![make_ingredient(200.0, "ml", "Milch", "Dish2")]),
        IngredientList::from(vec![make_ingredient(50.0, "g", "Zucker", "Dish3")]),
    ];

    let total: IngredientList = IngredientList::sum(lists);
    assert_eq!(total.0.len(), 3);
}

#[test]
fn test_ingredient_list_sum_empty() {
    let lists: Vec<IngredientList> = vec![];
    let total: IngredientList = IngredientList::sum(lists);
    assert_eq!(total.0.len(), 0);
}

#[test]
fn test_day_shopping_list_single_dish() {
    let dish = make_dish(
        "Test Dish",
        2,
        &[(100.0, "g", "Butter"), (200.0, "ml", "Milch")],
        "",
    );

    let day = Day {
        dishes: vec![dish],
        shopping_days: vec![],
    };

    let shopping_list = day.shopping_list();
    assert_eq!(shopping_list.0.len(), 2);
    assert_eq!(amount(&shopping_list.0[0]), 100.0);
    assert_eq!(shopping_list.0[0].name, "Butter");
    assert_eq!(amount(&shopping_list.0[1]), 200.0);
    assert_eq!(shopping_list.0[1].name, "Milch");
}

#[test]
fn test_day_shopping_list_multiple_dishes() {
    let dish1 = make_dish("Dish1", 2, &[(100.0, "g", "Butter"), (200.0, "ml", "Milch")], "");
    let dish2 = make_dish("Dish2", 2, &[(50.0, "g", "Zucker"), (3.0, "Stück", "Eier")], "");

    let day = Day {
        dishes: vec![dish1, dish2],
        shopping_days: vec![],
    };

    let shopping_list = day.shopping_list();
    assert_eq!(shopping_list.0.len(), 4);
}

#[test]
fn test_day_shopping_list_empty() {
    let day = Day {
        dishes: vec![],
        shopping_days: vec![],
    };
    let shopping_list = day.shopping_list();
    assert_eq!(shopping_list.0.len(), 0);
}

fn start() -> PlanDate {
    PlanDate { year: 2026, month: 1, day: 1 }
}

#[test]
fn test_weekplan_shopping_list() {
    let day1 = Day {
        dishes: vec![butter_dish("Dish1")],
        shopping_days: vec![],
    };
    let day2 = Day {
        dishes: vec![butter_dish("Dish2")],
        shopping_days: vec![],
    };

    let weekplan = WeekPlan {
        _start: start(),
        days: vec![day1, day2],
    };

    let shopping_list = weekplan.shopping_list();
    // Two dishes with same ingredient should result in 2 separate entries (before accumulation)
    assert_eq!(shopping_list.0.len(), 2);
}

#[test]
fn test_weekplan_shopping_lists_spans_multiple_days() {
    // Day 1: Dish1, Dish2
    // Day 2: Dish3, Shopping Marker, Dish4
    let day1 = Day {
        dishes: vec![butter_dish("Dish1"), butter_dish("Dish2")],
        shopping_days: vec![],
    };
    let day2 = Day {
        dishes: vec![butter_dish("Dish3"), butter_dish("Dish4")],
        shopping_days: vec![1], // Marker after Dish3
    };

    let weekplan = WeekPlan {
        _start: start(),
        days: vec![day1, day2],
    };

    let lists = weekplan.shopping_lists();
    assert_eq!(lists.len(), 2);

    // First list should contain Dish1, Dish2, Dish3 (spans day 1 and part of day 2)
    assert_eq!(lists[0].0.len(), 3);

    // Second list should contain Dish4 (after the marker)
    assert_eq!(lists[1].0.len(), 1);
}

#[test]
fn test_weekplan_shopping_lists_no_markers() {
    let day1 = Day {
        dishes: vec![butter_dish("Dish1")],
        shopping_days: vec![],
    };
    let day2 = Day {
        dishes: vec![butter_dish("Dish2")],
        shopping_days: vec![],
    };

    let weekplan = WeekPlan {
        _start: start(),
        days: vec![day1, day2],
    };

    let lists = weekplan.shopping_lists();
    assert_eq!(lists.len(), 1);
    // All dishes in one list
    assert_eq!(lists[0].0.len(), 2);
}

#[test]
fn test_weekplan_dishes_as_markdown() {
    let pasta = make_dish(
        "Pasta",
        4,
        &[(200.0, "g", "Butter"), (400.0, "ml", "Milch")],
        "## Pasta (4 Personen)\n\n## Zutaten\n- 200.0 g Butter\n- 400.0 ml Milch\n\n## Zubereitung\n1. Mix everything together.\n",
    );
    let salad = make_dish(
        "Salad",
        2,
        &[(100.0, "g", "Butter"), (200.0, "ml", "Milch")],
        "## Salad (2 Personen)\n\n## Zutaten\n- 100.0 g Butter\n- 200.0 ml Milch\n\n## Zubereitung\n1. Mix everything together.\n",
    );

    let day1 = Day {
        dishes: vec![pasta, salad],
        shopping_days: vec![],
    };

    let weekplan = WeekPlan {
        _start: start(),
        days: vec![day1],
    };

    let markdown = weekplan.dishes_as_markdown();

    assert!(markdown.contains("# Tag 1"));
    assert!(markdown.contains("## Pasta (4 Personen)"));
    assert!(markdown.contains("## Salad (2 Personen)"));
    assert!(markdown.contains("- 200.0 g Butter")); // Pasta scaled to 4
    assert!(markdown.contains("- 100.0 g Butter")); // Salad at 2
    assert!(markdown.contains("## Zubereitung"));
    assert!(markdown.contains("1. Mix everything together."));
}
