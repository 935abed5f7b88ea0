use meal_plan::dish::Dish;
use meal_plan::plan::{Day, PlanDate, WeekPlan};
use meal_plan::types::{Ingredient, IngredientList};

fn dish(name: &str, items: &[&str]) -> Dish {
    Dish {
        name: name.to_string(),
        people: 2,
        ingredients: items
            .iter()
            .map(|n| Ingredient {
                amount_bits: 1.0f32.to_bits(),
                measure: "g".to_string(),
                name: n.to_string(),
                dish: name.to_string(),
            })
            .collect(),
        markdown: format!("## {}", name),
    }
}

fn names(list: &IngredientList) -> Vec<String> {
    list.0.iter().map(|i| i.name.clone()).collect()
}

fn plan(days: Vec<Day>) -> WeekPlan {
    WeekPlan { _start: PlanDate { year: 2026, month: 1, day: 1 }, days }
}

#[test]
fn markdown_numbers_days_by_position() {
    let days = vec![
        Day { dishes: vec![], shopping_days: vec![] },
        Day { dishes: vec![dish("A", &["x"]), dish("B", &["y"])], shopping_days: vec![] },
    ];
    assert_eq!(plan(days).dishes_as_markdown(), "# Tag 2\n\n## A\n## B\n\n");
}

#[test]
fn markdown_of_many_days() {
    let mut days: Vec<Day> = (0..11).map(|_| Day { dishes: vec![], shopping_days: vec![] }).collect();
    days.push(Day { dishes: vec![dish("Z", &[])], shopping_days: vec![] });
    assert_eq!(plan(days).dishes_as_markdown(), "# Tag 12\n\n## Z\n\n");
    assert_eq!(plan(vec![]).dishes_as_markdown(), "");
}

#[test]
fn week_list_is_the_day_lists_in_order() {
    let day1 = Day { dishes: vec![dish("A", &["a1", "a2"])], shopping_days: vec![] };
    let day2 = Day { dishes: vec![dish("B", &[]), dish("C", &["c1"])], shopping_days: vec![] };
    let expected: Vec<String> = names(&day1.shopping_list()).into_iter().chain(names(&day2.shopping_list())).collect();
    let week = plan(vec![day1, day2]);
    assert_eq!(names(&week.shopping_list()), expected);
    assert_eq!(expected, vec!["a1", "a2", "c1"]);
}

#[test]
fn markers_at_start_and_repeated_give_no_empty_lists() {
    let day1 = Day { dishes: vec![dish("A", &["a"]), dish("B", &["b"])], shopping_days: vec![0, 0, 1, 2] };
    let lists = plan(vec![day1]).shopping_lists();
    assert_eq!(lists.len(), 2);
    assert_eq!(names(&lists[0]), vec!["a"]);
    assert_eq!(names(&lists[1]), vec!["b"]);
}

#[test]
fn plan_without_dishes_has_one_empty_list() {
    let lists = plan(vec![]).shopping_lists();
    assert_eq!(lists.len(), 1);
    assert_eq!(lists[0].0.len(), 0);
}

#[test]
fn markers_out_of_order_repeat_dishes() {
    // Markers that go back make the stretch after them start earlier.
    let day1 = Day {
        dishes: vec![dish("A", &["a"]), dish("B", &["b"]), dish("C", &["c"])],
        shopping_days: vec![2, 1],
    };
    let lists = plan(vec![day1]).shopping_lists();
    assert_eq!(lists.len(), 2);
    assert_eq!(names(&lists[0]), vec!["a", "b"]);
    assert_eq!(names(&lists[1]), vec!["b", "c"]);
}

#[test]
fn adding_lists_keeps_order() {
    let a = IngredientList::from(dish("A", &["1", "2"]).shopping_list());
    let b = IngredientList::from(dish("B", &["3"]).shopping_list());
    assert_eq!(names(&(a + b)), vec!["1", "2", "3"]);
    let sum = IngredientList::sum(vec![
        IngredientList::new(),
        IngredientList::from(dish("C", &["4"]).shopping_list()),
        IngredientList::from(dish("D", &["5", "6"]).shopping_list()),
    ]);
    assert_eq!(names(&sum), vec!["4", "5", "6"]);
}

#[test]
fn dish_copies_its_ingredients_and_markdown() {
    let d = dish("A", &["x", "y"]);
    let list = d.shopping_list();
    assert_eq!(list.len(), 2);
    assert_eq!(list[1].name, "y");
    assert_eq!(list[1].dish, "A");
    assert_eq!(f32::from_bits(list[1].amount_bits), 1.0);
    assert_eq!(d.as_markdown(), "## A");
}
