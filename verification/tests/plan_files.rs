use std::path::PathBuf;

use meal_plan::cookbook::CookBook;
use meal_plan::dish::Dish;
use meal_plan::loading::DishRequest;
use meal_plan::menu::{parse_plan, plan_start, MenuEntry};
use meal_plan::plan::{PlanDate, WeekPlan};
use meal_plan::types::Ingredient;

// The recipe of every test dish: "2 Personen", "- 100 g Butter". Loading it
// for `people` scales the amount by `people / 2`.
fn load(request: &DishRequest<PathBuf>) -> Option<Dish> {
    let amount = 100.0_f32 * request.people as f32 / 2.0;
    Some(Dish {
        name: request.name.clone(),
        people: request.people,
        ingredients: vec![Ingredient {
            amount_bits: amount.to_bits(),
            measure: "g".to_string(),
            name: "Butter".to_string(),
            dish: request.name.clone(),
        }],
        markdown: String::new(),
    })
}

fn cookbook(names: &[&str]) -> CookBook<PathBuf> {
    CookBook::from_file(
        names
            .iter()
            .map(|n| (n.to_string(), PathBuf::from(format!("cookbook/{}.txt", n))))
            .collect(),
    )
}

fn week_plan(menu_content: &str, book: &CookBook<PathBuf>) -> WeekPlan {
    let plan = parse_plan(menu_content);
    let loaded: Vec<Option<Dish>> = WeekPlan::dish_requests(&plan, book).iter().map(load).collect();
    WeekPlan::from_file(&plan, book, loaded)
}

fn first_amount(weekplan: &WeekPlan) -> f32 {
    let ingredients = weekplan.days[0].dishes[0].shopping_list();
    f32::from_bits(ingredients[0].amount_bits)
}

#[test]
fn test_weekplan_from_file_parses_persons() {
    let menu_content = r#"Personen: 4
Starttag: 2026-03-01
Montag: [[Test Dish]]
"#;
    let book = cookbook(&["Test Dish"]);
    let weekplan = week_plan(menu_content, &book);

    // Should have parsed the file successfully
    assert_eq!(weekplan.days.len(), 1);
    assert_eq!(weekplan.days[0].dishes.len(), 1);
    // Should have scaled to 4 people (2x the recipe)
    assert_eq!(first_amount(&weekplan), 200.0); // 100g * 2
}

#[test]
fn test_weekplan_from_file_parses_start_date() {
    let menu_content = r#"Personen: 2
Starttag: 2026-12-25
Montag: [[Test Dish]]
"#;
    let book = cookbook(&["Test Dish"]);
    let weekplan = week_plan(menu_content, &book);

    let start = weekplan._start;
    assert_eq!(
        chrono::NaiveDate::from_ymd_opt(start.year, start.month, start.day).unwrap(),
        chrono::NaiveDate::from_ymd_opt(2026, 12, 25).unwrap()
    );
}

#[test]
fn test_weekplan_from_file_multiple_dishes_per_day() {
    let menu_content = r#"Personen: 2
Starttag: 2026-01-01
Montag: [[Dish1]], [[Dish2]]
"#;
    let book = cookbook(&["Dish1", "Dish2"]);
    let weekplan = week_plan(menu_content, &book);

    assert_eq!(weekplan.days.len(), 1);
    assert_eq!(weekplan.days[0].dishes.len(), 2);
}

#[test]
fn test_weekplan_from_file_multiple_days() {
    let menu_content = r#"Personen: 2
Starttag: 2026-01-01
Montag: [[Dish1]]
Dienstag: [[Dish2]]
Mittwoch: [[Dish3]]
"#;
    let book = cookbook(&["Dish1", "Dish2", "Dish3"]);
    let weekplan = week_plan(menu_content, &book);

    assert_eq!(weekplan.days.len(), 3);
    assert_eq!(weekplan.days[0].dishes.len(), 1);
    assert_eq!(weekplan.days[1].dishes.len(), 1);
    assert_eq!(weekplan.days[2].dishes.len(), 1);
}

#[test]
fn test_weekplan_from_file_rest_day() {
    let menu_content = r#"Personen: 2
Starttag: 2026-01-01
Montag: [[Dish1]]
Dienstag: Reste
"#;
    let book = cookbook(&["Dish1"]);
    let weekplan = week_plan(menu_content, &book);

    assert_eq!(weekplan.days.len(), 2);
    assert_eq!(weekplan.days[0].dishes.len(), 1);
    assert_eq!(weekplan.days[1].dishes.len(), 0); // Rest day = no dishes
}

#[test]
fn test_weekplan_from_file_dish_with_count() {
    let menu_content = r#"Personen: 2
Starttag: 2026-01-01
Montag: [[Dish1]](4)
"#;
    let book = cookbook(&["Dish1"]);
    let weekplan = week_plan(menu_content, &book);

    assert_eq!(weekplan.days.len(), 1);
    assert_eq!(weekplan.days[0].dishes.len(), 1);
    // Should be scaled to 4 people (dish count override)
    assert_eq!(first_amount(&weekplan), 200.0); // 100g * 2
}

#[test]
fn test_weekplan_from_file_daycount() {
    let menu_content = r#"Personen: 2
Starttag: 2026-01-01
Montag(4): [[Dish1]]
"#;
    let book = cookbook(&["Dish1"]);
    let weekplan = week_plan(menu_content, &book);

    assert_eq!(weekplan.days.len(), 1);
    assert_eq!(weekplan.days[0].dishes.len(), 1);
    // Should be scaled to 4 people (dish count override)
    assert_eq!(first_amount(&weekplan), 200.0); // 100g * 2
}

#[test]
fn test_weekplan_from_file_daycount_complex() {
    let menu_content = r#"Personen: 2
Starttag: 2026-01-01
Montag(4): [[Dish1]](2)
"#;
    let book = cookbook(&["Dish1"]);
    let weekplan = week_plan(menu_content, &book);

    assert_eq!(weekplan.days.len(), 1);
    assert_eq!(weekplan.days[0].dishes.len(), 1);
    assert_eq!(first_amount(&weekplan), 100.0);
}

#[test]
fn shopping_marker_splits_the_day() {
    let menu_content = "Personen: 3\nMontag: [[A]], Einkauf, [[B]]\nDienstag: [[C]]\n";
    let book = cookbook(&["A", "B", "C"]);
    let weekplan = week_plan(menu_content, &book);
    assert_eq!(weekplan.days[0].shopping_days, vec![1]);
    let lists = weekplan.shopping_lists();
    assert_eq!(lists.len(), 2);
    assert_eq!(lists[0].0.len(), 1);
    assert_eq!(lists[0].0[0].dish, "A");
    assert_eq!(lists[1].0.len(), 2);
    assert_eq!(lists[1].0[0].dish, "B");
    assert_eq!(lists[1].0[1].dish, "C");
}

#[test]
fn unknown_and_failed_dishes_are_skipped() {
    let menu_content = "Montag: [[A]], [[Unbekannt]], Einkauf, [[B]]\n";
    let book = cookbook(&["A", "B"]);
    let plan = parse_plan(menu_content);
    let requests = WeekPlan::dish_requests(&plan, &book);
    assert_eq!(requests.len(), 2);
    assert_eq!(requests[0].name, "A");
    assert_eq!(requests[1].name, "B");
    assert_eq!(*requests[1].path, PathBuf::from("cookbook/B.txt"));
    // A fails to load: the marker then follows no dish.
    let loaded = vec![None, load(&requests[1])];
    let weekplan = WeekPlan::from_file(&plan, &book, loaded);
    assert_eq!(weekplan.days[0].dishes.len(), 1);
    assert_eq!(weekplan.days[0].dishes[0].name, "B");
    assert_eq!(weekplan.days[0].shopping_days, vec![0]);
}

#[test]
fn people_precedence() {
    let menu_content = "Montag: [[A]]\nPersonen: 5\nDienstag(3): [[A]], [[A]](x), [[A]](7)\nMittwoch(y): [[A]]\n";
    let plan = parse_plan(menu_content);
    let people: Vec<Vec<usize>> = plan
        .days
        .iter()
        .map(|d| {
            d.entries
                .iter()
                .map(|e| match e {
                    MenuEntry::Dish { people, .. } => *people,
                    MenuEntry::ShoppingMarker => 0,
                })
                .collect()
        })
        .collect();
    assert_eq!(people, vec![vec![1], vec![3, 1, 7], vec![5]]);
}

#[test]
fn invalid_lines_and_items_are_ignored() {
    let menu_content = "# Woche\n\nMontag: [[A]] extra, Pizza, [[B]]( 2 ), [[C]] (+4)\nohne Doppelpunkt\n: [[D]]\n";
    let plan = parse_plan(menu_content);
    assert_eq!(plan.days.len(), 1);
    let entries = &plan.days[0].entries;
    assert_eq!(entries.len(), 2);
    match &entries[0] {
        MenuEntry::Dish { name, people } => {
            assert_eq!(name, "B");
            assert_eq!(*people, 1);
        }
        MenuEntry::ShoppingMarker => panic!("expected a dish"),
    }
    match &entries[1] {
        MenuEntry::Dish { name, people } => {
            assert_eq!(name, "C");
            assert_eq!(*people, 4);
        }
        MenuEntry::ShoppingMarker => panic!("expected a dish"),
    }
}

#[test]
fn start_date_defaults() {
    assert_eq!(parse_plan("Montag: Reste").start, PlanDate { year: 2026, month: 1, day: 1 });
    assert_eq!(parse_plan("Starttag: 2026-02-30\n").start, PlanDate { year: 2026, month: 1, day: 1 });
    assert_eq!(parse_plan("Starttag:  2027-05-09  \r\n").start, PlanDate { year: 2027, month: 5, day: 9 });
    assert_eq!(plan_start(None), PlanDate { year: 2026, month: 1, day: 1 });
    assert_eq!(plan_start(Some((2030, 7, 14))), PlanDate { year: 2030, month: 7, day: 14 });
}

#[test]
fn persons_line_without_number_means_one() {
    let plan = parse_plan("Personen: viele\nMontag: [[A]]\n");
    match &plan.days[0].entries[0] {
        MenuEntry::Dish { people, .. } => assert_eq!(*people, 1),
        MenuEntry::ShoppingMarker => panic!("expected a dish"),
    }
    let plan = parse_plan("Personen: 99999999999999999999999\nMontag: [[A]]\n");
    match &plan.days[0].entries[0] {
        MenuEntry::Dish { people, .. } => assert_eq!(*people, 1),
        MenuEntry::ShoppingMarker => panic!("expected a dish"),
    }
}

#[test]
fn plans_from_files_partition_their_shopping() {
    let menu_content = "Personen: 2\nMontag: Einkauf, [[A]], Einkauf, Einkauf\nDienstag: [[B]], Einkauf, [[C]]\n";
    let book = cookbook(&["A", "B", "C"]);
    let weekplan = week_plan(menu_content, &book);
    let lists = weekplan.shopping_lists();
    let all: Vec<String> = lists.iter().flat_map(|l| l.0.iter().map(|i| i.dish.clone())).collect();
    let whole: Vec<String> = weekplan.shopping_list().0.iter().map(|i| i.dish.clone()).collect();
    assert_eq!(all, whole);
    assert_eq!(lists.len(), 3);
}

#[test]
fn every_day_line_makes_a_day() {
    let menu_content = "Montag: [[Unbekannt]]\nDienstag: Reste\nMittwoch:\nDonnerstag: [[A]]\n";
    let book = cookbook(&["A"]);
    let weekplan = week_plan(menu_content, &book);
    assert_eq!(weekplan.days.len(), 4);
    let counts: Vec<usize> = weekplan.days.iter().map(|d| d.dishes.len()).collect();
    assert_eq!(counts, vec![0, 0, 0, 1]);
}

#[test]
fn unicode_whitespace_is_trimmed() {
    let plan = parse_plan("\u{3000}Personen:\u{a0}3\u{2003}\nMontag:\u{2009}[[A]]\u{85}\n");
    match &plan.days[0].entries[0] {
        MenuEntry::Dish { name, people } => {
            assert_eq!(name, "A");
            assert_eq!(*people, 3);
        }
        MenuEntry::ShoppingMarker => panic!("expected a dish"),
    }
}
