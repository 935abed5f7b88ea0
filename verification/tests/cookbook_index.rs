use meal_plan::cookbook::CookBook;

#[test]
fn get_finds_dishes_by_name() {
    let book = CookBook::from_file(vec![
        ("Pasta".to_string(), "a/Pasta.txt".to_string()),
        ("Salat".to_string(), "a/b/Salat.md".to_string()),
    ]);
    assert_eq!(book.get("Pasta"), Some(&"a/Pasta.txt".to_string()));
    assert_eq!(book.get("Salat"), Some(&"a/b/Salat.md".to_string()));
    assert_eq!(book.get("Suppe"), None);
    assert_eq!(book.get("pasta"), None);
}

#[test]
fn last_entry_of_a_name_wins() {
    let book = CookBook::from_file(vec![
        ("Pasta".to_string(), 1u32),
        ("Salat".to_string(), 2u32),
        ("Pasta".to_string(), 3u32),
    ]);
    assert_eq!(book.get("Pasta"), Some(&3));
    assert_eq!(book.get("Salat"), Some(&2));
}

#[test]
fn empty_cookbook_knows_nothing() {
    let book: CookBook<u32> = CookBook::from_file(vec![]);
    assert_eq!(book.get(""), None);
}
