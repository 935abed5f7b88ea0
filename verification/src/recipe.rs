//! The recipe file format, and its reader.
//!
//! A recipe file is read line by line; whitespace around a line does not
//! count.
//!
//! - The first line that ends with `Personen` gives, before that word, the
//!   number of people the recipe is written for.
//! - `## Zutaten` starts the ingredients: each line `- <amount> <measure>
//!   <name>` there is one ingredient (amount and measure end at the next
//!   space; the name is the rest of the line).
//! - `## Zubereitung` starts the preparation: each non-empty line there is
//!   one step.
//! - Any other line is ignored.
//!
//! The amounts are kept as text here; reading and scaling them is
//! floating point work for the program.

use vstd::prelude::*;
use crate::text::{
    chars_of, copy_range, ends_with, ends_with_chars, find, find_from, is_blank, lemma_find_is,
    lemma_trim_unchanged, same_chars, starts_with, starts_with_chars, string_from_chars, trim, trim_chars,
};

verus! {

/// One ingredient line of a recipe, as text.
pub struct RecipeItem {
    pub amount: String,
    pub measure: String,
    pub name: String,
}

impl View for RecipeItem {
    type V = (Seq<char>, Seq<char>, Seq<char>);

    open spec fn view(&self) -> (Seq<char>, Seq<char>, Seq<char>) {
        (self.amount@, self.measure@, self.name@)
    }
}

/// A recipe file as read.
pub struct Recipe {
    /// The people count text of the `Personen` line, if there is one.
    pub people: Option<String>,
    pub items: Vec<RecipeItem>,
    pub steps: Vec<String>,
}

/// The part of a recipe file a line is in.
pub enum Section {
    Head,
    Ingredients,
    Preparation,
}

/// What has been read of a recipe file so far.
pub struct RecipeState {
    pub people: Option<Seq<char>>,
    pub section: Section,
    pub items: Seq<(Seq<char>, Seq<char>, Seq<char>)>,
    pub steps: Seq<Seq<char>>,
}

/// A read recipe: its people count text, ingredients and steps.
pub struct RecipeView {
    pub people: Option<Seq<char>>,
    pub items: Seq<(Seq<char>, Seq<char>, Seq<char>)>,
    pub steps: Seq<Seq<char>>,
}

impl View for Recipe {
    type V = RecipeView;

    open spec fn view(&self) -> RecipeView {
        RecipeView {
            people: match self.people {
                Some(p) => Some(p@),
                None => None,
            },
            items: self.items@.map_values(|i: RecipeItem| i@),
            steps: self.steps@.map_values(|s: String| s@),
        }
    }
}

/// The word of the people line.
pub open spec fn people_word() -> Seq<char> {
    seq!['P', 'e', 'r', 's', 'o', 'n', 'e', 'n']
}

/// The heading of the ingredients.
pub open spec fn ingredients_heading() -> Seq<char> {
    seq!['#', '#', ' ', 'Z', 'u', 't', 'a', 't', 'e', 'n']
}

/// The heading of the preparation.
pub open spec fn preparation_heading() -> Seq<char> {
    seq!['#', '#', ' ', 'Z', 'u', 'b', 'e', 'r', 'e', 'i', 't', 'u', 'n', 'g']
}

/// What an ingredient line begins with.
pub open spec fn item_mark() -> Seq<char> {
    seq!['-', ' ']
}

/// The part of `s` after its first `c`; empty when there is none.
pub open spec fn after_first(s: Seq<char>, c: char) -> Seq<char> {
    let k = find(s, c);
    if 0 <= k < s.len() {
        s.skip(k + 1)
    } else {
        Seq::empty()
    }
}

/// Amount, measure and name of an ingredient line, after its `- `.
pub open spec fn item_fields(s: Seq<char>) -> (Seq<char>, Seq<char>, Seq<char>) {
    let after = after_first(s, ' ');
    (s.take(find(s, ' ')), after.take(find(after, ' ')), after_first(after, ' '))
}

/// What one line of a recipe file does to what has been read before it.
pub open spec fn recipe_line(st: RecipeState, line: Seq<char>) -> RecipeState {
    let t = trim(line);
    if st.people is None && ends_with(t, people_word()) {
        RecipeState { people: Some(trim(t.take(t.len() - 8))), ..st }
    } else if t == ingredients_heading() {
        RecipeState { section: Section::Ingredients, ..st }
    } else if t == preparation_heading() {
        RecipeState { section: Section::Preparation, ..st }
    } else if st.section is Ingredients && starts_with(t, item_mark()) {
        RecipeState { items: st.items.push(item_fields(t.skip(2))), ..st }
    } else if st.section is Preparation && t.len() > 0 {
        RecipeState { steps: st.steps.push(t), ..st }
    } else {
        st
    }
}

/// What the lines of `rest` do, one after the other, to `st`.
pub open spec fn recipe_lines(st: RecipeState, rest: Seq<char>) -> RecipeState
    decreases rest.len(),
{
    let k = find(rest, '\n');
    let next = recipe_line(st, rest.take(k));
    if 0 <= k < rest.len() {
        recipe_lines(next, rest.skip(k + 1))
    } else {
        next
    }
}

/// The recipe that a recipe file's text describes.
pub open spec fn read_recipe(text: Seq<char>) -> RecipeState {
    recipe_lines(
        RecipeState { people: None, section: Section::Head, items: Seq::empty(), steps: Seq::empty() },
        text,
    )
}


/// The part of `v` after its first `c`; empty when there is none.
fn after_first_chars(v: &Vec<char>, c: char) -> (r: Vec<char>)
    ensures
        r@ == after_first(v@, c),
{
    let k = find_from(v, 0, c);
    assert(v@.skip(0) =~= v@);
    if k < v.len() {
        let r = copy_range(v, k + 1, v.len());
        assert(r@ =~= v@.skip(k + 1));
        r
    } else {
        Vec::new()
    }
}

/// Splits an ingredient line, after its `- `, into amount, measure and name.
fn read_item_fields(v: &Vec<char>) -> (r: RecipeItem)
    ensures
        r@ == item_fields(v@),
{
    let k = find_from(v, 0, ' ');
    assert(v@.skip(0) =~= v@);
    let amount = copy_range(v, 0, k);
    assert(amount@ =~= v@.take(k as int));
    let after = after_first_chars(v, ' ');
    let j = find_from(&after, 0, ' ');
    assert(after@.skip(0) =~= after@);
    let measure = copy_range(&after, 0, j);
    assert(measure@ =~= after@.take(j as int));
    let name = after_first_chars(&after, ' ');
    RecipeItem {
        amount: string_from_chars(amount.as_slice()),
        measure: string_from_chars(measure.as_slice()),
        name: string_from_chars(name.as_slice()),
    }
}

/// The state of the recipe reader.
struct RecipeReader {
    people: Option<String>,
    section: Section,
    items: Vec<RecipeItem>,
    steps: Vec<String>,
}

impl View for RecipeReader {
    type V = RecipeState;

    closed spec fn view(&self) -> RecipeState {
        RecipeState {
            people: match self.people {
                Some(p) => Some(p@),
                None => None,
            },
            section: self.section,
            items: self.items@.map_values(|i: RecipeItem| i@),
            steps: self.steps@.map_values(|s: String| s@),
        }
    }
}

impl RecipeReader {
    /// Reads one line.
    fn read_line(&mut self, line: &Vec<char>)
        ensures
            final(self)@ == recipe_line(old(self)@, line@),
    {
        let t = trim_chars(line);
        let people = chars_of("Personen");
        let ingredients = chars_of("## Zutaten");
        let preparation = chars_of("## Zubereitung");
        let mark = chars_of("- ");
        proof {
            reveal_strlit("Personen");
            reveal_strlit("## Zutaten");
            reveal_strlit("## Zubereitung");
            reveal_strlit("- ");
            assert(people@ =~= people_word());
            assert(ingredients@ =~= ingredients_heading());
            assert(preparation@ =~= preparation_heading());
            assert(mark@ =~= item_mark());
        }
        let ghost before = self@;
        if self.people.is_none() && ends_with_chars(&t, &people) {
            let head = copy_range(&t, 0, t.len() - 8);
            assert(head@ =~= t@.take(t@.len() - 8));
            let count = trim_chars(&head);
            self.people = Some(string_from_chars(count.as_slice()));
        } else if same_chars(&t, &ingredients) {
            self.section = Section::Ingredients;
        } else if same_chars(&t, &preparation) {
            self.section = Section::Preparation;
        } else if matches!(self.section, Section::Ingredients) && starts_with_chars(&t, &mark) {
            let rest = copy_range(&t, 2, t.len());
            assert(rest@ =~= t@.skip(2));
            let item = read_item_fields(&rest);
            self.items.push(item);
            assert(self@.items =~= before.items.push(item_fields(t@.skip(2))));
        } else if matches!(self.section, Section::Preparation) && t.len() > 0 {
            let step = string_from_chars(t.as_slice());
            self.steps.push(step);
            assert(self@.steps =~= before.steps.push(t@));
        }
    }
}

/// Reads a recipe file's text.
pub fn parse_recipe(content: &str) -> (r: Recipe)
    ensures
        r@.people == read_recipe(content@).people,
        r@.items == read_recipe(content@).items,
        r@.steps == read_recipe(content@).steps,
{
    let text = chars_of(content);
    let mut reader = RecipeReader { people: None, section: Section::Head, items: Vec::new(), steps: Vec::new() };
    assert(reader@.items =~= Seq::<(Seq<char>, Seq<char>, Seq<char>)>::empty());
    assert(reader@.steps =~= Seq::<Seq<char>>::empty());
    let mut pos: usize = 0;
    assert(text@.skip(0) =~= text@);
    loop
        invariant
            pos <= text.len(),
            text@ == content@,
            recipe_lines(reader@, text@.skip(pos as int)) == read_recipe(content@),
        decreases text@.len() - pos,
    {
        let ghost rest = text@.skip(pos as int);
        let k = find_from(&text, pos, '\n');
        assert(pos + k <= text.len());
        let line = copy_range(&text, pos, pos + k);
        assert(line@ =~= rest.take(k as int));
        reader.read_line(&line);
        if pos + k < text.len() {
            assert(rest.skip(k + 1) =~= text@.skip(pos + k + 1));
            pos = pos + k + 1;
        } else {
            proof {
                assert(reader@.items == read_recipe(content@).items);
            }
            return Recipe { people: reader.people, items: reader.items, steps: reader.steps };
        }
    }
}


/// Splitting a written ingredient gives back its amount, measure and name,
/// where amount and measure hold no space.
pub proof fn law_item_fields_round_trip(a: Seq<char>, m: Seq<char>, n: Seq<char>)
    requires
        forall|i: int| 0 <= i < a.len() ==> a[i] != ' ',
        forall|i: int| 0 <= i < m.len() ==> m[i] != ' ',
    ensures
        item_fields(a + seq![' '] + m + seq![' '] + n) == (a, m, n),
{
    let s = a + seq![' '] + m + seq![' '] + n;
    lemma_find_is(s, ' ', a.len() as int);
    let after = s.skip(a.len() as int + 1);
    assert(after =~= m + seq![' '] + n);
    lemma_find_is(after, ' ', m.len() as int);
    assert(s.take(a.len() as int) =~= a);
    assert(after.take(m.len() as int) =~= m);
    assert(after.skip(m.len() as int + 1) =~= n);
}

/// In the ingredients, a line `- <amount> <measure> <name>` adds that
/// ingredient after those read before it.
pub proof fn law_ingredient_line(st: RecipeState, a: Seq<char>, m: Seq<char>, n: Seq<char>)
    requires
        st.section is Ingredients,
        st.people is Some,
        forall|i: int| 0 <= i < a.len() ==> a[i] != ' ',
        forall|i: int| 0 <= i < m.len() ==> m[i] != ' ',
        n.len() > 0,
        !is_blank(n.last()),
    ensures
        recipe_line(st, item_mark() + a + seq![' '] + m + seq![' '] + n).items == st.items.push((a, m, n)),
{
    let fields = a + seq![' '] + m + seq![' '] + n;
    let line = item_mark() + fields;
    assert(line =~= item_mark() + a + seq![' '] + m + seq![' '] + n);
    assert(line[0] == '-');
    assert(line.last() == n.last());
    lemma_trim_unchanged(line);
    assert(line != ingredients_heading()) by {
        assert(line[0] != ingredients_heading()[0]);
    }
    assert(line != preparation_heading()) by {
        assert(line[0] != preparation_heading()[0]);
    }
    assert(line.take(2) =~= item_mark());
    assert(line.skip(2) =~= fields);
    law_item_fields_round_trip(a, m, n);
}


/// Before any people count, a line `<count> Personen` gives the people
/// count text.
pub proof fn law_people_line(st: RecipeState, c: Seq<char>)
    requires
        st.people is None,
        c.len() > 0,
        !is_blank(c[0]),
        !is_blank(c.last()),
    ensures
        recipe_line(st, c + seq![' '] + people_word()).people == Some(c),
        recipe_line(st, c + seq![' '] + people_word()).items == st.items,
{
    let line = c + seq![' '] + people_word();
    assert(line[0] == c[0]);
    assert(line.last() == 'n');
    lemma_trim_unchanged(line);
    assert(line.skip(line.len() - 8) =~= people_word());
    let head = line.take(line.len() - 8);
    assert(head =~= c + seq![' ']);
    assert(head.drop_last() =~= c);
    assert(is_blank(head.last()));
    lemma_trim_unchanged(c);
}

} // verus!
