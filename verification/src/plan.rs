//! Days and week plans: shopping lists and the dish overview.

use vstd::prelude::*;
use crate::dish::Dish;
use crate::text::{decimal, decimal_chars, string_from_chars};
use crate::types::{Ingredient, IngredientList, concat_all};

verus! {

/// A calendar date, as year, month (1 to 12) and day of the month.
#[derive(Clone, Copy, Debug, PartialEq, Eq, Structural)]
pub struct PlanDate {
    pub year: i32,
    pub month: u32,
    pub day: u32,
}

/// A single day with multiple dishes.
pub struct Day {
    /// The dishes, in the order in which they are cooked.
    pub dishes: Vec<Dish>,
    /// Shopping markers: each is the number of this day's dishes that come
    /// before the shopping trip.
    pub shopping_days: Vec<usize>,
}

/// The week structure of a meal plan.
pub struct WeekPlan {
    /// Start date of the plan.
    pub _start: PlanDate,
    /// Consecutive list of days.
    pub days: Vec<Day>,
}

/// The ingredients of the dishes, dish after dish.
pub open spec fn dish_items(dishes: Seq<Dish>) -> Seq<Ingredient>
    decreases dishes.len(),
{
    if dishes.len() == 0 {
        Seq::empty()
    } else {
        dish_items(dishes.drop_last()) + dishes.last().ingredients@
    }
}

/// All dishes of the days, day after day.
pub open spec fn plan_dishes(days: Seq<Day>) -> Seq<Dish>
    decreases days.len(),
{
    if days.len() == 0 {
        Seq::empty()
    } else {
        plan_dishes(days.drop_last()) + days.last().dishes@
    }
}

/// The shopping markers of the days, as positions among all dishes of
/// the plan.
pub open spec fn plan_markers(days: Seq<Day>) -> Seq<int>
    decreases days.len(),
{
    if days.len() == 0 {
        Seq::empty()
    } else {
        let before = plan_dishes(days.drop_last()).len();
        plan_markers(days.drop_last()) + days.last().shopping_days@.map_values(|m: usize| before + m)
    }
}

/// The ingredients of two runs of dishes, one after the other, are those
/// of the joined run.
pub proof fn lemma_dish_items_concat(a: Seq<Dish>, b: Seq<Dish>)
    ensures
        dish_items(a + b) == dish_items(a) + dish_items(b),
    decreases b.len(),
{
    if b.len() == 0 {
        assert(a + b =~= a);
        assert(dish_items(a) + dish_items(b) =~= dish_items(a));
    } else {
        lemma_dish_items_concat(a, b.drop_last());
        assert((a + b).drop_last() =~= a + b.drop_last());
        assert((a + b).last() == b.last());
        assert(dish_items(a) + dish_items(b) =~= dish_items(a) + dish_items(b.drop_last()) + b.last().ingredients@);
    }
}

/// What one dish adds to a shopping list is all of its ingredients, in
/// order; with `lemma_dish_items_concat` this fixes the shopping list of
/// any run of dishes.
pub proof fn law_one_dish_items(d: Dish)
    ensures
        dish_items(seq![d]) == d.ingredients@,
        dish_items(Seq::<Dish>::empty()) == Seq::<Ingredient>::empty(),
{
    let one = seq![d];
    assert(one.drop_last() =~= Seq::<Dish>::empty());
    assert(one.last() == d);
    assert(dish_items(one) == dish_items(one.drop_last()) + one.last().ingredients@);
    assert(Seq::<Ingredient>::empty() + d.ingredients@ =~= d.ingredients@);
}

/// The shopping list of a run of dishes holds as many ingredients as the
/// dishes have together.
pub proof fn law_dish_items_count(a: Seq<Dish>, d: Dish)
    ensures
        dish_items(a.push(d)).len() == dish_items(a).len() + d.ingredients@.len(),
{
    lemma_dish_items_concat(a, seq![d]);
    law_one_dish_items(d);
    assert(a + seq![d] =~= a.push(d));
}

/// Cutting a run of dishes in two keeps its ingredients.
pub proof fn lemma_dish_items_split(s: Seq<Dish>, a: int, b: int, c: int)
    requires
        0 <= a <= b <= c <= s.len(),
    ensures
        dish_items(s.subrange(a, c)) == dish_items(s.subrange(a, b)) + dish_items(s.subrange(b, c)),
{
    assert(s.subrange(a, c) =~= s.subrange(a, b) + s.subrange(b, c));
    lemma_dish_items_concat(s.subrange(a, b), s.subrange(b, c));
}

/// Each day's shopping list, day after day.
pub open spec fn day_lists(days: Seq<Day>) -> Seq<Seq<Ingredient>> {
    Seq::new(days.len(), |i: int| dish_items(days[i].dishes@))
}

/// The shopping list of a plan is the shopping lists of its days, one
/// after the other.
pub proof fn law_week_list_is_day_lists(days: Seq<Day>)
    ensures
        dish_items(plan_dishes(days)) == concat_all(day_lists(days)),
    decreases days.len(),
{
    if days.len() > 0 {
        let shorter = days.drop_last();
        law_week_list_is_day_lists(shorter);
        assert(day_lists(days).drop_last() =~= day_lists(shorter));
        lemma_dish_items_concat(plan_dishes(shorter), days.last().dishes@);
    } else {
        assert(day_lists(days) =~= Seq::<Seq<Ingredient>>::empty());
    }
}

/// The heading of the `number`-th day in the dish overview.
pub open spec fn day_heading(number: nat) -> Seq<char> {
    seq!['#', ' ', 'T', 'a', 'g', ' '] + decimal(number) + seq!['\n', '\n']
}

/// The recipes of the dishes, each followed by an empty line.
pub open spec fn dishes_markdown(dishes: Seq<Dish>) -> Seq<char>
    decreases dishes.len(),
{
    if dishes.len() == 0 {
        Seq::empty()
    } else {
        dishes_markdown(dishes.drop_last()) + dishes.last().markdown@ + seq!['\n']
    }
}

/// The recipes of two runs of dishes, one after the other, are those of
/// the joined run.
pub proof fn law_recipes_concat(a: Seq<Dish>, b: Seq<Dish>)
    ensures
        dishes_markdown(a + b) == dishes_markdown(a) + dishes_markdown(b),
    decreases b.len(),
{
    if b.len() == 0 {
        assert(a + b =~= a);
        assert(dishes_markdown(a) + dishes_markdown(b) =~= dishes_markdown(a));
    } else {
        law_recipes_concat(a, b.drop_last());
        assert((a + b).drop_last() =~= a + b.drop_last());
        assert((a + b).last() == b.last());
        assert(dishes_markdown(a) + dishes_markdown(b) =~= dishes_markdown(a) + dishes_markdown(b.drop_last())
            + b.last().markdown@ + seq!['\n']);
    }
}

/// The recipe of one dish is its markdown and a line break.
pub proof fn law_one_recipe(x: Dish)
    ensures
        dishes_markdown(seq![x]) == x.markdown@ + seq!['\n'],
        dishes_markdown(Seq::<Dish>::empty()) == Seq::<char>::empty(),
{
    let one = seq![x];
    assert(one.drop_last() =~= Seq::<Dish>::empty());
    assert(one.last() == x);
    assert(dishes_markdown(one) == dishes_markdown(one.drop_last()) + one.last().markdown@ + seq!['\n']);
    assert(Seq::<char>::empty() + x.markdown@ + seq!['\n'] =~= x.markdown@ + seq!['\n']);
}

/// The overview of one day, the `number`-th of the plan: nothing for a day
/// without dishes.
pub open spec fn day_markdown(number: nat, day: Day) -> Seq<char> {
    if day.dishes@.len() == 0 {
        Seq::empty()
    } else {
        day_heading(number) + dishes_markdown(day.dishes@) + seq!['\n']
    }
}

/// The overview of all days, numbered from 1.
pub open spec fn plan_markdown(days: Seq<Day>) -> Seq<char>
    decreases days.len(),
{
    if days.len() == 0 {
        Seq::empty()
    } else {
        plan_markdown(days.drop_last()) + day_markdown(days.len() as nat, days.last())
    }
}

/// Where the stretch after the markers `ms` begins: at the last marker, or
/// at the first dish when there is none.
pub open spec fn last_cut(ms: Seq<int>) -> int {
    if ms.len() == 0 {
        0
    } else {
        ms.last()
    }
}

/// The stretches of dishes that the markers close, in order: from the
/// previous marker (or the first dish) up to each marker, where that
/// stretch holds at least one dish.
pub open spec fn marker_stretches(ms: Seq<int>) -> Seq<(int, int)>
    decreases ms.len(),
{
    if ms.len() == 0 {
        Seq::empty()
    } else {
        let from = last_cut(ms.drop_last());
        if ms.last() > from {
            marker_stretches(ms.drop_last()).push((from, ms.last()))
        } else {
            marker_stretches(ms.drop_last())
        }
    }
}

/// The stretches of the dishes `0..n` that the markers `ms` cut out, one
/// per shopping list: without markers the whole plan; otherwise the
/// stretches the markers close, then the dishes after the last marker if
/// there are any.
pub open spec fn shopping_stretches(ms: Seq<int>, n: int) -> Seq<(int, int)> {
    if ms.len() == 0 {
        seq![(0, n)]
    } else if last_cut(ms) < n {
        marker_stretches(ms).push((last_cut(ms), n))
    } else {
        marker_stretches(ms)
    }
}

/// Where there are markers, every shopping list is for at least one dish:
/// each stretch ends after it begins.
pub proof fn law_marker_stretches_nonempty(ms: Seq<int>, n: int)
    requires
        ms.len() > 0,
    ensures
        forall|k: int| 0 <= k < shopping_stretches(ms, n).len() ==>
            #[trigger] shopping_stretches(ms, n)[k].0 < shopping_stretches(ms, n)[k].1,
{
    lemma_marker_stretches_nonempty(ms);
}

proof fn lemma_marker_stretches_nonempty(ms: Seq<int>)
    ensures
        forall|k: int| 0 <= k < marker_stretches(ms).len() ==>
            #[trigger] marker_stretches(ms)[k].0 < marker_stretches(ms)[k].1,
    decreases ms.len(),
{
    if ms.len() > 0 {
        let shorter = ms.drop_last();
        lemma_marker_stretches_nonempty(shorter);
        let prev = marker_stretches(shorter);
        let from = last_cut(shorter);
        if ms.last() > from {
            assert forall|k: int| 0 <= k < prev.len() + 1 implies
                #[trigger] prev.push((from, ms.last()))[k].0 < prev.push((from, ms.last()))[k].1 by {
                if k < prev.len() {
                    assert(prev.push((from, ms.last()))[k] == prev[k]);
                }
            }
        }
    }
}

proof fn lemma_marker_stretches_chain(ms: Seq<int>)
    requires
        markers_ordered(ms),
        forall|k: int| 0 <= k < ms.len() ==> 0 <= #[trigger] ms[k],
    ensures
        ({
            let st = marker_stretches(ms);
            &&& st.len() == 0 ==> last_cut(ms) == 0
            &&& st.len() > 0 ==> st[0].0 == 0 && st.last().1 == last_cut(ms)
            &&& forall|k: int| 0 <= k < st.len() - 1 ==> #[trigger] st[k].1 == st[k + 1].0
        }),
    decreases ms.len(),
{
    if ms.len() > 0 {
        let shorter = ms.drop_last();
        assert forall|i: int, j: int| 0 <= i <= j < shorter.len() implies #[trigger] shorter[i] <= #[trigger] shorter[j] by {
            assert(ms[i] <= ms[j]);
        }
        assert forall|k: int| 0 <= k < shorter.len() implies 0 <= #[trigger] shorter[k] by {
            assert(ms[k] == shorter[k]);
        }
        lemma_marker_stretches_chain(shorter);
        let prev = marker_stretches(shorter);
        let from = last_cut(shorter);
        if shorter.len() > 0 {
            assert(ms[shorter.len() - 1] <= ms[ms.len() - 1]);
        }
        assert(0 <= ms[ms.len() - 1]);
        if ms.last() > from {
            let st = prev.push((from, ms.last()));
            assert forall|k: int| 0 <= k < st.len() - 1 implies #[trigger] st[k].1 == st[k + 1].0 by {
                if k < prev.len() - 1 {
                    assert(st[k] == prev[k] && st[k + 1] == prev[k + 1]);
                } else {
                    assert(st[k] == prev.last());
                }
            }
        }
    }
}

/// Some stretch ends at `v`.
pub open spec fn stretch_ends_at(st: Seq<(int, int)>, v: int) -> bool {
    exists|j: int| 0 <= j < st.len() && #[trigger] st[j].1 == v
}

/// `v` is one of the markers.
pub open spec fn is_marker_value(ms: Seq<int>, v: int) -> bool {
    exists|k: int| 0 <= k < ms.len() && #[trigger] ms[k] == v
}

#[verifier::rlimit(30)]
proof fn lemma_marker_stretches_ends(ms: Seq<int>)
    requires
        markers_ordered(ms),
        forall|k: int| 0 <= k < ms.len() ==> 0 <= #[trigger] ms[k],
    ensures
        forall|j: int| 0 <= j < marker_stretches(ms).len() ==> is_marker_value(ms, #[trigger] marker_stretches(ms)[j].1),
        forall|k: int| 0 <= k < ms.len() && #[trigger] ms[k] > 0 ==> stretch_ends_at(marker_stretches(ms), ms[k]),
    decreases ms.len(),
{
    if ms.len() > 0 {
        let shorter = ms.drop_last();
        assert forall|i: int, j: int| 0 <= i <= j < shorter.len() implies #[trigger] shorter[i] <= #[trigger] shorter[j] by {
            assert(ms[i] <= ms[j]);
        }
        assert forall|k: int| 0 <= k < shorter.len() implies 0 <= #[trigger] shorter[k] by {
            assert(ms[k] == shorter[k]);
        }
        lemma_marker_stretches_ends(shorter);
        let prev = marker_stretches(shorter);
        let st = marker_stretches(ms);
        let from = last_cut(shorter);
        let m = ms.last();
        if shorter.len() > 0 {
            assert(ms[shorter.len() - 1] <= ms[ms.len() - 1]);
        }
        assert(st.len() >= prev.len());
        assert(forall|j: int| 0 <= j < prev.len() ==> st[j] == prev[j]);
        assert forall|j: int| 0 <= j < st.len() implies is_marker_value(ms, #[trigger] st[j].1) by {
            if j < prev.len() {
                assert(is_marker_value(shorter, prev[j].1));
                let k = choose|k: int| 0 <= k < shorter.len() && #[trigger] shorter[k] == prev[j].1;
                assert(ms[k] == shorter[k]);
            } else {
                assert(ms[ms.len() - 1] == st[j].1);
            }
        }
        assert forall|k: int| 0 <= k < ms.len() && #[trigger] ms[k] > 0 implies stretch_ends_at(st, ms[k]) by {
            if k < shorter.len() {
                assert(shorter[k] == ms[k]);
                assert(stretch_ends_at(prev, shorter[k]));
                let j = choose|j: int| 0 <= j < prev.len() && #[trigger] prev[j].1 == shorter[k];
                assert(st[j] == prev[j]);
            } else if m > from {
                assert(st[prev.len() as int].1 == ms[k]);
            } else {
                assert(shorter.len() > 0);
                let l = shorter.len() - 1;
                assert(shorter[l] == ms[k]);
                assert(stretch_ends_at(prev, shorter[l]));
                let j = choose|j: int| 0 <= j < prev.len() && #[trigger] prev[j].1 == shorter[l];
                assert(st[j] == prev[j]);
            }
        }
    }
}

/// With markers in order, a new shopping list starts exactly at the
/// markers: every marker between the first and the last dish ends a list,
/// and every list ends at a marker or at the last dish.
pub proof fn law_lists_split_at_markers(ms: Seq<int>, n: int)
    requires
        markers_ordered(ms),
        forall|k: int| 0 <= k < ms.len() ==> 0 <= #[trigger] ms[k] <= n,
    ensures
        forall|k: int| 0 <= k < ms.len() && 0 < #[trigger] ms[k] < n ==> stretch_ends_at(shopping_stretches(ms, n), ms[k]),
        forall|j: int| 0 <= j < shopping_stretches(ms, n).len() ==>
            #[trigger] shopping_stretches(ms, n)[j].1 == n || is_marker_value(ms, shopping_stretches(ms, n)[j].1),
{
    if ms.len() > 0 {
        lemma_marker_stretches_ends(ms);
        let prev = marker_stretches(ms);
        let st = shopping_stretches(ms, n);
        assert(forall|j: int| 0 <= j < prev.len() ==> st[j] == prev[j]);
        assert forall|k: int| 0 <= k < ms.len() && 0 < #[trigger] ms[k] < n implies stretch_ends_at(st, ms[k]) by {
            assert(stretch_ends_at(prev, ms[k]));
            let j = choose|j: int| 0 <= j < prev.len() && #[trigger] prev[j].1 == ms[k];
            assert(st[j] == prev[j]);
        }
        assert forall|j: int| 0 <= j < st.len() implies #[trigger] st[j].1 == n || is_marker_value(ms, st[j].1) by {
            if j < prev.len() {
                assert(is_marker_value(ms, prev[j].1));
            }
        }
    }
}

/// With markers in order, the shopping lists follow each other without gap
/// or overlap: the first begins at the first dish, each begins where the
/// one before it ends, and the last ends at the last dish.
pub proof fn law_stretches_follow_each_other(ms: Seq<int>, n: int)
    requires
        ms.len() > 0,
        markers_ordered(ms),
        forall|k: int| 0 <= k < ms.len() ==> 0 <= #[trigger] ms[k] <= n,
    ensures
        ({
            let st = shopping_stretches(ms, n);
            &&& st.len() > 0 ==> st[0].0 == 0 && st.last().1 == n
            &&& forall|k: int| 0 <= k < st.len() - 1 ==> #[trigger] st[k].1 == st[k + 1].0
        }),
{
    lemma_marker_stretches_chain(ms);
    let prev = marker_stretches(ms);
    let c = last_cut(ms);
    assert(0 <= c <= n) by {
        assert(ms[ms.len() - 1] <= n);
    }
    if c < n {
        let st = prev.push((c, n));
        assert forall|k: int| 0 <= k < st.len() - 1 implies #[trigger] st[k].1 == st[k + 1].0 by {
            if k < prev.len() - 1 {
                assert(st[k] == prev[k] && st[k + 1] == prev[k + 1]);
            } else {
                assert(st[k] == prev.last());
            }
        }
    }
}

/// For each stretch `(from, to)`, the ingredients of the dishes
/// `dishes[from..to]`.
pub open spec fn stretch_lists(dishes: Seq<Dish>, stretches: Seq<(int, int)>) -> Seq<Seq<Ingredient>>
    decreases stretches.len(),
{
    if stretches.len() == 0 {
        Seq::empty()
    } else {
        let r = stretches.last();
        stretch_lists(dishes, stretches.drop_last()).push(dish_items(dishes.subrange(r.0, r.1)))
    }
}

proof fn lemma_stretch_lists_push(dishes: Seq<Dish>, stretches: Seq<(int, int)>, r: (int, int))
    ensures
        stretch_lists(dishes, stretches.push(r))
            == stretch_lists(dishes, stretches).push(dish_items(dishes.subrange(r.0, r.1))),
{
    assert(stretches.push(r).drop_last() =~= stretches);
}

proof fn lemma_single_stretch(dishes: Seq<Dish>, n: int)
    ensures
        stretch_lists(dishes, seq![(0, n)]) == seq![dish_items(dishes.subrange(0, n))],
        concat_all(seq![dish_items(dishes.subrange(0, n))]) == dish_items(dishes.subrange(0, n)),
{
    let x = dish_items(dishes.subrange(0, n));
    assert(seq![(0, n)] =~= Seq::<(int, int)>::empty().push((0, n)));
    lemma_stretch_lists_push(dishes, Seq::<(int, int)>::empty(), (0, n));
    assert(stretch_lists(dishes, Seq::<(int, int)>::empty()) =~= Seq::<Seq<Ingredient>>::empty());
    assert(seq![x] =~= Seq::<Seq<Ingredient>>::empty().push(x));
    assert(seq![x].drop_last() =~= Seq::<Seq<Ingredient>>::empty());
    assert(concat_all(seq![x]) =~= concat_all(Seq::<Seq<Ingredient>>::empty()) + x);
}

/// The shopping lists of a plan: one per stretch, holding the ingredients
/// of the stretch's dishes.
pub open spec fn plan_shopping_lists(days: Seq<Day>) -> Seq<Seq<Ingredient>> {
    let dishes = plan_dishes(days);
    stretch_lists(dishes, shopping_stretches(plan_markers(days), dishes.len() as int))
}

/// A plan whose markers all lie among its dishes, and whose dishes can be
/// counted in a `usize`.
pub open spec fn markers_in_range(days: Seq<Day>) -> bool {
    &&& plan_dishes(days).len() <= usize::MAX
    &&& forall|k: int| 0 <= k < plan_markers(days).len() ==> #[trigger] plan_markers(days)[k] <= plan_dishes(days).len()
}

/// The dishes and markers of the first days lead those of the whole plan.
pub proof fn lemma_plan_prefix(days: Seq<Day>, d: int)
    requires
        0 <= d <= days.len(),
    ensures
        plan_dishes(days.take(d)).len() <= plan_dishes(days).len(),
        plan_dishes(days.take(d)) == plan_dishes(days).take(plan_dishes(days.take(d)).len() as int),
        plan_markers(days.take(d)).len() <= plan_markers(days).len(),
        plan_markers(days.take(d)) == plan_markers(days).take(plan_markers(days.take(d)).len() as int),
    decreases days.len() - d,
{
    if d == days.len() {
        assert(days.take(d) =~= days);
        assert(plan_dishes(days).take(plan_dishes(days).len() as int) =~= plan_dishes(days));
        assert(plan_markers(days).take(plan_markers(days).len() as int) =~= plan_markers(days));
    } else {
        let shorter = days.drop_last();
        lemma_plan_prefix(shorter, d);
        assert(shorter.take(d) =~= days.take(d));
        let a = plan_dishes(days.take(d));
        let b = plan_markers(days.take(d));
        assert(plan_dishes(days).take(a.len() as int) =~= plan_dishes(shorter).take(a.len() as int));
        assert(plan_markers(days).take(b.len() as int) =~= plan_markers(shorter).take(b.len() as int));
    }
}

/// Markers that never go back: each lies at or after the one before.
pub open spec fn markers_ordered(ms: Seq<int>) -> bool {
    forall|i: int, j: int| 0 <= i <= j < ms.len() ==> #[trigger] ms[i] <= #[trigger] ms[j]
}

proof fn lemma_marker_stretches_cover(ms: Seq<int>, dishes: Seq<Dish>)
    requires
        markers_ordered(ms),
        forall|k: int| 0 <= k < ms.len() ==> 0 <= #[trigger] ms[k] <= dishes.len(),
    ensures
        0 <= last_cut(ms) <= dishes.len(),
        concat_all(stretch_lists(dishes, marker_stretches(ms))) == dish_items(dishes.subrange(0, last_cut(ms))),
    decreases ms.len(),
{
    if ms.len() == 0 {
        assert(dishes.subrange(0, 0) =~= Seq::<Dish>::empty());
    } else {
        let shorter = ms.drop_last();
        assert forall|i: int, j: int| 0 <= i <= j < shorter.len() implies #[trigger] shorter[i] <= #[trigger] shorter[j] by {
            assert(ms[i] <= ms[j]);
        }
        assert forall|k: int| 0 <= k < shorter.len() implies 0 <= #[trigger] shorter[k] <= dishes.len() by {
            assert(ms[k] == shorter[k]);
        }
        lemma_marker_stretches_cover(shorter, dishes);
        let from = last_cut(shorter);
        let m = ms.last();
        if shorter.len() > 0 {
            assert(ms[shorter.len() - 1] <= ms[ms.len() - 1]);
        }
        assert(from <= m);
        if m > from {
            let done = marker_stretches(shorter);
            lemma_stretch_lists_push(dishes, done, (from, m));
            let lists = stretch_lists(dishes, done);
            let x = dish_items(dishes.subrange(from, m));
            assert(lists.push(x).drop_last() =~= lists);
            lemma_dish_items_split(dishes, 0, from, m);
        }
    }
}

/// The shopping lists of a plan whose markers are in order and lie among
/// its dishes, read one after the other, hold exactly the ingredients of
/// the plan's single shopping list, in the same order: every dish is
/// shopped for once.
pub proof fn law_shopping_lists_partition(days: Seq<Day>)
    requires
        markers_in_range(days),
        markers_ordered(plan_markers(days)),
    ensures
        concat_all(plan_shopping_lists(days)) == dish_items(plan_dishes(days)),
{
    let dishes = plan_dishes(days);
    let ms = plan_markers(days);
    let n = dishes.len() as int;
    assert(dishes.subrange(0, n) =~= dishes);
    if ms.len() == 0 {
        lemma_single_stretch(dishes, n);
    } else {
        assert forall|k: int| 0 <= k < ms.len() implies 0 <= #[trigger] ms[k] <= dishes.len() by {
            assert(ms[k] <= plan_dishes(days).len());
            lemma_plan_markers_nonnegative(days, k);
        }
        lemma_marker_stretches_cover(ms, dishes);
        let done = marker_stretches(ms);
        if last_cut(ms) < n {
            lemma_stretch_lists_push(dishes, done, (last_cut(ms), n));
            let lists = stretch_lists(dishes, done);
            let x = dish_items(dishes.subrange(last_cut(ms), n));
            assert(lists.push(x).drop_last() =~= lists);
            lemma_dish_items_split(dishes, 0, last_cut(ms), n);
        }
    }
}

/// A day whose shopping markers are in order and lie among its dishes.
pub open spec fn day_markers_ok(day: Day) -> bool {
    &&& forall|k: int| 0 <= k < day.shopping_days@.len() ==> #[trigger] day.shopping_days@[k] <= day.dishes@.len()
    &&& forall|i: int, j: int| 0 <= i <= j < day.shopping_days@.len()
        ==> #[trigger] day.shopping_days@[i] <= #[trigger] day.shopping_days@[j]
}

/// When every day's markers are in order and lie among that day's dishes,
/// the plan's markers are in order and lie among the plan's dishes.
pub proof fn lemma_days_markers_ok(days: Seq<Day>)
    requires
        forall|i: int| 0 <= i < days.len() ==> day_markers_ok(#[trigger] days[i]),
    ensures
        markers_ordered(plan_markers(days)),
        forall|k: int| 0 <= k < plan_markers(days).len() ==>
            0 <= #[trigger] plan_markers(days)[k] <= plan_dishes(days).len(),
    decreases days.len(),
{
    if days.len() > 0 {
        let shorter = days.drop_last();
        assert forall|i: int| 0 <= i < shorter.len() implies day_markers_ok(#[trigger] shorter[i]) by {
            assert(shorter[i] == days[i]);
        }
        lemma_days_markers_ok(shorter);
        let last = days.last();
        assert(day_markers_ok(days[days.len() - 1]));
        let before = plan_dishes(shorter).len();
        let a = plan_markers(shorter);
        let b = last.shopping_days@.map_values(|m: usize| before + m);
        let ms = plan_markers(days);
        assert(ms == a + b);
        assert(plan_dishes(days).len() == before + last.dishes@.len());
        assert forall|k: int| 0 <= k < ms.len() implies 0 <= #[trigger] ms[k] <= plan_dishes(days).len() by {
            if k >= a.len() {
                assert(ms[k] == before + last.shopping_days@[k - a.len()]);
            }
        }
        assert forall|i: int, j: int| 0 <= i <= j < ms.len() implies #[trigger] ms[i] <= #[trigger] ms[j] by {
            if j < a.len() {
                assert(a[i] <= a[j]);
            } else if i < a.len() {
                assert(ms[j] == before + last.shopping_days@[j - a.len()]);
                assert(a[i] <= before);
            } else {
                assert(ms[i] == before + last.shopping_days@[i - a.len()]);
                assert(ms[j] == before + last.shopping_days@[j - a.len()]);
                assert(last.shopping_days@[i - a.len()] <= last.shopping_days@[j - a.len()]);
            }
        }
    }
}

/// When every day's shopping markers are in order and lie among that day's
/// dishes, `shopping_lists` may be called on the plan (nothing panics), and
/// its lists, read one after the other, are exactly the plan's shopping
/// list: no ingredient is lost, repeated or moved.
pub proof fn law_ordered_days_partition(days: Seq<Day>)
    requires
        forall|i: int| 0 <= i < days.len() ==> day_markers_ok(#[trigger] days[i]),
        plan_dishes(days).len() <= usize::MAX,
    ensures
        markers_in_range(days),
        concat_all(plan_shopping_lists(days)) == dish_items(plan_dishes(days)),
{
    lemma_days_markers_ok(days);
    law_shopping_lists_partition(days);
}

proof fn lemma_plan_markers_nonnegative(days: Seq<Day>, k: int)
    requires
        0 <= k < plan_markers(days).len(),
    ensures
        0 <= plan_markers(days)[k],
    decreases days.len(),
{
    let shorter = days.drop_last();
    if k < plan_markers(shorter).len() {
        lemma_plan_markers_nonnegative(shorter, k);
    }
}

/// Gathers the ingredients of the dishes `all[from..to]`.
fn stretch_list(all: &Vec<&Dish>, from: usize, to: usize, Ghost(dishes): Ghost<Seq<Dish>>) -> (r: IngredientList)
    requires
        from <= to <= all@.len(),
        all@.len() == dishes.len(),
        forall|k: int| 0 <= k < all@.len() ==> *#[trigger] all@[k] == dishes[k],
    ensures
        r@ == dish_items(dishes.subrange(from as int, to as int)),
{
    let mut acc = IngredientList::new();
    let mut k = from;
    assert(dishes.subrange(from as int, from as int) =~= Seq::<Dish>::empty());
    while k < to
        invariant
            from <= k <= to <= all@.len(),
            all@.len() == dishes.len(),
            forall|i: int| 0 <= i < all@.len() ==> *#[trigger] all@[i] == dishes[i],
            acc@ == dish_items(dishes.subrange(from as int, k as int)),
        decreases to - k,
    {
        proof {
            assert(dishes.subrange(from as int, k + 1).drop_last() =~= dishes.subrange(from as int, k as int));
            assert(dishes.subrange(from as int, k + 1).last() == dishes[k as int]);
        }
        let dish: &Dish = all[k];
        acc = acc.append_list(IngredientList::from(dish.shopping_list()));
        k = k + 1;
    }
    acc
}

/// Adding days to a plan never changes what the earlier days wrote: the
/// overview of `a` begins the overview of `a + b`.
pub proof fn law_markdown_prefix(a: Seq<Day>, b: Seq<Day>)
    ensures
        plan_markdown(a).len() <= plan_markdown(a + b).len(),
        plan_markdown(a + b).take(plan_markdown(a).len() as int) == plan_markdown(a),
    decreases b.len(),
{
    if b.len() == 0 {
        assert(a + b =~= a);
        assert(plan_markdown(a).take(plan_markdown(a).len() as int) =~= plan_markdown(a));
    } else {
        law_markdown_prefix(a, b.drop_last());
        assert((a + b).drop_last() =~= a + b.drop_last());
        let p = plan_markdown(a + b.drop_last());
        let q = plan_markdown(a + b);
        assert(q.take(p.len() as int) =~= p);
        assert(q.take(plan_markdown(a).len() as int) =~= p.take(plan_markdown(a).len() as int));
    }
}

/// A day without dishes adds nothing to the overview.
pub proof fn law_markdown_empty_day(days: Seq<Day>, d: Day)
    requires
        d.dishes@.len() == 0,
    ensures
        plan_markdown(days.push(d)) == plan_markdown(days),
{
    assert(days.push(d).drop_last() =~= days);
    assert(plan_markdown(days) + Seq::<char>::empty() =~= plan_markdown(days));
}

/// A day with dishes, the `n`-th of the plan, adds `# Tag n`, an empty
/// line, its recipes in order, and an empty line, behind what the days
/// before it wrote.
pub proof fn law_markdown_day_section(days: Seq<Day>, d: Day)
    requires
        d.dishes@.len() > 0,
    ensures
        plan_markdown(days.push(d)) == plan_markdown(days) + seq!['#', ' ', 'T', 'a', 'g', ' ']
            + decimal(days.len() + 1) + seq!['\n', '\n'] + dishes_markdown(d.dishes@) + seq!['\n'],
{
    assert(days.push(d).drop_last() =~= days);
    assert(plan_markdown(days.push(d)) =~= plan_markdown(days) + seq!['#', ' ', 'T', 'a', 'g', ' ']
        + decimal(days.len() + 1) + seq!['\n', '\n'] + dishes_markdown(d.dishes@) + seq!['\n']);
}

impl Day {
    /// The shopping list for all dishes of the day.
    pub fn shopping_list(&self) -> (r: IngredientList)
        ensures
            r@ == dish_items(self.dishes@),
    {
        let mut acc = IngredientList::new();
        for i in 0..self.dishes.len()
            invariant
                acc@ == dish_items(self.dishes@.take(i as int)),
        {
            assert(self.dishes@.take(i + 1).drop_last() =~= self.dishes@.take(i as int));
            acc = acc.append_list(IngredientList::from(self.dishes[i].shopping_list()));
        }
        assert(self.dishes@.take(self.dishes@.len() as int) =~= self.dishes@);
        acc
    }
}

impl WeekPlan {
    /// The shopping list for all dishes of the plan, in order.
    pub fn shopping_list(&self) -> (r: IngredientList)
        ensures
            r@ == dish_items(plan_dishes(self.days@)),
    {
        let mut acc = IngredientList::new();
        for i in 0..self.days.len()
            invariant
                acc@ == dish_items(plan_dishes(self.days@.take(i as int))),
        {
            let ghost before = self.days@.take(i as int);
            proof {
                assert(self.days@.take(i + 1).drop_last() =~= before);
                lemma_dish_items_concat(plan_dishes(before), self.days@[i as int].dishes@);
            }
            acc = acc.append_list(self.days[i].shopping_list());
        }
        assert(self.days@.take(self.days@.len() as int) =~= self.days@);
        acc
    }

    /// Shopping lists that span days: a new list starts at each shopping
    /// marker. Without markers there is one list for the whole plan.
    pub fn shopping_lists(&self) -> (r: Vec<IngredientList>)
        requires
            markers_in_range(self.days@),
        ensures
            r@.map_values(|l: IngredientList| l@) == plan_shopping_lists(self.days@),
    {
        // All dishes of the plan, and the markers as positions among them.
        let mut all_dishes: Vec<&Dish> = Vec::new();
        let mut marker_positions: Vec<usize> = Vec::new();
        let mut current_position: usize = 0;
        let ghost days = self.days@;
        for d in 0..self.days.len()
            invariant
                days == self.days@,
                markers_in_range(days),
                current_position == all_dishes@.len(),
                all_dishes@.len() == plan_dishes(days.take(d as int)).len(),
                forall|k: int| 0 <= k < all_dishes@.len() ==> *#[trigger] all_dishes@[k] == plan_dishes(days.take(d as int))[k],
                marker_positions@.len() == plan_markers(days.take(d as int)).len(),
                forall|k: int| 0 <= k < marker_positions@.len() ==> #[trigger] marker_positions@[k] == plan_markers(days.take(d as int))[k],
        {
            let day = &self.days[d];
            let ghost before = days.take(d as int);
            let ghost upto = days.take(d + 1);
            proof {
                assert(upto.drop_last() =~= before);
                assert(upto.last() == *day);
                lemma_plan_prefix(days, d + 1);
            }
            for j in 0..day.dishes.len()
                invariant
                    d < days.len(),
                    day == &days[d as int],
                    all_dishes@.len() == current_position + j,
                    current_position == plan_dishes(before).len(),
                    forall|k: int| 0 <= k < all_dishes@.len() ==>
                        *#[trigger] all_dishes@[k] == (plan_dishes(before) + day.dishes@)[k],
            {
                all_dishes.push(&day.dishes[j]);
            }
            assert(plan_dishes(upto) == plan_dishes(before) + day.dishes@);
            for j in 0..day.shopping_days.len()
                invariant
                    d < days.len(),
                    day == &days[d as int],
                    current_position == plan_dishes(before).len(),
                    plan_dishes(upto).len() <= plan_dishes(days).len() <= usize::MAX,
                    plan_markers(upto).len() <= plan_markers(days).len(),
                    plan_markers(upto) == plan_markers(days).take(plan_markers(upto).len() as int),
                    plan_markers(upto) == plan_markers(before)
                        + day.shopping_days@.map_values(|m: usize| plan_dishes(before).len() + m),
                    markers_in_range(days),
                    marker_positions@.len() == plan_markers(before).len() + j,
                    forall|k: int| 0 <= k < marker_positions@.len() ==> #[trigger] marker_positions@[k] == plan_markers(upto)[k],
            {
                proof {
                    let idx = plan_markers(before).len() + j;
                    assert(plan_markers(upto).len() == plan_markers(before).len() + day.shopping_days@.len());
                    assert(idx < plan_markers(upto).len());
                    assert(plan_markers(upto)[idx] == current_position + day.shopping_days@[j as int]);
                    assert(plan_markers(days).take(plan_markers(upto).len() as int)[idx] == plan_markers(days)[idx]);
                    assert(plan_markers(days)[idx] == plan_markers(upto)[idx]);
                    assert(plan_markers(days)[idx] <= plan_dishes(days).len());
                }
                marker_positions.push(current_position + day.shopping_days[j]);
            }
            current_position = current_position + day.dishes.len();
        }
        let ghost dishes = plan_dishes(days);
        let ghost ms = plan_markers(days);
        assert(days.take(days.len() as int) =~= days);
        assert(marker_positions@.map_values(|m: usize| m as int) =~= ms);
        let n = all_dishes.len();

        if marker_positions.len() == 0 {
            let list = stretch_list(&all_dishes, 0, n, Ghost(dishes));
            let mut lists: Vec<IngredientList> = Vec::new();
            lists.push(list);
            assert(dishes.subrange(0, n as int) =~= dishes);
            proof {
                lemma_single_stretch(dishes, n as int);
            }
            assert(lists@.map_values(|l: IngredientList| l@) =~= plan_shopping_lists(days));
            return lists;
        }

        let mut lists: Vec<IngredientList> = Vec::new();
        let mut start_idx: usize = 0;
        for j in 0..marker_positions.len()
            invariant
                n == dishes.len(),
                all_dishes@.len() == dishes.len(),
                forall|k: int| 0 <= k < all_dishes@.len() ==> *#[trigger] all_dishes@[k] == dishes[k],
                marker_positions@.map_values(|m: usize| m as int) == ms,
                forall|k: int| 0 <= k < ms.len() ==> #[trigger] ms[k] <= n,
                start_idx == last_cut(ms.take(j as int)),
                lists@.map_values(|l: IngredientList| l@) == stretch_lists(dishes, marker_stretches(ms.take(j as int))),
        {
            let marker_idx = marker_positions[j];
            let ghost prefix = ms.take(j + 1);
            proof {
                assert(prefix.drop_last() =~= ms.take(j as int));
                assert(prefix.last() == marker_idx);
                assert(ms[j as int] == marker_idx);
            }
            let ghost done = marker_stretches(ms.take(j as int));
            if marker_idx > start_idx {
                let ghost old_lists = lists@;
                let list = stretch_list(&all_dishes, start_idx, marker_idx, Ghost(dishes));
                lists.push(list);
                proof {
                    assert(marker_stretches(prefix) == done.push((start_idx as int, marker_idx as int)));
                    assert(lists@ == old_lists.push(list));
                    assert(lists@.map_values(|l: IngredientList| l@) =~= old_lists.map_values(|l: IngredientList| l@).push(list@));
                    lemma_stretch_lists_push(dishes, done, (start_idx as int, marker_idx as int));
                }
            } else {
                assert(marker_stretches(prefix) == done);
            }
            start_idx = marker_idx;
        }
        assert(ms.take(ms.len() as int) =~= ms);
        let ghost done = marker_stretches(ms);
        if start_idx < n {
            let ghost old_lists = lists@;
            let list = stretch_list(&all_dishes, start_idx, n, Ghost(dishes));
            lists.push(list);
            proof {
                assert(lists@.map_values(|l: IngredientList| l@) =~= old_lists.map_values(|l: IngredientList| l@).push(list@));
                lemma_stretch_lists_push(dishes, done, (start_idx as int, n as int));
            }
        }
        assert(lists@.map_values(|l: IngredientList| l@) =~= plan_shopping_lists(days));
        lists
    }

    /// Markdown for all dishes: a heading per day that has dishes, numbered
    /// by the day's position in the plan, then the dishes' recipes.
    pub fn dishes_as_markdown(&self) -> (r: String)
        ensures
            r@ == plan_markdown(self.days@),
    {
        let mut output = String::new();
        for day_idx in 0..self.days.len()
            invariant
                output@ == plan_markdown(self.days@.take(day_idx as int)),
        {
            let day = &self.days[day_idx];
            proof {
                assert(self.days@.take(day_idx + 1).drop_last() =~= self.days@.take(day_idx as int));
            }
            if day.dishes.len() > 0 {
                let ghost start = output@;
                proof {
                    reveal_strlit("# Tag ");
                    reveal_strlit("\n\n");
                    reveal_strlit("\n");
                }
                output.append("# Tag ");
                let number = string_from_chars(decimal_chars(day_idx + 1).as_slice());
                output.append(number.as_str());
                output.append("\n\n");
                assert(output@ =~= start + day_heading((day_idx + 1) as nat));
                for j in 0..day.dishes.len()
                    invariant
                        day_idx < self.days@.len(),
                        day == &self.days@[day_idx as int],
                        output@ == start + day_heading((day_idx + 1) as nat)
                            + dishes_markdown(day.dishes@.take(j as int)),
                {
                    proof {
                        assert(day.dishes@.take(j + 1).drop_last() =~= day.dishes@.take(j as int));
                        reveal_strlit("\n");
                    }
                    let md = day.dishes[j].as_markdown();
                    output.append(md.as_str());
                    output.append("\n");
                    assert(output@ =~= start + day_heading((day_idx + 1) as nat)
                        + dishes_markdown(day.dishes@.take(j + 1)));
                }
                assert(day.dishes@.take(day.dishes@.len() as int) =~= day.dishes@);
                output.append("\n");
            }
        }
        assert(self.days@.take(self.days@.len() as int) =~= self.days@);
        output
    }
}

} // verus!
