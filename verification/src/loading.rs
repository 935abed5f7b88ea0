//! Building a week plan from a read plan file: which dish files to load,
//! and the days that the loaded dishes make up.

use vstd::prelude::*;
use crate::cookbook::CookBook;
use crate::dish::Dish;
use crate::menu::{EntryView, MenuEntry, MenuPlan};
use crate::plan::{Day, WeekPlan, day_markers_ok, lemma_days_markers_ok, markers_in_range, markers_ordered, plan_dishes, plan_markers};

verus! {

/// A dish file to load: the dish's name, the people it is cooked for, and
/// where the cookbook keeps it.
pub struct DishRequest<'a, P> {
    pub name: String,
    pub people: usize,
    pub path: &'a P,
}

/// The requests of one day: one for each dish entry whose name the
/// cookbook knows, in order; other dishes are skipped.
pub open spec fn day_requests<P>(entries: Seq<EntryView>, book: Map<Seq<char>, P>) -> Seq<(Seq<char>, usize, P)>
    decreases entries.len(),
{
    if entries.len() == 0 {
        Seq::empty()
    } else {
        let before = day_requests(entries.drop_last(), book);
        match entries.last() {
            EntryView::Dish { name, people } => if book.contains_key(name) {
                before.push((name, people, book[name]))
            } else {
                before
            },
            EntryView::ShoppingMarker => before,
        }
    }
}

/// The requests of all days, day after day.
pub open spec fn plan_requests<P>(days: Seq<Seq<EntryView>>, book: Map<Seq<char>, P>) -> Seq<(Seq<char>, usize, P)>
    decreases days.len(),
{
    if days.len() == 0 {
        Seq::empty()
    } else {
        plan_requests(days.drop_last(), book) + day_requests(days.last(), book)
    }
}

/// The dishes and shopping markers of a day, given the results of its
/// requests in order: a dish that loaded is cooked, one that did not is
/// skipped, and a shopping marker records how many dishes come before it.
pub open spec fn build_day<P>(entries: Seq<EntryView>, book: Map<Seq<char>, P>, loaded: Seq<Option<Dish>>) -> (Seq<Dish>, Seq<usize>)
    decreases entries.len(),
{
    if entries.len() == 0 {
        (Seq::empty(), Seq::empty())
    } else {
        let prev = build_day(entries.drop_last(), book, loaded);
        let k = day_requests(entries.drop_last(), book).len() as int;
        match entries.last() {
            EntryView::Dish { name, people } => if book.contains_key(name) {
                match loaded[k] {
                    Some(d) => (prev.0.push(d), prev.1),
                    None => prev,
                }
            } else {
                prev
            },
            EntryView::ShoppingMarker => (prev.0, prev.1.push(prev.0.len() as usize)),
        }
    }
}

/// The days of a plan, given the results of all its requests in order.
pub open spec fn build_days<P>(days: Seq<Seq<EntryView>>, book: Map<Seq<char>, P>, loaded: Seq<Option<Dish>>) -> Seq<(Seq<Dish>, Seq<usize>)>
    decreases days.len(),
{
    if days.len() == 0 {
        Seq::empty()
    } else {
        let offset = plan_requests(days.drop_last(), book).len() as int;
        build_days(days.drop_last(), book, loaded).push(build_day(days.last(), book, loaded.skip(offset)))
    }
}


/// The dishes that loaded, in order.
pub open spec fn loaded_dishes(loaded: Seq<Option<Dish>>) -> Seq<Dish>
    decreases loaded.len(),
{
    if loaded.len() == 0 {
        Seq::empty()
    } else {
        match loaded.last() {
            Some(d) => loaded_dishes(loaded.drop_last()).push(d),
            None => loaded_dishes(loaded.drop_last()),
        }
    }
}

proof fn lemma_loaded_dishes_concat(a: Seq<Option<Dish>>, b: Seq<Option<Dish>>)
    ensures
        loaded_dishes(a + b) == loaded_dishes(a) + loaded_dishes(b),
    decreases b.len(),
{
    if b.len() == 0 {
        assert(a + b =~= a);
        assert(loaded_dishes(a) + loaded_dishes(b) =~= loaded_dishes(a));
    } else {
        lemma_loaded_dishes_concat(a, b.drop_last());
        assert((a + b).drop_last() =~= a + b.drop_last());
        assert((a + b).last() == b.last());
        match b.last() {
            Some(d) => {
                assert(loaded_dishes(a) + loaded_dishes(b) =~= (loaded_dishes(a) + loaded_dishes(b.drop_last())).push(d));
            }
            None => {}
        }
    }
}

/// A day cooks exactly the dishes that loaded for its requests, in order:
/// names the cookbook lacks and failed loads are skipped.
pub proof fn law_day_cooks_its_loaded_dishes<P>(entries: Seq<EntryView>, book: Map<Seq<char>, P>, loaded: Seq<Option<Dish>>)
    requires
        day_requests(entries, book).len() <= loaded.len(),
    ensures
        build_day(entries, book, loaded).0 == loaded_dishes(loaded.take(day_requests(entries, book).len() as int)),
    decreases entries.len(),
{
    if entries.len() == 0 {
        assert(loaded.take(0) =~= Seq::<Option<Dish>>::empty());
    } else {
        let shorter = entries.drop_last();
        assert(day_requests(shorter, book).len() <= day_requests(entries, book).len()) by {
            lemma_day_requests_prefix(entries, book, entries.len() - 1);
            assert(entries.take(entries.len() - 1) =~= shorter);
        }
        law_day_cooks_its_loaded_dishes(shorter, book, loaded);
        let k = day_requests(shorter, book).len() as int;
        match entries.last() {
            EntryView::Dish { name, people } => {
                if book.contains_key(name) {
                    assert(loaded.take(k + 1).drop_last() =~= loaded.take(k));
                    assert(loaded.take(k + 1).last() == loaded[k]);
                }
            }
            EntryView::ShoppingMarker => {}
        }
    }
}

proof fn lemma_plan_dishes_loaded<P>(res: Seq<Day>, plan: Seq<Seq<EntryView>>, book: Map<Seq<char>, P>, loaded: Seq<Option<Dish>>)
    requires
        res.len() == plan.len(),
        plan_requests(plan, book).len() <= loaded.len(),
        forall|i: int| 0 <= i < res.len() ==> #[trigger] res[i].dishes@ == build_days(plan, book, loaded)[i].0,
    ensures
        plan_dishes(res) == loaded_dishes(loaded.take(plan_requests(plan, book).len() as int)),
    decreases res.len(),
{
    if res.len() == 0 {
        assert(loaded.take(0) =~= Seq::<Option<Dish>>::empty());
    } else {
        let n = res.len() - 1;
        let off = plan_requests(plan.drop_last(), book).len() as int;
        let c = day_requests(plan.last(), book).len() as int;
        lemma_build_days_len(plan.drop_last(), book, loaded);
        assert forall|i: int| 0 <= i < res.drop_last().len() implies #[trigger] res.drop_last()[i].dishes@
            == build_days(plan.drop_last(), book, loaded)[i].0 by {
            assert(res.drop_last()[i] == res[i]);
            assert(build_days(plan, book, loaded)[i] == build_days(plan.drop_last(), book, loaded)[i]);
        }
        lemma_plan_dishes_loaded(res.drop_last(), plan.drop_last(), book, loaded);
        let rest = loaded.skip(off);
        assert(res[n].dishes@ == build_day(plan.last(), book, rest).0);
        law_day_cooks_its_loaded_dishes(plan.last(), book, rest);
        assert(loaded.take(off + c) =~= loaded.take(off) + rest.take(c));
        lemma_loaded_dishes_concat(loaded.take(off), rest.take(c));
    }
}

/// Each day of a built plan is built from that day's entries alone, with
/// the load results that follow those of the days before it.
pub proof fn law_day_built_from_its_entries<P>(days: Seq<Seq<EntryView>>, book: Map<Seq<char>, P>, loaded: Seq<Option<Dish>>, i: int)
    requires
        0 <= i < days.len(),
    ensures
        build_days(days, book, loaded).len() == days.len(),
        build_days(days, book, loaded)[i]
            == build_day(days[i], book, loaded.skip(plan_requests(days.take(i), book).len() as int)),
    decreases days.len(),
{
    lemma_build_days_len(days, book, loaded);
    if i == days.len() - 1 {
        assert(days.drop_last() =~= days.take(i));
    } else {
        law_day_built_from_its_entries(days.drop_last(), book, loaded, i);
        assert(days.drop_last().take(i) =~= days.take(i));
    }
}

/// A day's shopping markers are in order and lie among its dishes.
pub proof fn law_day_markers_in_order<P>(entries: Seq<EntryView>, book: Map<Seq<char>, P>, loaded: Seq<Option<Dish>>)
    requires
        day_requests(entries, book).len() <= usize::MAX,
    ensures
        ({
            let (ds, ms) = build_day(entries, book, loaded);
            &&& ds.len() <= day_requests(entries, book).len()
            &&& forall|k: int| 0 <= k < ms.len() ==> #[trigger] ms[k] <= ds.len()
            &&& forall|i: int, j: int| 0 <= i <= j < ms.len() ==> #[trigger] ms[i] <= #[trigger] ms[j]
        }),
    decreases entries.len(),
{
    if entries.len() > 0 {
        let shorter = entries.drop_last();
        assert(day_requests(shorter, book).len() <= day_requests(entries, book).len()) by {
            lemma_day_requests_prefix(entries, book, entries.len() - 1);
            assert(entries.take(entries.len() - 1) =~= shorter);
        }
        law_day_markers_in_order(shorter, book, loaded);
        let prev = build_day(shorter, book, loaded);
        let cur = build_day(entries, book, loaded);
        match entries.last() {
            EntryView::Dish { name, people } => {
                assert(cur.1 == prev.1);
            }
            EntryView::ShoppingMarker => {
                assert(cur.0 == prev.0);
                assert(cur.1 == prev.1.push(prev.0.len() as usize));
                assert forall|i: int, j: int| 0 <= i <= j < cur.1.len() implies #[trigger] cur.1[i] <= #[trigger] cur.1[j] by {
                    if j < prev.1.len() {
                        assert(prev.1[i] <= prev.1[j]);
                    } else if i < prev.1.len() {
                        assert(prev.1[i] <= prev.0.len());
                    }
                }
            }
        }
    }
}

proof fn lemma_built_dishes_count<P>(days: Seq<Day>, plan: Seq<Seq<EntryView>>, book: Map<Seq<char>, P>)
    requires
        days.len() == plan.len(),
        forall|i: int| 0 <= i < days.len() ==> #[trigger] days[i].dishes@.len() <= day_requests(plan[i], book).len(),
    ensures
        plan_dishes(days).len() <= plan_requests(plan, book).len(),
    decreases days.len(),
{
    if days.len() > 0 {
        assert forall|i: int| 0 <= i < days.len() - 1 implies #[trigger] days.drop_last()[i].dishes@.len()
            <= day_requests(plan.drop_last()[i], book).len() by {
            assert(days.drop_last()[i] == days[i]);
            assert(plan.drop_last()[i] == plan[i]);
        }
        lemma_built_dishes_count(days.drop_last(), plan.drop_last(), book);
        assert(days[days.len() - 1].dishes@.len() <= day_requests(plan[plan.len() - 1], book).len());
    }
}

proof fn lemma_plan_requests_day<P>(days: Seq<Seq<EntryView>>, book: Map<Seq<char>, P>, i: int)
    requires
        0 <= i < days.len(),
    ensures
        day_requests(days[i], book).len() <= plan_requests(days, book).len(),
{
    lemma_plan_requests_prefix(days, book, i + 1);
    assert(days.take(i + 1).drop_last() =~= days.take(i));
    assert(days.take(i + 1).last() == days[i]);
}

/// Each menu entry adds at most one dish or one shopping marker to its
/// day, and keeps what the entries before it gave.
pub proof fn law_entry_adds_at_most_one<P>(entries: Seq<EntryView>, e: EntryView, book: Map<Seq<char>, P>, loaded: Seq<Option<Dish>>)
    ensures
        ({
            let (d0, m0) = build_day(entries, book, loaded);
            let (d1, m1) = build_day(entries.push(e), book, loaded);
            &&& d0.len() <= d1.len()
            &&& m0.len() <= m1.len()
            &&& d1.take(d0.len() as int) == d0
            &&& m1.take(m0.len() as int) == m0
            &&& (d1.len() - d0.len()) + (m1.len() - m0.len()) <= 1
        }),
{
    let ext = entries.push(e);
    assert(ext.drop_last() =~= entries);
    let (d0, m0) = build_day(entries, book, loaded);
    let (d1, m1) = build_day(ext, book, loaded);
    assert(d0.take(d0.len() as int) =~= d0);
    assert(m0.take(m0.len() as int) =~= m0);
    if d1.len() > d0.len() {
        assert(d1.take(d0.len() as int) =~= d0);
    }
    if m1.len() > m0.len() {
        assert(m1.take(m0.len() as int) =~= m0);
    }
}

/// A dish that the cookbook does not know is skipped: it asks for no file
/// and leaves its day as the entries before it made it.
pub proof fn law_unknown_dish_skipped<P>(entries: Seq<EntryView>, name: Seq<char>, people: usize, book: Map<Seq<char>, P>, loaded: Seq<Option<Dish>>)
    requires
        !book.contains_key(name),
    ensures
        day_requests(entries.push(EntryView::Dish { name, people }), book) == day_requests(entries, book),
        build_day(entries.push(EntryView::Dish { name, people }), book, loaded) == build_day(entries, book, loaded),
{
    assert(entries.push(EntryView::Dish { name, people }).drop_last() =~= entries);
}

/// A dish whose file did not load is skipped: its day keeps the dishes and
/// markers that the entries before it gave.
pub proof fn law_failed_load_skipped<P>(entries: Seq<EntryView>, name: Seq<char>, people: usize, book: Map<Seq<char>, P>, loaded: Seq<Option<Dish>>)
    requires
        book.contains_key(name),
        loaded[day_requests(entries, book).len() as int] is None,
    ensures
        build_day(entries.push(EntryView::Dish { name, people }), book, loaded) == build_day(entries, book, loaded),
{
    assert(entries.push(EntryView::Dish { name, people }).drop_last() =~= entries);
}

/// A dish entry whose name the cookbook knows.
pub open spec fn is_known_dish<P>(book: Map<Seq<char>, P>, e: EntryView) -> bool {
    e matches EntryView::Dish { name, .. } && book.contains_key(name)
}

/// The request for a known dish entry: its name, its people, and where the
/// cookbook keeps it.
pub open spec fn request_for<P>(book: Map<Seq<char>, P>, e: EntryView) -> (Seq<char>, usize, P) {
    match e {
        EntryView::Dish { name, people } => (name, people, book[name]),
        EntryView::ShoppingMarker => (Seq::empty(), 0, book[Seq::empty()]),
    }
}

/// A day asks for exactly its dish entries that the cookbook knows, in
/// order, each with its name, its people, and the cookbook's location for
/// that name.
pub proof fn law_requests_are_known_dishes<P>(entries: Seq<EntryView>, book: Map<Seq<char>, P>)
    ensures
        day_requests(entries, book) == entries.filter(|e: EntryView| is_known_dish(book, e)).map_values(
            |e: EntryView| request_for(book, e),
        ),
    decreases entries.len(),
{
    reveal(Seq::filter);
    let f = |e: EntryView| is_known_dish(book, e);
    let g = |e: EntryView| request_for(book, e);
    if entries.len() == 0 {
        assert(entries.filter(f).map_values(g) =~= Seq::<(Seq<char>, usize, P)>::empty());
    } else {
        law_requests_are_known_dishes(entries.drop_last(), book);
        let before = entries.drop_last().filter(f);
        if f(entries.last()) {
            assert(before.push(entries.last()).map_values(g) =~= before.map_values(g).push(g(entries.last())));
        }
    }
}

/// The shopping marker entries among `entries`, in order.
pub open spec fn marker_entries(entries: Seq<EntryView>) -> Seq<EntryView> {
    entries.filter(|e: EntryView| e is ShoppingMarker)
}

/// A day has one shopping marker for every `Einkauf` entry of its menu,
/// wherever the entry stands.
pub proof fn law_one_marker_per_marker_entry<P>(entries: Seq<EntryView>, book: Map<Seq<char>, P>, loaded: Seq<Option<Dish>>)
    ensures
        build_day(entries, book, loaded).1.len() == marker_entries(entries).len(),
    decreases entries.len(),
{
    reveal(Seq::filter);
    if entries.len() > 0 {
        law_one_marker_per_marker_entry(entries.drop_last(), book, loaded);
    }
}

/// Each shopping marker of a day counts the dishes cooked before its
/// `Einkauf` entry: for the entry at position `i`, the marker it makes
/// (the one after the markers of the entries before it) is the number of
/// dishes that the entries before it give.
pub proof fn law_marker_counts_dishes_before<P>(entries: Seq<EntryView>, book: Map<Seq<char>, P>, loaded: Seq<Option<Dish>>, i: int)
    requires
        0 <= i < entries.len(),
        entries[i] is ShoppingMarker,
        build_day(entries.take(i), book, loaded).0.len() <= usize::MAX,
    ensures
        marker_entries(entries.take(i)).len() < build_day(entries, book, loaded).1.len(),
        build_day(entries, book, loaded).1[marker_entries(entries.take(i)).len() as int]
            == build_day(entries.take(i), book, loaded).0.len(),
    decreases entries.len(),
{
    let shorter = entries.drop_last();
    law_one_marker_per_marker_entry(entries.take(i), book, loaded);
    if i == entries.len() - 1 {
        assert(entries.take(i) =~= shorter);
    } else {
        assert(shorter.take(i) =~= entries.take(i));
        law_marker_counts_dishes_before(shorter, book, loaded, i);
        assert(entries =~= shorter.push(entries.last()));
        law_entry_adds_at_most_one(shorter, entries.last(), book, loaded);
        let m0 = build_day(shorter, book, loaded).1;
        let m1 = build_day(entries, book, loaded).1;
        let k = marker_entries(entries.take(i)).len() as int;
        assert(m1.take(m0.len() as int)[k] == m1[k]);
    }
}

proof fn lemma_day_requests_prefix<P>(entries: Seq<EntryView>, book: Map<Seq<char>, P>, j: int)
    requires
        0 <= j <= entries.len(),
    ensures
        day_requests(entries.take(j), book).len() <= day_requests(entries, book).len(),
    decreases entries.len() - j,
{
    if j < entries.len() {
        lemma_day_requests_prefix(entries.drop_last(), book, j);
        assert(entries.drop_last().take(j) =~= entries.take(j));
    } else {
        assert(entries.take(j) =~= entries);
    }
}

proof fn lemma_plan_requests_prefix<P>(days: Seq<Seq<EntryView>>, book: Map<Seq<char>, P>, d: int)
    requires
        0 <= d <= days.len(),
    ensures
        plan_requests(days.take(d), book).len() <= plan_requests(days, book).len(),
    decreases days.len() - d,
{
    if d < days.len() {
        lemma_plan_requests_prefix(days.drop_last(), book, d);
        assert(days.drop_last().take(d) =~= days.take(d));
    } else {
        assert(days.take(d) =~= days);
    }
}

proof fn lemma_build_days_len<P>(days: Seq<Seq<EntryView>>, book: Map<Seq<char>, P>, loaded: Seq<Option<Dish>>)
    ensures
        build_days(days, book, loaded).len() == days.len(),
    decreases days.len(),
{
    if days.len() > 0 {
        lemma_build_days_len(days.drop_last(), book, loaded);
    }
}

impl WeekPlan {
    /// The dish files that a read plan asks for, in the order in which the
    /// plan names them: every dish whose name the cookbook knows.
    pub fn dish_requests<'a, P>(plan: &MenuPlan, cookbook: &'a CookBook<P>) -> (r: Vec<DishRequest<'a, P>>)
        ensures
            r@.map_values(|q: DishRequest<'a, P>| (q.name@, q.people, *q.path)) == plan_requests(plan@.days, cookbook@),
    {
        let ghost days = plan@.days;
        let ghost book = cookbook@;
        let mut acc: Vec<DishRequest<'a, P>> = Vec::new();
        assert(acc@.map_values(|q: DishRequest<'a, P>| (q.name@, q.people, *q.path)) =~= plan_requests(days.take(0), book));
        for d in 0..plan.days.len()
            invariant
                days == plan@.days,
                book == cookbook@,
                acc@.map_values(|q: DishRequest<'a, P>| (q.name@, q.people, *q.path)) == plan_requests(days.take(d as int), book),
        {
            let entries = &plan.days[d].entries;
            let ghost before = plan_requests(days.take(d as int), book);
            let ghost day = days[d as int];
            assert(day == entries@.map_values(|e: MenuEntry| e@));
            assert(day.take(0) =~= Seq::<EntryView>::empty());
            assert(before + day_requests(day.take(0), book) =~= before);
            for j in 0..entries.len()
                invariant
                    d < days.len(),
                    day == days[d as int],
                    day == entries@.map_values(|e: MenuEntry| e@),
                    book == cookbook@,
                    acc@.map_values(|q: DishRequest<'a, P>| (q.name@, q.people, *q.path)) == before + day_requests(day.take(j as int), book),
            {
                let ghost old_view = acc@.map_values(|q: DishRequest<'a, P>| (q.name@, q.people, *q.path));
                assert(day.take(j + 1).drop_last() =~= day.take(j as int));
                assert(day.take(j + 1).last() == entries@[j as int]@);
                match &entries[j] {
                    MenuEntry::Dish { name, people } => {
                        match cookbook.get(name.as_str()) {
                            Some(path) => {
                                let q = DishRequest { name: name.clone(), people: *people, path };
                                acc.push(q);
                                assert(acc@.map_values(|q: DishRequest<'a, P>| (q.name@, q.people, *q.path))
                                    =~= old_view.push((name@, *people, *path)));
                            }
                            None => {}
                        }
                    }
                    MenuEntry::ShoppingMarker => {}
                }
            }
            assert(day.take(entries@.len() as int) =~= day);
            assert(days.take(d + 1).drop_last() =~= days.take(d as int));
        }
        assert(days.take(days.len() as int) =~= days);
        acc
    }

    /// Builds the plan from a read plan file, the cookbook, and the results
    /// of loading the requested dish files (`dish_requests`), in the same
    /// order: `None` where a dish could not be loaded. The plan keeps the
    /// file's start date and its days, in order.
    pub fn from_file<P>(plan: &MenuPlan, cookbook: &CookBook<P>, loaded: Vec<Option<Dish>>) -> (r: WeekPlan)
        requires
            loaded@.len() == plan_requests(plan@.days, cookbook@).len(),
        ensures
            r._start == plan.start,
            r.days@.len() == plan@.days.len(),
            forall|i: int| 0 <= i < r.days@.len() ==> {
                &&& #[trigger] r.days@[i].dishes@ == build_days(plan@.days, cookbook@, loaded@)[i].0
                &&& r.days@[i].shopping_days@ == build_days(plan@.days, cookbook@, loaded@)[i].1
            },
            forall|i: int| 0 <= i < r.days@.len() ==> day_markers_ok(#[trigger] r.days@[i]),
            plan_dishes(r.days@) == loaded_dishes(loaded@),
            markers_in_range(r.days@),
            markers_ordered(plan_markers(r.days@)),
    {
        let ghost days = plan@.days;
        let ghost book = cookbook@;
        let ghost all = loaded@;
        let n = loaded.len();
        // The results, last first, so that they can be taken in order.
        let mut stack: Vec<Option<Dish>> = Vec::new();
        let mut loaded = loaded;
        while loaded.len() > 0
            invariant
                loaded@.len() + stack@.len() == n,
                n == all.len(),
                forall|i: int| 0 <= i < loaded@.len() ==> #[trigger] loaded@[i] == all[i],
                forall|i: int| 0 <= i < stack@.len() ==> #[trigger] stack@[i] == all[n - 1 - i],
            decreases loaded@.len(),
        {
            let x = loaded.pop().unwrap();
            stack.push(x);
        }
        let mut result: Vec<Day> = Vec::new();
        let mut taken: usize = 0;
        proof {
            lemma_build_days_len(days, book, all);
            assert(days.take(0) =~= Seq::<Seq<EntryView>>::empty());
        }
        for d in 0..plan.days.len()
            invariant
                days == plan@.days,
                book == cookbook@,
                n == all.len(),
                all.len() == plan_requests(days, book).len(),
                taken == plan_requests(days.take(d as int), book).len(),
                stack@.len() + taken == n,
                forall|i: int| 0 <= i < stack@.len() ==> #[trigger] stack@[i] == all[n - 1 - i],
                result@.len() == d,
                build_days(days, book, all).len() == days.len(),
                forall|i: int| 0 <= i < d ==> #[trigger] result@[i].dishes@ == build_days(days, book, all)[i].0,
                forall|i: int| 0 <= i < d ==> #[trigger] result@[i].shopping_days@ == build_days(days, book, all)[i].1,
        {
            let entries = &plan.days[d].entries;
            let ghost day = days[d as int];
            let ghost offset = taken as int;
            let ghost rest = all.skip(offset);
            proof {
                law_day_built_from_its_entries(days, book, all, d as int);
                lemma_plan_requests_prefix(days, book, d as int + 1);
                assert(days.take(d + 1).drop_last() =~= days.take(d as int));
                assert(days.take(d + 1).last() == day);
            }
            assert(day == entries@.map_values(|e: MenuEntry| e@));
            let mut dishes: Vec<Dish> = Vec::new();
            let mut markers: Vec<usize> = Vec::new();
            assert(day.take(0) =~= Seq::<EntryView>::empty());
            for j in 0..entries.len()
                invariant
                    d < days.len(),
                    day == days[d as int],
                    day == entries@.map_values(|e: MenuEntry| e@),
                    book == cookbook@,
                    n == all.len(),
                    rest == all.skip(offset),
                    0 <= offset,
                    offset + day_requests(day, book).len() <= n,
                    taken == offset + day_requests(day.take(j as int), book).len(),
                    stack@.len() + taken == n,
                    forall|i: int| 0 <= i < stack@.len() ==> #[trigger] stack@[i] == all[n - 1 - i],
                    dishes@ == build_day(day.take(j as int), book, rest).0,
                    markers@ == build_day(day.take(j as int), book, rest).1,
            {
                let ghost prefix = day.take(j + 1);
                proof {
                    assert(prefix.drop_last() =~= day.take(j as int));
                    assert(prefix.last() == entries@[j as int]@);
                    lemma_day_requests_prefix(day, book, j + 1);
                }
                match &entries[j] {
                    MenuEntry::Dish { name, people } => {
                        match cookbook.get(name.as_str()) {
                            Some(_) => {
                                assert(taken < n);
                                let next = stack.pop().unwrap();
                                assert(next == all[taken as int]);
                                assert(0 <= taken - offset < rest.len());
                                assert(rest[taken - offset] == all[taken as int]);
                                taken = taken + 1;
                                match next {
                                    Some(dish) => {
                                        dishes.push(dish);
                                    }
                                    None => {}
                                }
                            }
                            None => {}
                        }
                    }
                    MenuEntry::ShoppingMarker => {
                        markers.push(dishes.len());
                    }
                }
            }
            assert(day.take(entries@.len() as int) =~= day);
            let ghost built = build_days(days, book, all)[d as int];
            assert(dishes@ == built.0);
            assert(markers@ == built.1);
            let ghost old_result = result@;
            result.push(Day { dishes, shopping_days: markers });
            assert forall|i: int| 0 <= i < d + 1 implies #[trigger] result@[i].dishes@ == build_days(days, book, all)[i].0 by {
                if i < d {
                    assert(result@[i] == old_result[i]);
                }
            }
            assert forall|i: int| 0 <= i < d + 1 implies #[trigger] result@[i].shopping_days@ == build_days(days, book, all)[i].1 by {
                if i < d {
                    assert(result@[i] == old_result[i]);
                }
            }
        }
        assert(days.take(days.len() as int) =~= days);
        proof {
            let built = result@;
            assert forall|i: int| 0 <= i < built.len() implies #[trigger] built[i].dishes@.len()
                <= day_requests(days[i], book).len() && day_markers_ok(built[i]) by {
                law_day_built_from_its_entries(days, book, all, i);
                let rest = all.skip(plan_requests(days.take(i), book).len() as int);
                lemma_plan_requests_day(days, book, i);
                law_day_markers_in_order(days[i], book, rest);
                assert(built[i].dishes@ == build_days(days, book, all)[i].0);
                assert(built[i].shopping_days@ == build_days(days, book, all)[i].1);
            }
            lemma_built_dishes_count(built, days, book);
            lemma_days_markers_ok(built);
            lemma_plan_dishes_loaded(built, days, book, all);
            assert(all.take(all.len() as int) =~= all);
        }
        WeekPlan { _start: plan.start, days: result }
    }
}

} // verus!
