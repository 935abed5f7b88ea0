//! The plan file grammar, and its reader.
//!
//! A plan file is read line by line; whitespace (as `str::trim` sees it)
//! around a line and around its parts does not count.
//!
//! - `Personen: <count>` sets how many people the following days cook for
//!   (1 where the count is not a number).
//! - `Starttag: <YYYY-MM-DD>` sets the start date of the plan
//!   (2026-01-01 where the date is not valid).
//! - `<day>[(<count>)]: <menu>` is a day. The menu is `Reste` (leftovers:
//!   nothing is cooked) or a comma-separated list of items. An item is a
//!   dish `[[<name>]]`, optionally followed by `(<count>)`, the people it is
//!   cooked for, or the shopping marker `Einkauf`. Items of another form are
//!   skipped.
//! - Any other line is ignored.
//!
//! A dish is cooked for its own count if it has one (1 where that is not a
//! number), else for its day's count if that is a number, else for the
//! people of the last `Personen` line before the day (1 if there is none).

use vstd::prelude::*;
use chrono::Datelike;
use crate::plan::PlanDate;
use crate::text::{
    chars_of, copy_range, decimal, find, find_from, is_blank, is_digit, law_decimal_base_ten, law_parse_count_decimal,
    lemma_find_in, lemma_find_is, lemma_trim_space, lemma_trim_unchanged, parse_count, parse_count_chars,
    same_chars, starts_with, starts_with_chars, string_from_chars, trim, trim_chars,
};

verus! {

/// One item of a day's menu.
pub enum MenuEntry {
    /// A dish, by name, and the people it is cooked for.
    Dish { name: String, people: usize },
    /// Shopping happens here, after the dishes before it.
    ShoppingMarker,
}

/// A menu item as the grammar describes it.
pub enum EntryView {
    Dish { name: Seq<char>, people: usize },
    ShoppingMarker,
}

impl View for MenuEntry {
    type V = EntryView;

    open spec fn view(&self) -> EntryView {
        match self {
            MenuEntry::Dish { name, people } => EntryView::Dish { name: name@, people: *people },
            MenuEntry::ShoppingMarker => EntryView::ShoppingMarker,
        }
    }
}

/// The menu items of one day, in order.
pub struct MenuDay {
    pub entries: Vec<MenuEntry>,
}

impl View for MenuDay {
    type V = Seq<EntryView>;

    open spec fn view(&self) -> Seq<EntryView> {
        self.entries@.map_values(|e: MenuEntry| e@)
    }
}

/// A plan file as read: its start date and its days.
pub struct MenuPlan {
    pub start: PlanDate,
    pub days: Vec<MenuDay>,
}

/// What has been read of a plan file so far.
pub struct ReadState {
    pub people: usize,
    pub start: PlanDate,
    pub days: Seq<Seq<EntryView>>,
}

/// A read plan file: its start date and the entries of its days.
pub struct PlanView {
    pub start: PlanDate,
    pub days: Seq<Seq<EntryView>>,
}

impl View for MenuPlan {
    type V = PlanView;

    open spec fn view(&self) -> PlanView {
        PlanView { start: self.start, days: self.days@.map_values(|d: MenuDay| d@) }
    }
}

/// The keyword of a people line.
pub open spec fn persons_key() -> Seq<char> {
    seq!['P', 'e', 'r', 's', 'o', 'n', 'e', 'n', ':']
}

/// The keyword of a start date line.
pub open spec fn start_key() -> Seq<char> {
    seq!['S', 't', 'a', 'r', 't', 't', 'a', 'g', ':']
}

/// The menu of a day on which nothing is cooked.
pub open spec fn rest_word() -> Seq<char> {
    seq!['R', 'e', 's', 't', 'e']
}

/// The shopping marker item.
pub open spec fn marker_word() -> Seq<char> {
    seq!['E', 'i', 'n', 'k', 'a', 'u', 'f']
}

/// What a dish item begins with.
pub open spec fn dish_open() -> Seq<char> {
    seq!['[', '[']
}

/// The start date of a plan without a valid `Starttag` line.
pub open spec fn default_start() -> PlanDate {
    PlanDate { year: 2026, month: 1, day: 1 }
}

/// The date that chrono reads from `text` with the format `%Y-%m-%d`, as
/// year, month and day.
pub uninterp spec fn ymd_of(text: Seq<char>) -> Option<(i32, u32, u32)>;

/// `chrono::NaiveDate::parse_from_str(text, "%Y-%m-%d")`, given as year,
/// month and day (`Datelike::year`, `month`, `day`). The result is named
/// `ymd_of(text)`; what is stated of it besides is what chrono documents of
/// `month` (1 to 12) and `day` (1 to 31). Which texts chrono accepts is not
/// stated here.
#[verifier::external_body]
fn chrono_parse_ymd(text: &str) -> (r: Option<(i32, u32, u32)>)
    ensures
        r == ymd_of(text@),
        r matches Some((y, m, d)) ==> 1 <= m <= 12 && 1 <= d <= 31,
{
    match chrono::NaiveDate::parse_from_str(text, "%Y-%m-%d") {
        Ok(date) => Some((date.year(), date.month(), date.day())),
        Err(_) => None,
    }
}

/// The start date that a `Starttag` line sets, given what chrono read from
/// its date: that date, or 2026-01-01 where chrono read none.
pub open spec fn start_from(parsed: Option<(i32, u32, u32)>) -> PlanDate {
    match parsed {
        Some((y, m, d)) => PlanDate { year: y, month: m, day: d },
        None => default_start(),
    }
}

/// The start date that a `Starttag` line sets, given what chrono read from
/// its date.
pub fn plan_start(parsed: Option<(i32, u32, u32)>) -> (r: PlanDate)
    ensures
        r == start_from(parsed),
{
    match parsed {
        Some((y, m, d)) => PlanDate { year: y, month: m, day: d },
        None => PlanDate { year: 2026, month: 1, day: 1 },
    }
}

/// Reads the date of a `Starttag` line.
pub fn read_start_date(text: &Vec<char>) -> (r: PlanDate)
    ensures
        r == start_from(ymd_of(text@)),
{
    let s = string_from_chars(text.as_slice());
    plan_start(chrono_parse_ymd(s.as_str()))
}


/// Where the first `]]` in `s` begins, or the length of `s` when there is
/// none.
pub open spec fn close_at(s: Seq<char>) -> int
    decreases s.len(),
{
    if s.len() < 2 {
        s.len() as int
    } else if s[0] == ']' && s[1] == ']' {
        0
    } else {
        1 + close_at(s.drop_first())
    }
}

/// `]]` begins at `i` in `s`.
pub open spec fn closes_at(s: Seq<char>, i: int) -> bool {
    s[i] == ']' && s[i + 1] == ']'
}

proof fn lemma_close_at_found(s: Seq<char>, k: int)
    requires
        0 <= k,
        k + 1 < s.len(),
        closes_at(s, k),
        forall|i: int| 0 <= i < k ==> !#[trigger] closes_at(s, i),
    ensures
        close_at(s) == k,
    decreases k,
{
    if k > 0 {
        assert(!closes_at(s, 0));
        assert forall|i: int| 0 <= i < k - 1 implies !#[trigger] closes_at(s.drop_first(), i) by {
            assert(!closes_at(s, i + 1));
        }
        lemma_close_at_found(s.drop_first(), k - 1);
    }
}

proof fn lemma_close_at_missing(s: Seq<char>)
    requires
        forall|i: int| 0 <= i && i + 1 < s.len() ==> !#[trigger] closes_at(s, i),
    ensures
        close_at(s) == s.len(),
    decreases s.len(),
{
    if s.len() >= 2 {
        assert(!closes_at(s, 0));
        assert forall|i: int| 0 <= i && i + 1 < s.len() - 1 implies !#[trigger] closes_at(s.drop_first(), i) by {
            assert(!closes_at(s, i + 1));
        }
        lemma_close_at_missing(s.drop_first());
    }
}

/// Where the first `]]` in `v[from..]` begins, counted from `from`.
fn close_from(v: &Vec<char>, from: usize) -> (r: usize)
    requires
        from <= v@.len(),
    ensures
        r == close_at(v@.skip(from as int)),
{
    let ghost s = v@.skip(from as int);
    let mut j = from;
    while j < v.len() && v.len() - j > 1 && !(v[j] == ']' && v[j + 1] == ']')
        invariant
            from <= j <= v@.len(),
            s == v@.skip(from as int),
            forall|i: int| 0 <= i < j - from ==> !#[trigger] closes_at(s, i),
        decreases v@.len() - j,
    {
        assert(!closes_at(s, j - from));
        j = j + 1;
    }
    if j < v.len() && v.len() - j > 1 {
        proof {
            lemma_close_at_found(s, j - from);
        }
        j - from
    } else {
        proof {
            assert forall|i: int| 0 <= i && i + 1 < s.len() implies !#[trigger] closes_at(s, i) by {
                assert(i < j - from);
            }
            lemma_close_at_missing(s);
        }
        v.len() - from
    }
}

/// The people count in parentheses, `(<count>)`, that follows a dish.
pub open spec fn suffix_count(tail: Seq<char>) -> Option<Option<usize>> {
    if tail.len() == 0 {
        Some(None)
    } else if tail.len() >= 2 && tail[0] == '(' && tail.last() == ')' {
        Some(Some(
            match parse_count(tail.subrange(1, tail.len() - 1)) {
                Some(n) => n,
                None => 1,
            },
        ))
    } else {
        None
    }
}

/// What a menu item says, where `people` is the count of its day; `None`
/// for an item of no known form.
pub open spec fn item_entry(item: Seq<char>, people: usize) -> Option<EntryView> {
    let t = trim(item);
    if t == marker_word() {
        Some(EntryView::ShoppingMarker)
    } else if starts_with(t, dish_open()) {
        let inner = t.skip(2);
        let k = close_at(inner);
        if k + 2 <= inner.len() {
            match suffix_count(trim(inner.skip(k + 2))) {
                Some(Some(n)) => Some(EntryView::Dish { name: inner.take(k), people: n }),
                Some(None) => Some(EntryView::Dish { name: inner.take(k), people: people }),
                None => None,
            }
        } else {
            None
        }
    } else {
        None
    }
}


/// The people count of a dish item: its own count if it has one, else
/// `people`.
fn read_suffix(tail: &Vec<char>, people: usize) -> (r: Option<usize>)
    ensures
        match suffix_count(tail@) {
            Some(Some(n)) => r == Some(n),
            Some(None) => r == Some(people),
            None => r is None,
        },
{
    if tail.len() == 0 {
        Some(people)
    } else if tail.len() >= 2 && tail[0] == '(' && tail[tail.len() - 1] == ')' {
        let inner = copy_range(tail, 1, tail.len() - 1);
        match parse_count_chars(&inner) {
            Some(n) => Some(n),
            None => Some(1),
        }
    } else {
        None
    }
}

/// Reads one menu item; `people` is the count of its day.
fn read_item(item: &Vec<char>, people: usize) -> (r: Option<MenuEntry>)
    ensures
        match r {
            Some(e) => item_entry(item@, people) == Some(e@),
            None => item_entry(item@, people) is None,
        },
{
    let t = trim_chars(item);
    let marker = chars_of("Einkauf");
    proof {
        reveal_strlit("Einkauf");
        assert(marker@ =~= marker_word());
    }
    if same_chars(&t, &marker) {
        return Some(MenuEntry::ShoppingMarker);
    }
    let open = chars_of("[[");
    proof {
        reveal_strlit("[[");
        assert(open@ =~= dish_open());
    }
    if !starts_with_chars(&t, &open) {
        return None;
    }
    let ghost inner = t@.skip(2);
    let k = close_from(&t, 2);
    if !(k <= t.len() - 2 && t.len() - 2 - k >= 2) {
        return None;
    }
    let name = copy_range(&t, 2, 2 + k);
    let rest = copy_range(&t, 2 + k + 2, t.len());
    assert(name@ =~= inner.take(k as int));
    assert(rest@ =~= inner.skip(k + 2));
    let tail = trim_chars(&rest);
    match read_suffix(&tail, people) {
        Some(n) => Some(MenuEntry::Dish { name: string_from_chars(name.as_slice()), people: n }),
        None => None,
    }
}


/// The entry an item adds to its day: none for an item of no known form.
pub open spec fn item_list(e: Option<EntryView>) -> Seq<EntryView> {
    match e {
        Some(x) => seq![x],
        None => Seq::empty(),
    }
}

/// The entries of the comma-separated items of `rest`, in order.
pub open spec fn menu_items(rest: Seq<char>, people: usize) -> Seq<EntryView>
    decreases rest.len(),
{
    let k = find(rest, ',');
    let here = item_list(item_entry(rest.take(k), people));
    if 0 <= k < rest.len() {
        here + menu_items(rest.skip(k + 1), people)
    } else {
        here
    }
}

/// The entries of a day's menu: none for leftovers, else its items'.
pub open spec fn menu_entries(menu: Seq<char>, people: usize) -> Seq<EntryView> {
    if trim(menu) == rest_word() {
        Seq::empty()
    } else {
        menu_items(menu, people)
    }
}

/// The people count of a day label `<day>(<count>)`, if it has a count
/// that is a number.
pub open spec fn day_count(label: Seq<char>) -> Option<usize> {
    let t = trim(label);
    let k = find(t, '(');
    if 0 <= k && k + 2 <= t.len() && t.last() == ')' {
        parse_count(t.subrange(k + 1, t.len() - 1))
    } else {
        None
    }
}

/// The people a day with label `label` cooks for: its count if that is a
/// number, else `before`, the people of the last `Personen` line.
pub open spec fn day_people(label: Seq<char>, before: usize) -> usize {
    match day_count(label) {
        Some(n) => n,
        None => before,
    }
}

/// What one line of a plan file does to what has been read before it.
pub open spec fn line_effect(st: ReadState, line: Seq<char>) -> ReadState {
    let t = trim(line);
    if starts_with(t, persons_key()) {
        ReadState {
            people: match parse_count(trim(t.skip(9))) {
                Some(n) => n,
                None => 1,
            },
            start: st.start,
            days: st.days,
        }
    } else if starts_with(t, start_key()) {
        ReadState { people: st.people, start: start_from(ymd_of(trim(t.skip(9)))), days: st.days }
    } else {
        let c = find(t, ':');
        if 0 <= c < t.len() && trim(t.take(c)).len() > 0 {
            ReadState {
                people: st.people,
                start: st.start,
                days: st.days.push(menu_entries(t.skip(c + 1), day_people(t.take(c), st.people))),
            }
        } else {
            st
        }
    }
}

/// What the lines of `rest` do, one after the other, to `st`.
pub open spec fn lines_effect(st: ReadState, rest: Seq<char>) -> ReadState
    decreases rest.len(),
{
    let k = find(rest, '\n');
    let next = line_effect(st, rest.take(k));
    if 0 <= k < rest.len() {
        lines_effect(next, rest.skip(k + 1))
    } else {
        next
    }
}

/// Nothing read yet: one person, the default start date, no days.
pub open spec fn empty_read() -> ReadState {
    ReadState { people: 1, start: default_start(), days: Seq::empty() }
}

/// The plan that a plan file's text describes.
pub open spec fn read_plan(text: Seq<char>) -> ReadState {
    lines_effect(empty_read(), text)
}

/// Reads the comma-separated items of a menu.
fn read_menu_items(menu: &Vec<char>, people: usize) -> (r: Vec<MenuEntry>)
    ensures
        r@.map_values(|e: MenuEntry| e@) == menu_items(menu@, people),
{
    let mut acc: Vec<MenuEntry> = Vec::new();
    let mut pos: usize = 0;
    assert(menu@.skip(0) =~= menu@);
    assert(acc@.map_values(|e: MenuEntry| e@) + menu_items(menu@.skip(0), people) =~= menu_items(menu@, people));
    loop
        invariant
            pos <= menu@.len(),
            acc@.map_values(|e: MenuEntry| e@) + menu_items(menu@.skip(pos as int), people) == menu_items(menu@, people),
        decreases menu@.len() - pos,
    {
        let ghost rest = menu@.skip(pos as int);
        let ghost before = acc@.map_values(|e: MenuEntry| e@);
        let k = find_from(menu, pos, ',');
        assert(pos + k <= menu.len());
        let item = copy_range(menu, pos, pos + k);
        assert(item@ =~= rest.take(k as int));
        let ghost here = item_list(item_entry(rest.take(k as int), people));
        match read_item(&item, people) {
            Some(e) => {
                acc.push(e);
                assert(acc@.map_values(|e: MenuEntry| e@) =~= before + here);
            }
            None => {
                assert(acc@.map_values(|e: MenuEntry| e@) =~= before + here);
            }
        }
        if pos + k < menu.len() {
            assert(rest.skip(k + 1) =~= menu@.skip(pos + k + 1));
            assert(menu_items(rest, people) == here + menu_items(rest.skip(k + 1), people));
            assert(before + here + menu_items(rest.skip(k + 1), people) =~= before + (here + menu_items(rest.skip(k + 1), people)));
            pos = pos + k + 1;
        } else {
            assert(menu_items(rest, people) == here);
            return acc;
        }
    }
}

/// Reads a day's menu.
fn read_menu(menu: &Vec<char>, people: usize) -> (r: Vec<MenuEntry>)
    ensures
        r@.map_values(|e: MenuEntry| e@) == menu_entries(menu@, people),
{
    let t = trim_chars(menu);
    let rest_day = chars_of("Reste");
    proof {
        reveal_strlit("Reste");
        assert(rest_day@ =~= rest_word());
    }
    if same_chars(&t, &rest_day) {
        let r: Vec<MenuEntry> = Vec::new();
        assert(r@.map_values(|e: MenuEntry| e@) =~= Seq::<EntryView>::empty());
        r
    } else {
        read_menu_items(menu, people)
    }
}

/// Reads the people count of a day label.
fn read_day_count(label: &Vec<char>) -> (r: Option<usize>)
    ensures
        r == day_count(label@),
{
    let t = trim_chars(label);
    let k = find_from(&t, 0, '(');
    assert(t@.skip(0) =~= t@);
    if t.len() >= 2 && k <= t.len() - 2 && t[t.len() - 1] == ')' {
        let inner = copy_range(&t, k + 1, t.len() - 1);
        parse_count_chars(&inner)
    } else {
        None
    }
}


/// The state of the plan reader.
struct PlanReader {
    people: usize,
    start: PlanDate,
    days: Vec<MenuDay>,
}

impl View for PlanReader {
    type V = ReadState;

    closed spec fn view(&self) -> ReadState {
        ReadState { people: self.people, start: self.start, days: self.days@.map_values(|d: MenuDay| d@) }
    }
}

impl PlanReader {
    /// Reads one line.
    fn read_line(&mut self, line: &Vec<char>)
        ensures
            final(self)@ == line_effect(old(self)@, line@),
    {
        let t = trim_chars(line);
        let persons = chars_of("Personen:");
        let start = chars_of("Starttag:");
        proof {
            reveal_strlit("Personen:");
            reveal_strlit("Starttag:");
            assert(persons@ =~= persons_key());
            assert(start@ =~= start_key());
        }
        if starts_with_chars(&t, &persons) {
            let rest = copy_range(&t, 9, t.len());
            assert(rest@ =~= t@.skip(9));
            let count = trim_chars(&rest);
            self.people = match parse_count_chars(&count) {
                Some(n) => n,
                None => 1,
            };
        } else if starts_with_chars(&t, &start) {
            let rest = copy_range(&t, 9, t.len());
            assert(rest@ =~= t@.skip(9));
            let date = trim_chars(&rest);
            self.start = read_start_date(&date);
        } else {
            let c = find_from(&t, 0, ':');
            assert(t@.skip(0) =~= t@);
            if c < t.len() {
                let label = copy_range(&t, 0, c);
                assert(label@ =~= t@.take(c as int));
                let name = trim_chars(&label);
                if name.len() > 0 {
                    let people = match read_day_count(&label) {
                        Some(n) => n,
                        None => self.people,
                    };
                    let menu = copy_range(&t, c + 1, t.len());
                    assert(menu@ =~= t@.skip(c + 1));
                    let entries = read_menu(&menu, people);
                    let ghost before = self@;
                    self.days.push(MenuDay { entries });
                    assert(self@.days =~= before.days.push(menu_entries(t@.skip(c + 1), people)));
                    assert(self@ == line_effect(old(self)@, line@));
                }
            }
        }
    }
}

/// Reads a plan file's text.
pub fn parse_plan(content: &str) -> (r: MenuPlan)
    ensures
        r@.start == read_plan(content@).start,
        r@.days == read_plan(content@).days,
{
    let text = chars_of(content);
    let mut reader = PlanReader { people: 1, start: PlanDate { year: 2026, month: 1, day: 1 }, days: Vec::new() };
    assert(reader@.days =~= empty_read().days);
    assert(reader@ == empty_read());
    let mut pos: usize = 0;
    assert(text@.skip(0) =~= text@);
    loop
        invariant
            pos <= text.len(),
            text@ == content@,
            lines_effect(reader@, text@.skip(pos as int)) == read_plan(content@),
        decreases text@.len() - pos,
    {
        let ghost rest = text@.skip(pos as int);
        let k = find_from(&text, pos, '\n');
        assert(pos + k <= text.len());
        let line = copy_range(&text, pos, pos + k);
        assert(line@ =~= rest.take(k as int));
        reader.read_line(&line);
        if pos + k < text.len() {
            assert(rest.skip(k + 1) =~= text@.skip(pos + k + 1));
            pos = pos + k + 1;
        } else {
            return MenuPlan { start: reader.start, days: reader.days };
        }
    }
}


/// A line that makes a day: not a people or start date line, and with a
/// colon after a label that is not blank.
pub open spec fn is_day_line(line: Seq<char>) -> bool {
    let t = trim(line);
    &&& !starts_with(t, persons_key())
    &&& !starts_with(t, start_key())
    &&& 0 <= find(t, ':') < t.len()
    &&& trim(t.take(find(t, ':'))).len() > 0
}

/// The number of day lines in `rest`.
pub open spec fn day_line_count(rest: Seq<char>) -> nat
    decreases rest.len(),
{
    let k = find(rest, '\n');
    let here: nat = if is_day_line(rest.take(k)) { 1 } else { 0 };
    if 0 <= k < rest.len() {
        here + day_line_count(rest.skip(k + 1))
    } else {
        here
    }
}

proof fn lemma_lines_effect_days(st: ReadState, rest: Seq<char>)
    ensures
        lines_effect(st, rest).days.len() == st.days.len() + day_line_count(rest),
        lines_effect(st, rest).days.take(st.days.len() as int) == st.days,
    decreases rest.len(),
{
    let k = find(rest, '\n');
    let next = line_effect(st, rest.take(k));
    assert(next.days.len() == st.days.len() + (if is_day_line(rest.take(k)) { 1nat } else { 0nat }));
    assert(next.days.take(st.days.len() as int) =~= st.days);
    if 0 <= k < rest.len() {
        lemma_lines_effect_days(next, rest.skip(k + 1));
        let fin = lines_effect(next, rest.skip(k + 1)).days;
        assert(fin.take(st.days.len() as int) =~= fin.take(next.days.len() as int).take(st.days.len() as int));
    } else {
        assert(next.days.take(next.days.len() as int) =~= next.days);
    }
}

/// A plan file has one day per day line, in order, whatever its menu: a
/// rest day, or a day whose dishes all turn out unknown, is still a day.
pub proof fn law_one_day_per_day_line(text: Seq<char>)
    ensures
        read_plan(text).days.len() == day_line_count(text),
{
    lemma_lines_effect_days(empty_read(), text);
}

/// Reading more lines keeps the days read so far: a day, once read, is not
/// changed by the lines after it.
pub proof fn law_days_read_stay(st: ReadState, rest: Seq<char>)
    ensures
        st.days.len() <= lines_effect(st, rest).days.len(),
        lines_effect(st, rest).days.take(st.days.len() as int) == st.days,
{
    lemma_lines_effect_days(st, rest);
}

/// The own people count of a dish item, if it has one: its number, or 1
/// where that is not a number.
pub open spec fn own_count(item: Seq<char>) -> Option<usize> {
    let inner = trim(item).skip(2);
    match suffix_count(trim(inner.skip(close_at(inner) + 2))) {
        Some(c) => c,
        None => None,
    }
}

/// Who a dish is cooked for: its own count if it has one (1 where that is
/// not a number); else its day's count, if that is a number; else the
/// people of the last `Personen` line before the day (1 where there is
/// none, or where its count is not a number).
pub proof fn law_people_precedence(item: Seq<char>, label: Seq<char>, before: usize)
    ensures
        item_entry(item, day_people(label, before)) matches Some(EntryView::Dish { people, .. }) ==> people == (
        match own_count(item) {
            Some(c) => c,
            None => match day_count(label) {
                Some(e) => e,
                None => before,
            },
        }),
{
}

/// Without a `Personen` line the people count is 1, and without a valid
/// `Starttag` line the start is 2026-01-01; a `Personen` line whose count
/// is not a number sets 1, and a `Starttag` line whose date chrono does not
/// read sets 2026-01-01.
pub proof fn law_defaults(st: ReadState, line: Seq<char>)
    ensures
        empty_read().people == 1,
        empty_read().start == (PlanDate { year: 2026, month: 1, day: 1 }),
        starts_with(trim(line), persons_key()) && parse_count(trim(trim(line).skip(9))) is None
            ==> line_effect(st, line).people == 1,
        !starts_with(trim(line), persons_key()) && starts_with(trim(line), start_key())
            && ymd_of(trim(trim(line).skip(9))) is None
            ==> line_effect(st, line).start == (PlanDate { year: 2026, month: 1, day: 1 }),
{
}

/// The comma-separated items of `s`, in order.
pub open spec fn split_items(s: Seq<char>) -> Seq<Seq<char>>
    decreases s.len(),
{
    let k = find(s, ',');
    if 0 <= k < s.len() {
        seq![s.take(k)] + split_items(s.skip(k + 1))
    } else {
        seq![s]
    }
}

/// The entries that the items give, item after item.
pub open spec fn items_entries(items: Seq<Seq<char>>, people: usize) -> Seq<EntryView>
    decreases items.len(),
{
    if items.len() == 0 {
        Seq::empty()
    } else {
        item_list(item_entry(items[0], people)) + items_entries(items.drop_first(), people)
    }
}

/// A day's menu (other than leftovers) gives the entries of its items, in
/// the order of the items; an item of no known form gives none.
pub proof fn law_menu_is_its_items(menu: Seq<char>, people: usize)
    ensures
        trim(menu) != rest_word() ==> menu_entries(menu, people) == items_entries(split_items(menu), people),
        trim(menu) == rest_word() ==> menu_entries(menu, people) == Seq::<EntryView>::empty(),
    decreases menu.len(),
{
    lemma_menu_items_fold(menu, people);
}

proof fn lemma_menu_items_fold(s: Seq<char>, people: usize)
    ensures
        menu_items(s, people) == items_entries(split_items(s), people),
    decreases s.len(),
{
    let k = find(s, ',');
    let items = split_items(s);
    if 0 <= k < s.len() {
        lemma_menu_items_fold(s.skip(k + 1), people);
        assert(items.drop_first() =~= split_items(s.skip(k + 1)));
        assert(items[0] == s.take(k));
    } else {
        assert(items.drop_first() =~= Seq::<Seq<char>>::empty());
        assert(items_entries(Seq::<Seq<char>>::empty(), people) =~= Seq::<EntryView>::empty());
        assert(item_list(item_entry(s, people)) + Seq::<EntryView>::empty() =~= item_list(item_entry(s, people)));
        assert(s.take(k) =~= s) by {
            lemma_find_in(s, ',');
        }
    }
}


/// The text of a dish item: the name in double brackets, and its people
/// count in parentheses if it has one.
pub open spec fn dish_item_text(name: Seq<char>, count: Option<usize>) -> Seq<char> {
    seq!['[', '['] + name + seq![']', ']'] + match count {
        Some(c) => seq!['('] + decimal(c as nat) + seq![')'],
        None => Seq::empty(),
    }
}

/// Reading a written dish item gives it back: its name, and its own count
/// if it has one, else the people of its day.
pub proof fn law_dish_item_round_trip(name: Seq<char>, count: Option<usize>, people: usize)
    requires
        forall|i: int| 0 <= i < name.len() ==> name[i] != ']',
    ensures
        item_entry(dish_item_text(name, count), people) == Some(EntryView::Dish {
            name,
            people: match count {
                Some(c) => c,
                None => people,
            },
        }),
{
    let suffix = match count {
        Some(c) => seq!['('] + decimal(c as nat) + seq![')'],
        None => Seq::<char>::empty(),
    };
    let t = dish_item_text(name, count);
    assert(t =~= seq!['[', '['] + (name + seq![']', ']'] + suffix));
    assert(t[0] == '[');
    assert(!is_blank(t[0]));
    match count {
        Some(c) => {
            assert(t.last() == ')');
        }
        None => {
            assert(t.last() == ']');
        }
    }
    lemma_trim_unchanged(t);
    assert(t != marker_word()) by {
        assert(t[0] != marker_word()[0]);
    }
    assert(t.take(2) =~= dish_open());
    let inner = t.skip(2);
    assert(inner =~= name + seq![']', ']'] + suffix);
    let k = name.len() as int;
    assert(closes_at(inner, k));
    assert forall|i: int| 0 <= i < k implies !#[trigger] closes_at(inner, i) by {
        assert(inner[i] == name[i]);
    }
    lemma_close_at_found(inner, k);
    assert(inner.take(k) =~= name);
    assert(inner.skip(k + 2) =~= suffix);
    match count {
        Some(c) => {
            law_decimal_base_ten(c as nat);
            law_parse_count_decimal(c);
            assert(suffix[0] == '(');
            assert(suffix.last() == ')');
            lemma_trim_unchanged(suffix);
            assert(suffix.subrange(1, suffix.len() - 1) =~= decimal(c as nat));
        }
        None => {
            assert(trim(suffix) =~= Seq::<char>::empty());
        }
    }
}

/// A `Personen` line sets the people count it names.
pub proof fn law_persons_line(st: ReadState, n: usize)
    ensures
        line_effect(st, persons_key() + seq![' '] + decimal(n as nat)).people == n,
{
    let d = decimal(n as nat);
    law_decimal_base_ten(n as nat);
    law_parse_count_decimal(n);
    let line = persons_key() + seq![' '] + d;
    assert(line[0] == 'P');
    assert(line.last() == d.last());
    assert(!is_blank(d[0]) && !is_blank(d.last())) by {
        assert(is_digit(d[0]) && is_digit(d[d.len() - 1]));
    }
    lemma_trim_unchanged(line);
    assert(line.take(9) =~= persons_key());
    assert(line.skip(9) =~= seq![' '] + d);
    lemma_trim_space(d);
}


/// A day label `<day>(<count>)` gives that count.
pub proof fn law_day_count_round_trip(day: Seq<char>, e: usize)
    requires
        day.len() > 0,
        !is_blank(day[0]),
        forall|i: int| 0 <= i < day.len() ==> day[i] != '(',
    ensures
        day_count(day + seq!['('] + decimal(e as nat) + seq![')']) == Some(e),
{
    let d = decimal(e as nat);
    law_decimal_base_ten(e as nat);
    law_parse_count_decimal(e);
    let label = day + seq!['('] + d + seq![')'];
    assert(label[0] == day[0]);
    assert(label.last() == ')');
    lemma_trim_unchanged(label);
    assert forall|i: int| 0 <= i < day.len() implies label[i] != '(' by {
        assert(label[i] == day[i]);
    }
    assert(label[day.len() as int] == '(');
    lemma_find_is(label, '(', day.len() as int);
    assert(label.subrange(day.len() as int + 1, label.len() - 1) =~= d);
}

/// A `Starttag` line sets the date that chrono reads from its text, or
/// 2026-01-01 where chrono reads none.
pub proof fn law_start_line(st: ReadState, text: Seq<char>)
    requires
        text.len() > 0,
        !is_blank(text[0]),
        !is_blank(text.last()),
    ensures
        line_effect(st, start_key() + seq![' '] + text).start == start_from(ymd_of(text)),
        line_effect(st, start_key() + seq![' '] + text).days == st.days,
{
    let line = start_key() + seq![' '] + text;
    assert(line[0] == 'S');
    assert(line.last() == text.last());
    lemma_trim_unchanged(line);
    assert(!starts_with(line, persons_key())) by {
        assert(line.take(9)[0] != persons_key()[0]);
    }
    assert(line.take(9) =~= start_key());
    assert(line.skip(9) =~= seq![' '] + text);
    lemma_trim_space(text);
}

} // verus!
