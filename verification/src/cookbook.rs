//! The cookbook: an index from dish names to the files that hold them.

use vstd::prelude::*;

verus! {

/// The index that a sequence of `(name, location)` entries describes:
/// every name maps to the location of its last entry.
pub open spec fn entries_index<P>(entries: Seq<(String, P)>) -> Map<Seq<char>, P>
    decreases entries.len(),
{
    if entries.len() == 0 {
        Map::empty()
    } else {
        entries_index(entries.drop_last()).insert(entries.last().0@, entries.last().1)
    }
}

/// A name that is given in the entries leads to the location of its last
/// entry.
pub proof fn law_last_entry_wins<P>(entries: Seq<(String, P)>, i: int)
    requires
        0 <= i < entries.len(),
        forall|j: int| i < j < entries.len() ==> #[trigger] entries[j].0@ != entries[i].0@,
    ensures
        entries_index(entries).contains_key(entries[i].0@),
        entries_index(entries)[entries[i].0@] == entries[i].1,
    decreases entries.len(),
{
    if i < entries.len() - 1 {
        assert forall|j: int| i < j < entries.drop_last().len() implies #[trigger] entries.drop_last()[j].0@ != entries.drop_last()[i].0@ by {
            assert(entries[j].0@ != entries[i].0@);
        }
        law_last_entry_wins(entries.drop_last(), i);
        assert(entries[entries.len() - 1].0@ != entries[i].0@);
    }
}

/// A name that no entry gives is not in the index.
pub proof fn law_unknown_name<P>(entries: Seq<(String, P)>, name: Seq<char>)
    requires
        forall|j: int| 0 <= j < entries.len() ==> #[trigger] entries[j].0@ != name,
    ensures
        !entries_index(entries).contains_key(name),
    decreases entries.len(),
{
    if entries.len() > 0 {
        assert forall|j: int| 0 <= j < entries.drop_last().len() implies #[trigger] entries.drop_last()[j].0@ != name by {
            assert(entries[j].0@ != name);
        }
        law_unknown_name(entries.drop_last(), name);
        assert(entries[entries.len() - 1].0@ != name);
    }
}

/// No name occurs twice among the entries.
pub open spec fn names_distinct<P>(s: Seq<(String, P)>) -> bool {
    forall|i: int, j: int| 0 <= i < j < s.len() ==> #[trigger] s[i].0@ != #[trigger] s[j].0@
}

/// The map from names to locations that distinct-named entries spell out.
pub open spec fn lookup_map<P>(s: Seq<(String, P)>) -> Map<Seq<char>, P> {
    Map::new(
        |name: Seq<char>| exists|i: int| 0 <= i < s.len() && #[trigger] s[i].0@ == name,
        |name: Seq<char>| s[choose|i: int| 0 <= i < s.len() && #[trigger] s[i].0@ == name].1,
    )
}

proof fn lemma_lookup_at<P>(s: Seq<(String, P)>, i: int)
    requires
        names_distinct(s),
        0 <= i < s.len(),
    ensures
        lookup_map(s).contains_key(s[i].0@),
        lookup_map(s)[s[i].0@] == s[i].1,
{
    let name = s[i].0@;
    assert(exists|k: int| 0 <= k < s.len() && #[trigger] s[k].0@ == name);
    let j = choose|k: int| 0 <= k < s.len() && #[trigger] s[k].0@ == name;
    if j != i {
        if j < i {
            assert(s[j].0@ != s[i].0@);
        } else {
            assert(s[i].0@ != s[j].0@);
        }
    }
}

proof fn lemma_lookup_update<P>(s: Seq<(String, P)>, i: int, e: (String, P))
    requires
        names_distinct(s),
        0 <= i < s.len(),
        s[i].0@ == e.0@,
    ensures
        names_distinct(s.update(i, e)),
        lookup_map(s.update(i, e)) == lookup_map(s).insert(e.0@, e.1),
{
    let t = s.update(i, e);
    assert forall|a: int, b: int| 0 <= a < b < t.len() implies #[trigger] t[a].0@ != #[trigger] t[b].0@ by {
        assert(s[a].0@ != s[b].0@);
    }
    assert forall|name: Seq<char>|
        lookup_map(t).contains_key(name) <==> lookup_map(s).insert(e.0@, e.1).contains_key(name) by {
        if lookup_map(s).contains_key(name) {
            let k = choose|k: int| 0 <= k < s.len() && #[trigger] s[k].0@ == name;
            assert(t[k].0@ == name);
        }
        if lookup_map(t).contains_key(name) {
            let k = choose|k: int| 0 <= k < t.len() && #[trigger] t[k].0@ == name;
            assert(s[k].0@ == name);
        }
    }
    assert forall|name: Seq<char>| #[trigger] lookup_map(t).contains_key(name) implies
        lookup_map(t)[name] == lookup_map(s).insert(e.0@, e.1)[name] by {
        let k = choose|k: int| 0 <= k < t.len() && #[trigger] t[k].0@ == name;
        lemma_lookup_at(t, k);
        if k != i {
            lemma_lookup_at(s, k);
        }
    }
    assert(lookup_map(t) =~= lookup_map(s).insert(e.0@, e.1));
}

proof fn lemma_lookup_push<P>(s: Seq<(String, P)>, e: (String, P))
    requires
        names_distinct(s),
        forall|k: int| 0 <= k < s.len() ==> #[trigger] s[k].0@ != e.0@,
    ensures
        names_distinct(s.push(e)),
        lookup_map(s.push(e)) == lookup_map(s).insert(e.0@, e.1),
{
    let t = s.push(e);
    assert forall|a: int, b: int| 0 <= a < b < t.len() implies #[trigger] t[a].0@ != #[trigger] t[b].0@ by {
        if b < s.len() {
            assert(s[a].0@ != s[b].0@);
        }
    }
    assert forall|name: Seq<char>|
        lookup_map(t).contains_key(name) <==> lookup_map(s).insert(e.0@, e.1).contains_key(name) by {
        if lookup_map(s).contains_key(name) {
            let k = choose|k: int| 0 <= k < s.len() && #[trigger] s[k].0@ == name;
            assert(t[k].0@ == name);
        }
        if name == e.0@ {
            assert(t[s.len() as int].0@ == name);
        }
        if lookup_map(t).contains_key(name) {
            let k = choose|k: int| 0 <= k < t.len() && #[trigger] t[k].0@ == name;
            if k < s.len() {
                assert(s[k].0@ == name);
            }
        }
    }
    assert forall|name: Seq<char>| #[trigger] lookup_map(t).contains_key(name) implies
        lookup_map(t)[name] == lookup_map(s).insert(e.0@, e.1)[name] by {
        let k = choose|k: int| 0 <= k < t.len() && #[trigger] t[k].0@ == name;
        lemma_lookup_at(t, k);
        if k < s.len() {
            lemma_lookup_at(s, k);
        }
    }
    assert(lookup_map(t) =~= lookup_map(s).insert(e.0@, e.1));
}

/// All dishes known by name; `P` is how a dish file is located.
pub struct CookBook<P> {
    dishes: Vec<(String, P)>,
}

impl<P> CookBook<P> {
    /// No name is stored twice.
    #[verifier::type_invariant]
    spec fn names_unique(self) -> bool {
        names_distinct(self.dishes@)
    }

    /// The dishes by name.
    pub closed spec fn index(self) -> Map<Seq<char>, P> {
        lookup_map(self.dishes@)
    }

    /// Where `name` is stored, if it is.
    fn position(&self, name: &String) -> (r: Option<usize>)
        ensures
            match r {
                Some(i) => i < self.dishes@.len() && self.dishes@[i as int].0@ == name@,
                None => forall|k: int| 0 <= k < self.dishes@.len() ==> #[trigger] self.dishes@[k].0@ != name@,
            },
    {
        let mut i: usize = 0;
        while i < self.dishes.len()
            invariant
                i <= self.dishes@.len(),
                forall|k: int| 0 <= k < i ==> #[trigger] self.dishes@[k].0@ != name@,
            decreases self.dishes@.len() - i,
        {
            if self.dishes[i].0 == *name {
                return Some(i);
            }
            i = i + 1;
        }
        None
    }

    /// Indexes the dish files by name: `entries` holds, for each file, the
    /// dish name (the file's stem) and the file's location. Where a name
    /// occurs more than once, its last entry wins.
    pub fn from_file(entries: Vec<(String, P)>) -> (r: CookBook<P>)
        ensures
            r@ == entries_index(entries@),
    {
        let mut book = CookBook { dishes: Vec::new() };
        assert(book.index() =~= Map::<Seq<char>, P>::empty());
        let ghost all = entries@;
        for e in it: entries
            invariant
                it.seq() == all,
                book.index() == entries_index(all.take(it.index() as int)),
        {
            proof {
                use_type_invariant(&book);
                assert(e == all[it.index() as int]);
                assert(all.take(it.index() + 1).drop_last() =~= all.take(it.index() as int));
            }
            match book.position(&e.0) {
                Some(i) => {
                    proof {
                        lemma_lookup_update(book.dishes@, i as int, e);
                    }
                    let mut dishes = book.dishes;
                    dishes.set(i, e);
                    book = CookBook { dishes };
                }
                None => {
                    proof {
                        lemma_lookup_push(book.dishes@, e);
                    }
                    let mut dishes = book.dishes;
                    dishes.push(e);
                    book = CookBook { dishes };
                }
            }
        }
        assert(all.take(all.len() as int) =~= all);
        book
    }

    /// The location of the dish called `name`, if the cookbook knows it.
    pub fn get(&self, name: &str) -> (r: Option<&P>)
        ensures
            match r {
                Some(p) => self@.contains_key(name@) && *p == self@[name@],
                None => !self@.contains_key(name@),
            },
    {
        proof {
            use_type_invariant(self);
        }
        let key = String::from_str(name);
        match self.position(&key) {
            Some(i) => {
                proof {
                    lemma_lookup_at(self.dishes@, i as int);
                }
                Some(&self.dishes[i].1)
            }
            None => None,
        }
    }
}

impl<P> View for CookBook<P> {
    type V = Map<Seq<char>, P>;

    open spec fn view(&self) -> Map<Seq<char>, P> {
        self.index()
    }
}

} // verus!
