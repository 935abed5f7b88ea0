//! Ingredients and ingredient lists.

use vstd::prelude::*;
use vstd::std_specs::convert::FromSpecImpl;
use vstd::std_specs::ops::AddSpecImpl;

verus! {

/// One line of a shopping list.
///
/// The amount is kept as the bit pattern of the `f32` it stands for
/// (`f32::to_bits`); the list logic never computes with it.
pub struct Ingredient {
    pub amount_bits: u32,
    pub measure: String,
    pub name: String,
    pub dish: String,
}

impl Clone for Ingredient {
    fn clone(&self) -> (r: Self)
        ensures
            r == *self,
    {
        Ingredient {
            amount_bits: self.amount_bits,
            measure: self.measure.clone(),
            name: self.name.clone(),
            dish: self.dish.clone(),
        }
    }
}

/// Copies a sequence of ingredients, element by element.
pub fn copy_ingredients(v: &Vec<Ingredient>) -> (r: Vec<Ingredient>)
    ensures
        r@ == v@,
{
    let mut r: Vec<Ingredient> = Vec::new();
    for i in 0..v.len()
        invariant
            r@ == v@.take(i as int),
    {
        r.push(v[i].clone());
        assert(r@ =~= v@.take(i + 1));
    }
    assert(v@.take(v@.len() as int) =~= v@);
    r
}

/// A shopping list: ingredients in the order in which they were gathered.
pub struct IngredientList(pub Vec<Ingredient>);

impl View for IngredientList {
    type V = Seq<Ingredient>;

    open spec fn view(&self) -> Seq<Ingredient> {
        self.0@
    }
}

/// The concatenation of a sequence of ingredient sequences.
pub open spec fn concat_all(lists: Seq<Seq<Ingredient>>) -> Seq<Ingredient>
    decreases lists.len(),
{
    if lists.len() == 0 {
        Seq::empty()
    } else {
        concat_all(lists.drop_last()) + lists.last()
    }
}

/// Summing a run of lists that is made of two runs gives the sum of the
/// first run followed by the sum of the second.
pub proof fn law_sum_concat(a: Seq<Seq<Ingredient>>, b: Seq<Seq<Ingredient>>)
    ensures
        concat_all(a + b) == concat_all(a) + concat_all(b),
    decreases b.len(),
{
    if b.len() == 0 {
        assert(a + b =~= a);
        assert(concat_all(a) + concat_all(b) =~= concat_all(a));
    } else {
        law_sum_concat(a, b.drop_last());
        assert((a + b).drop_last() =~= a + b.drop_last());
        assert((a + b).last() == b.last());
        assert(concat_all(a) + concat_all(b) =~= concat_all(a) + concat_all(b.drop_last()) + b.last());
    }
}

/// The sum of no lists is the empty list, and the sum of one list is that
/// list.
pub proof fn law_sum_unit(x: Seq<Ingredient>)
    ensures
        concat_all(Seq::<Seq<Ingredient>>::empty()) == Seq::<Ingredient>::empty(),
        concat_all(seq![x]) == x,
{
    assert(seq![x].drop_last() =~= Seq::<Seq<Ingredient>>::empty());
    assert(concat_all(seq![x]) =~= concat_all(Seq::<Seq<Ingredient>>::empty()) + x);
}

/// Two ingredients of the same kind: the same name and the same measure.
pub open spec fn same_kind(a: Ingredient, b: Ingredient) -> bool {
    a.name@ == b.name@ && a.measure@ == b.measure@
}

/// Whether two ingredients are of the same kind.
fn is_same_kind(a: &Ingredient, b: &Ingredient) -> (r: bool)
    ensures
        r == same_kind(*a, *b),
{
    a.name == b.name && a.measure == b.measure
}

impl IngredientList {
    /// For each ingredient, the position of the first ingredient of its
    /// kind; the kinds, in the order of their first appearance, are the
    /// positions that point to themselves.
    pub fn first_of_kind(&self) -> (r: Vec<usize>)
        ensures
            r@.len() == self@.len(),
            forall|i: int| 0 <= i < r@.len() ==> {
                &&& #[trigger] r@[i] <= i
                &&& same_kind(self@[r@[i] as int], self@[i])
                &&& forall|j: int| 0 <= j < r@[i] ==> !same_kind(self@[j], self@[i])
            },
            // Each ingredient's kind has its name and its measure, and the
            // first earlier ingredient with both is where its kind starts.
            forall|i: int| 0 <= i < r@.len() ==> {
                &&& self@[#[trigger] r@[i] as int].name@ == self@[i].name@
                &&& self@[r@[i] as int].measure@ == self@[i].measure@
            },
            forall|i: int, j: int| 0 <= j < i < r@.len() && (#[trigger] self@[j]).name@ == self@[i].name@
                && self@[j].measure@ == self@[i].measure@ ==> #[trigger] r@[i] <= j,
            forall|i: int, j: int| 0 <= i < r@.len() && 0 <= j < r@.len() && #[trigger] r@[i] == #[trigger] r@[j] ==>
                self@[i].name@ == self@[j].name@ && self@[i].measure@ == self@[j].measure@,
    {
        let mut r: Vec<usize> = Vec::new();
        for i in 0..self.0.len()
            invariant
                r@.len() == i,
                forall|k: int| 0 <= k < i ==> {
                    &&& #[trigger] r@[k] <= k
                    &&& same_kind(self@[r@[k] as int], self@[k])
                    &&& forall|j: int| 0 <= j < r@[k] ==> !same_kind(self@[j], self@[k])
                },
        {
            let mut j: usize = 0;
            while !is_same_kind(&self.0[j], &self.0[i])
                invariant
                    j <= i < self@.len(),
                    forall|m: int| 0 <= m < j ==> !same_kind(self@[m], self@[i as int]),
                decreases i - j,
            {
                assert(j != i);
                j = j + 1;
            }
            r.push(j);
        }
        assert forall|i: int, j: int| 0 <= j < i < r@.len() && (#[trigger] self@[j]).name@ == self@[i].name@
            && self@[j].measure@ == self@[i].measure@ implies #[trigger] r@[i] <= j by {
            assert(same_kind(self@[j], self@[i]));
        }
        assert forall|i: int, j: int| 0 <= i < r@.len() && 0 <= j < r@.len() && #[trigger] r@[i] == #[trigger] r@[j] implies
            self@[i].name@ == self@[j].name@ && self@[i].measure@ == self@[j].measure@ by {
            assert(same_kind(self@[r@[i] as int], self@[i]));
            assert(same_kind(self@[r@[j] as int], self@[j]));
        }
        r
    }

    /// The empty list.
    pub fn new() -> (r: IngredientList)
        ensures
            r@ == Seq::<Ingredient>::empty(),
    {
        IngredientList(Vec::new())
    }

    /// Appends `rhs` behind `self`.
    pub fn append_list(self, rhs: IngredientList) -> (r: IngredientList)
        ensures
            r@ == self@ + rhs@,
    {
        let mut items = self.0;
        let mut more = rhs.0;
        items.append(&mut more);
        IngredientList(items)
    }

    /// Concatenates the lists in order; the empty list when there are none.
    pub fn sum(lists: Vec<IngredientList>) -> (r: IngredientList)
        ensures
            r@ == concat_all(lists@.map_values(|l: IngredientList| l@)),
    {
        let ghost all = lists@;
        let ghost views = lists@.map_values(|l: IngredientList| l@);
        let mut acc = IngredientList::new();
        for l in it: lists
            invariant
                it.seq() == all,
                views == all.map_values(|l: IngredientList| l@),
                acc@ == concat_all(views.take(it.index() as int)),
        {
            proof {
                assert(l == all[it.index() as int]);
                assert(views.take(it.index() + 1).drop_last() =~= views.take(it.index() as int));
            }
            acc = acc.append_list(l);
        }
        assert(views.take(views.len() as int) =~= views);
        acc
    }
}

impl From<Vec<Ingredient>> for IngredientList {
    fn from(v: Vec<Ingredient>) -> (r: IngredientList) {
        IngredientList(v)
    }
}

impl FromSpecImpl<Vec<Ingredient>> for IngredientList {
    open spec fn obeys_from_spec() -> bool {
        true
    }

    open spec fn from_spec(v: Vec<Ingredient>) -> IngredientList {
        IngredientList(v)
    }
}

impl core::ops::Add for IngredientList {
    type Output = IngredientList;

    /// The ingredients of `self`, then those of `rhs`.
    fn add(self, rhs: IngredientList) -> (r: IngredientList)
        ensures
            r@ == self@ + rhs@,
    {
        self.append_list(rhs)
    }
}

// A list is not determined by its contents in spec code (two vectors with
// the same elements need not be equal values), so `add` is described by its
// own `ensures` above and not through `add_spec`.
impl AddSpecImpl for IngredientList {
    open spec fn obeys_add_spec() -> bool {
        false
    }

    open spec fn add_req(self, rhs: IngredientList) -> bool {
        true
    }

    open spec fn add_spec(self, rhs: IngredientList) -> IngredientList {
        vstd::pervasive::arbitrary()
    }
}

} // verus!
