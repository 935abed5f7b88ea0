//! A dish of the plan, as loaded from its recipe file.

use vstd::prelude::*;
use crate::types::{Ingredient, copy_ingredients};

verus! {

/// A dish, scaled for the people it is cooked for.
///
/// `markdown` is the dish's recipe as it is shown in the dish overview; it
/// is rendered when the dish is loaded, as the amounts are printed there.
pub struct Dish {
    pub name: String,
    pub people: usize,
    pub ingredients: Vec<Ingredient>,
    pub markdown: String,
}

impl Dish {
    /// What has to be bought for this dish.
    pub fn shopping_list(&self) -> (r: Vec<Ingredient>)
        ensures
            r@ == self.ingredients@,
    {
        copy_ingredients(&self.ingredients)
    }

    /// The dish's recipe in markdown.
    pub fn as_markdown(&self) -> (r: String)
        ensures
            r@ == self.markdown@,
    {
        self.markdown.clone()
    }
}

} // verus!
