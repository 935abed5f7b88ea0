//! Weekly meal plans: the menu grammar, the cookbook index, and the
//! shopping lists and dish overview that a plan yields.

pub mod text;
pub mod types;
pub mod cookbook;
pub mod dish;
pub mod plan;
pub mod menu;
pub mod loading;
pub mod recipe;
