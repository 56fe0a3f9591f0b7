pub mod recipe_select;
