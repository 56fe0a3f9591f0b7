pub mod panels;
