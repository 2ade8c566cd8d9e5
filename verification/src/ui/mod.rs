pub mod context_menu;
pub mod dir_tree;
pub mod ext_list;
pub mod treemap_view;
