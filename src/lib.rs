pub mod text;
pub mod path;
pub mod model;
pub mod render;
pub mod paging;
pub mod section;
pub mod nav;
pub mod docs;
pub mod db;
