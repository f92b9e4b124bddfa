pub mod extent;
pub mod aabb_2d;
pub mod aabb_3d;
pub mod index_list;
pub mod optimise_world;
pub mod rectangle;
