pub mod aabb;
