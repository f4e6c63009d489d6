pub mod components;
pub mod damage_system;
pub mod geometry;
pub mod map;
pub mod melee_combat_system;
pub mod monster_ai_system;
pub mod rng;
pub mod visibility_system;
