pub mod shared;
pub mod field;
pub mod record;
pub mod group;
pub mod cell;
pub mod world;
pub mod reference;
pub mod model;
pub mod virtual_machine_adapter;
