pub mod bootstrap;
pub mod chase;
pub mod commands;
pub mod condition;
pub mod events;
pub mod industry;
pub mod keys;
pub mod text;
pub mod politics;
pub mod queueing;
pub mod scheduler;
pub mod shrine;
pub mod simulation;
pub mod systems;
pub mod time;
