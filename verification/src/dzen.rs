//! The five-colour clock ("dzen clock") application's logic.
pub mod face;
pub mod cycle;
pub mod view;
pub mod clock;
