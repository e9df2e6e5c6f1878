//! Verified core of DeskTag: label text, inline rename buffer, badge
//! position model and its on-disk form, theme palette, icon byte layouts
//! and the badge window's decisions.

pub mod text;
pub mod position;
pub mod label;
pub mod edit;
pub mod theme;
pub mod icon;
pub mod config;
pub mod desktop;
pub mod badge;
