//! Core of Stratum Modern: the file formats of Stratum 2000, the modelling
//! language's lexer and type rules, raster images and the guards of the local
//! player server.

pub mod command;
pub mod formats;
pub mod gfx;
pub mod lang;
pub mod numfloat;
pub mod numtext;
pub mod player;
pub mod stdx;
pub mod text;
