//! Unicode text converter: character maps, star-delimited transforms and the
//! command logic of the converter bot.

pub mod text;
pub mod converter;
pub mod manifest;
pub mod bot;
pub mod generate_images;
