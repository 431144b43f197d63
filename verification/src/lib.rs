//! Core logic of a pixel-font desktop clock that also lists a GitHub
//! user's open pull requests: text handling, the pixel glyph font and its
//! layout, time formatting, icon masking, the GitHub reply handling and the
//! clock's control decisions.

pub mod text;
pub mod jira;
pub mod glyph;
pub mod clock;
pub mod icon;
pub mod speckle;
pub mod token;
pub mod json;
pub mod github;
pub mod wrap;
pub mod controls;
pub mod pattern;
