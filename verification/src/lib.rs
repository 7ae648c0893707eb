//! Steam account switcher core: Valve KeyValues files, rank ladders, user
//! preferences and the decisions taken on Steam's login files.

pub mod text;
pub mod vdf;
pub mod ranks;
pub mod settings;
pub mod model;
pub mod error;
pub mod accounts;
pub mod autologin;
pub mod metadata;
pub mod pathdetect;
pub mod processes;
pub mod games;
pub mod util;
pub mod playtime;
pub mod presentation;
pub mod state;
pub mod avatars;
pub mod logtail;
