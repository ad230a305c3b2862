use vstd::prelude::*;

pub mod api;
pub mod config;
pub mod html;
pub mod notify;
pub mod popup;
pub mod protocol;
pub mod screen;
pub mod server;
pub mod single;
pub mod text;
pub mod user_path;
pub mod window_icon;

verus! {

} // verus!
