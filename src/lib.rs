//! Wish history export for a game client: finding the history URL in the
//! web cache, normalizing it, paging through the history endpoint, and
//! building the interchange (UIGF) document.

pub mod cache;
pub mod gacha_url;
pub mod log;
pub mod text;
pub mod uigf;
