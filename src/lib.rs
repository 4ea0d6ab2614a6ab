//! Planning of the on-disk layout of an EPUB book, the cookie store that
//! authenticates requests, and the small decisions around fetching a book.
pub mod cli;
pub mod cookies;
pub mod epub;
pub mod orly;
pub mod text;

pub use cli::{Args, ArgsError};
pub use cookies::{CookieEntry, CookieStore};
pub use epub::{root_name, truncate_utf8_by_byte, EpubSkeleton};
pub use orly::{book_api_url, BookInfo};
pub use text::{clean_filename, sanitize_filename};
