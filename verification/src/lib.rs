//! A small web site's server logic: reading requests, rendering blog
//! posts, and keeping a feed of watched pages.
pub mod blog;
pub mod bytes;
pub mod feed;
pub mod feed_laws;
pub mod feed_page;
pub mod feed_sort;
pub mod http;
pub mod math;
pub mod reader;
pub mod reader_laws;
pub mod response;
pub mod route;
pub mod site_hash;
pub mod unicode;
