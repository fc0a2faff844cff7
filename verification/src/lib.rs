//! The core of a MangaDex downloader.
//!
//! Nothing here talks to the network or touches the disk. The crate decides
//! what a program that does has to do next, and says exactly what comes out:
//!
//! - [`listing`] puts the chapter list of a series together from the pages of
//!   the paginated catalog, one page at a time;
//! - [`pages`] plans the download of a chapter: the address of every page and
//!   the name of the file that keeps it;
//! - [`manga`] picks the title of a series and holds the series;
//! - [`fs`] and [`text`] make the names of files and directories;
//! - [`location`] resolves page addresses;
//! - [`client`] holds the limits a client of the catalog keeps to.

pub mod chapter;
pub mod client;
pub mod error;
pub mod fs;
pub mod listing;
pub mod location;
pub mod manga;
pub mod pages;
pub mod text;

pub use chapter::{Chapter, ChapterRecord};
pub use error::{Error, ErrorKind};
pub use listing::{ChapterList, ChapterPage, ListProgress};
pub use manga::{LocalizedTitle, Manga};
pub use pages::{AtHome, PageAction, PageDownload};
