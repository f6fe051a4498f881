//! Hard-link property page library.
//!
//! The verified core of a shell extension that lists the hard links of a
//! file: enumeration of link names through the platform's growable-buffer
//! cursor protocol, collection of qualifying files from a selection,
//! formatting of the page text, and the ownership discipline of the page's
//! lifetime-tracking allocation. Paths are carried as UTF-16 code units,
//! the form in which the host hands them over and takes them back.

pub mod dlg;
pub mod hardlink;
pub mod path;
pub mod shellext;
pub mod util;
