//! Layout-aware extraction of payment metadata from rendered page markup.
//!
//! The library turns a page's rendered markup into positioned text
//! candidates, classifies them as due dates or payment codes, ranks them by
//! proximity to the page's coordinate origin, pairs the two rankings per
//! page, normalizes dates, extracts payment codes from decoded barcode
//! payloads, and attaches a date to each decoded barcode whose embedded code
//! was seen on a page.

pub mod date;
pub mod enrich;
pub mod grammar;
pub mod markup;
pub mod num;
pub mod pages;
pub mod rank;
pub mod style;
pub mod text;
