//! Tsuro: signature inspection for PDF files and the reader's pure logic.

use vstd::prelude::*;

pub mod der;
pub mod text;
pub mod x509;
pub mod crypto;
pub mod sign;
pub mod cms;
pub mod verify;
pub mod pdf;
pub mod pdfsig;
pub mod pdfload;
pub mod browse;
pub mod kiri;
pub mod prefs;
pub mod page;
pub mod print;
pub mod search;
pub mod session;
pub mod spool;
pub mod cache;
pub mod lifecycle;
pub mod render;

verus! {

} // verus!
