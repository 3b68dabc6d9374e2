//! A page-table, DMA scatter-list and boot-mapping library whose behaviour is
//! stated in contracts and proved with Verus.
use vstd::prelude::*;

pub mod layout;
pub mod table;
pub mod dma;
pub mod boot;
pub mod walker;
