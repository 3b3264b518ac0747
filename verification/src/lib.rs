//! Paper ecash analytics: decoding of fedimint out-of-band ecash notes,
//! bookkeeping of note sets and paper notes, and the text formatting used
//! to present them.

pub mod text;
pub mod utils;
pub mod external;
pub mod models;
pub mod state;
pub mod api;
pub mod components;
pub mod features;
