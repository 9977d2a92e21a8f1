pub mod analysis;
pub mod journal;
pub mod naming;
pub mod numeral;
pub mod record;
pub mod text;
