pub mod adpcm;
pub mod flow;
pub mod waterfall;
