pub mod bands;
pub mod course_laws;
pub mod hunt_laws;
pub mod location;
pub mod log_laws;
pub mod notion_logger;
pub mod psk_reporter;
pub mod qso_auto_hunter;
pub mod qso_auto_once;
pub mod qso_utils;
