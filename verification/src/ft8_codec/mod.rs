pub mod candidates;
pub mod code;
pub mod gf2;
pub mod ldpc_decoder;
pub mod messages;
pub mod osd;
pub mod packjt77;
pub mod ranking;
pub mod subtraction;
pub mod symbols;
pub mod wav_reader;
