pub mod ft8_decode;
pub mod heartbeat_to_radio;
pub mod radio_bridge_to_pc;
pub mod tx_control;
