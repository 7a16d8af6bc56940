pub mod bit_utils;
pub mod idokep_client;
