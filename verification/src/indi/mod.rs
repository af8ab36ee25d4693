pub mod base64;
pub mod props;
pub mod drivers;
pub mod base64_encoding;
pub mod drivers_xml;
