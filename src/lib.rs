//! A CRC-16/XMODEM checksum engine and a leading-zero count on 32-bit
//! signed integers, both verified against mathematical models.
pub mod bits;
pub mod crc16;
