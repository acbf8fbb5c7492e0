pub mod spi;
