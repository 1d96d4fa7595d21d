//! Small codes from the GUAVA database.
pub mod guava_7_2;
pub mod guava_9_6;
pub mod guava_10_5;
pub mod guava_11_7;
