pub mod curve;
