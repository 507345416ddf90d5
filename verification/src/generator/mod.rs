pub mod er;
