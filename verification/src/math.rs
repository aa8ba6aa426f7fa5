pub mod series;
