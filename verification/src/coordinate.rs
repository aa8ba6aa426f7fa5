pub mod spherical;
