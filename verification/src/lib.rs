//! Busca aproximada de logradouros brasileiros por n-gramas.
pub mod busca_fuzzy;
