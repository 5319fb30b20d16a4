pub mod lookup_table;
pub mod lookup_table_generation;
