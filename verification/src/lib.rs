pub mod lookup_table_evaluator;
pub mod naive_evaluator;
