//! The macros tab: editing a macro where it lives - its steps, or its graph of nodes - and the questions its
//! `if` nodes ask.

pub mod cond;
pub mod edit;
pub mod graph;

pub use cond::{
    describe_question, op_from_text, op_words, Compare, Cond, ConditionForm, Question, QuestionRow,
};
pub use graph::{
    add_source, box_text, callable, describe_port, join_all, macro_file_id, new_node, node_number, node_words,
    parse_u32, port_target, ports_of_kind, readable_names, remove_node, remove_source, set_node_number, set_port,
    set_source, sort_rows, steps_as_chain, value_names, GraphEdge, GraphNode, KeyMode, MacroGraph, MacroRow,
    MacroStep, Names, NodeKind, Played,
};
