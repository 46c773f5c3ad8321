use vstd::prelude::*;

pub mod compiler;
pub mod fan_in;
pub mod graph;
pub mod identifier;
pub mod interpreter;
pub mod logic_block;
pub mod node;
pub mod reload;
pub mod storing_block;
pub mod text;

pub use compiler::{analyse_links_part, apply_variable, compile_source, is_valid_condition, CompileError};
pub use graph::{ChangeValue, Graph, GraphError, NodeAction};
pub use interpreter::{init_map_from_text, parse_object, LoadError};
pub use logic_block::LogicBlock;
pub use node::Node;
pub use storing_block::StoringBlock;

verus! {

} // verus!
