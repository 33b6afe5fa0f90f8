//! The diagram models: class diagrams and sequence diagrams.

pub mod class;
pub mod sequence;

pub use class::Class;
pub use class::ClassElement;
pub use class::ClassLayout;
pub use class::ClassMethod;
pub use class::ClassNode;
pub use class::ClassUML;
pub use sequence::Edge;
pub use sequence::Node;
pub use sequence::Sequence;
