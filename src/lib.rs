//! An owned XML element tree built from a stream of parse events.
pub mod builder;
pub mod element;
pub mod laws;
pub mod xml;

pub use builder::{build_from_events, BuildError, TreeBuilder, XmlEvent};
pub use element::{AttributeValue, Attributes, Element};
pub use xml::{decode_event, RawEvent};
