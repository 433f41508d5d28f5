use vstd::prelude::*;

pub mod wire;
pub mod schema;
pub mod codec;
pub mod envelope;
pub mod service;
pub mod store;



verus! {

/// Marker trait that generated types may implement to opt into
/// extra behaviour provided by an outside module.
pub trait NoTrait {
}

} // verus!
