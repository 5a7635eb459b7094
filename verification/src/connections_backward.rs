pub mod connections_backward_trait;
pub mod hash_connections_backward;
pub(crate) mod private;
pub mod vec_connections_backward;
