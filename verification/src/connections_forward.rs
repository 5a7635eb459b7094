pub mod connections_forward_trait;
pub mod hash_connections_forward;
pub(crate) mod private;
pub mod vec_connections_forward;
