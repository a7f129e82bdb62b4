pub mod ident;
pub mod addr;
pub mod table;
pub mod store;
pub mod lookup;
pub mod scheduler;
