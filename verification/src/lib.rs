pub mod addr;
pub mod balance_heap;
pub mod balancer;
pub mod ord;
pub mod session;
