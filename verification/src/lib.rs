pub mod chunk;
pub mod freelist;
pub mod model;
pub mod pool;
pub mod util;
