pub mod dispatch;
pub mod engine;
pub mod handle;
pub mod keys;

pub use dispatch::{collect_dispatches, Dispatch, Slot};
pub use engine::{RegisterError, XGEngine};
pub use handle::WeakRef;
pub use keys::keygen;
