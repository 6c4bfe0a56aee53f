//! A backend-agnostic reactive UI core.
//!
//! A declarative tree of widget descriptors is turned into a persistent
//! mounted tree, which is brought in line with fresh descriptors pass by
//! pass. Only the parts whose dependencies changed are invoked again.
pub mod backend;
pub mod cleanups;
pub mod copies;
pub mod dispatch;
pub mod driver;
pub mod effect_order;
pub mod effects;
pub mod hooks;
pub mod identity;
pub mod idle;
pub mod model;
pub mod mounted;
pub mod names;
pub mod node;
pub mod pairing;
pub mod reconcile;
pub mod render;
pub mod shape;
pub mod stability;
pub mod tickets;

pub use backend::UiBackend;
pub use dispatch::DynEffectFunc;
pub use dispatch::DynWidgetFunc;
pub use dispatch::EffectFunc;
pub use dispatch::WidgetFunc;
pub use driver::Application;
pub use hooks::Store;
pub use hooks::StoreId;
pub use hooks::WidgetParam;
pub use model::Deferred;
pub use mounted::InternalContext;
pub use mounted::MountedWidgetNode;
pub use node::IntOrString;
pub use node::WidgetComponent;
pub use node::WidgetEffectComponent;
pub use node::WidgetNode;
pub use node::WidgetNodeGroup;
pub use render::RenderNode;
