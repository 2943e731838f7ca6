pub mod component_group;
pub mod component_group_store;
pub mod lemmas;

pub use component_group::{
    Component, ComponentGroup, IntoComponentGroup, IntoComponentGroupKey, TypeKey,
};
pub use component_group_store::{ComponentGroupStore, IntoComponentGroupPush};
