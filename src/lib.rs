//! A namespace of nested modules and items with public/private visibility,
//! and a resolver that answers whether a path names something a given module
//! may see. The `front_of_house` and `back_of_house` modules are the small
//! restaurant namespace the resolver is usually demonstrated on.
use vstd::prelude::*;

pub mod back_of_house;
pub mod front_of_house;
pub mod laws;
pub mod namespace;
pub mod resolver;

verus! {

/// Calls `add_to_waitlist` once through an absolute path and once through a
/// relative one.
pub fn eat_at_restaurant() {
    crate::front_of_house::hosting::add_to_waitlist();
    front_of_house::hosting::add_to_waitlist();
}

/// Reached from `back_of_house` through `super`.
fn deliver_order() {
}

} // verus!
