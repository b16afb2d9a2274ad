//! Plain types shared by support generation.
use vstd::prelude::*;

verus! {

/// Classification of a support by the volume of material above its contact.
#[derive(Debug, Clone, PartialEq, Eq, Structural)]
pub enum SupportType {
    Light,
    Medium,
    Heavy,
}

} // verus!
