use vstd::prelude::*;

verus! {

/// The two ways a tree operation can fail: the referenced pane id (or the
/// needed neighbor) does not exist, or a drag would leave a pane with a
/// non-positive extent.
#[derive(Debug, Clone, Copy, PartialEq, Eq, Structural)]
pub enum FlyjaError {
    ElementNotFound,
    DragIllegal,
}

impl FlyjaError {
    /// A short description of the error.
    pub fn message(&self) -> (r: &'static str)
        ensures
            *self == FlyjaError::ElementNotFound ==> r@ == "Not Found Element"@,
            *self == FlyjaError::DragIllegal ==> r@ == "Drag Illegal"@,
    {
        match self {
            FlyjaError::ElementNotFound => "Not Found Element",
            FlyjaError::DragIllegal => "Drag Illegal",
        }
    }
}

} // verus!
