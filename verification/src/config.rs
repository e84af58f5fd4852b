//! The routing settings and their defaults.
use vstd::prelude::*;

verus! {

/// What the routing loop reads of the saved configuration.
pub struct RouteSettings {
    /// The node name of the physical microphone; empty when none is chosen.
    pub physical_mic: String,
    /// The application to route, matched without regard to case against the
    /// names of playing streams; empty when none is chosen.
    pub target_app: String,
    /// Whether the virtual microphone and its links are maintained.
    pub enabled: bool,
}

/// The physical microphone of a fresh configuration: none.
pub fn default_physical_mic() -> (r: String)
    ensures
        r@ == Seq::<char>::empty(),
{
    String::new()
}

/// The application routed by a fresh configuration.
pub fn default_target_app() -> (r: String)
    ensures
        r@ == "Brave"@,
{
    String::from_str("Brave")
}

/// A fresh configuration has routing enabled.
pub fn default_enabled() -> (r: bool)
    ensures
        r,
{
    true
}

} // verus!
