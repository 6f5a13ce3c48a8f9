use vstd::prelude::*;

verus! {

/// Path of the root of all provider registrations under each scope's root.
pub const ROOT_KEY: &'static str = "Software\\Classes\\Installer\\Dependencies";

/// Name of the node below a provider whose children name its dependents.
pub const DEPENDENTS_KEY: &'static str = "Dependents";

/// Name of the value that holds a provider's display name.
pub const DISPLAY_NAME_VALUE: &'static str = "DisplayName";

/// Name of the value that holds a provider's version.
pub const VERSION_VALUE: &'static str = "Version";

/// Name of the value that holds a provider's attribute flags.
pub const ATTRIBUTES_VALUE: &'static str = "Attributes";

/// Name of a node's unnamed value, which holds a provider's external id.
pub const DEFAULT_VALUE: &'static str = "";

} // verus!
