//! A router: templates such as `/product/{id}`, each bound to a route key, are kept in a
//! prefix tree against which paths are matched and from which paths are made.

pub mod route_node;
pub mod router;
pub mod string_utility;
pub mod template;
