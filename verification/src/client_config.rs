//! OAuth client credentials.

use vstd::prelude::*;

verus! {

/// The OAuth "desktop application" client: its id and its secret.
#[derive(Debug, Clone)]
pub struct ClientConfig {
    pub client_id: String,
    pub client_secret: String,
}

} // verus!
