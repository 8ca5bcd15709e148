use vstd::prelude::*;

verus! {

/// Names the platform credential-store entries that hold providers' API
/// keys. Reading and writing the store itself is done by the caller.
#[derive(Debug, Clone)]
pub struct KeyManager {
    service_name: String,
}

impl KeyManager {
    pub fn new(service_name: String) -> (r: KeyManager)
        ensures
            r.service()@ == service_name@,
    {
        KeyManager { service_name }
    }

    pub closed spec fn service(&self) -> String {
        self.service_name
    }

    /// The service under which keys are stored.
    pub fn service_name(&self) -> (r: &str)
        ensures
            r@ == self.service()@,
    {
        self.service_name.as_str()
    }

    /// The credential name of a provider's key: `config.provider.<name>.key`.
    pub fn get_credential_name(&self, name: &str) -> (r: String)
        ensures
            r@ == "config.provider."@ + name@ + ".key"@,
    {
        String::from_str("config.provider.").concat(name).concat(".key")
    }
}

} // verus!
