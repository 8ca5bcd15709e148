use vstd::prelude::*;

use crate::provider::{same_provider, Provider};
use crate::types::text_eq;

verus! {

/// The configuration as stored: the providers, in the order they were added.
#[derive(Debug, Clone)]
pub struct Config {
    pub providers: Vec<Provider>,
}

/// Errors of the provider configuration.
#[derive(Debug, Clone)]
pub enum ConfigError {
    ProviderNotFoundError(String),
    ProviderAlreadyExistsError(String),
}

pub open spec fn has_provider(s: Seq<Provider>, name: Seq<char>) -> bool {
    exists|i: int| 0 <= i < s.len() && (#[trigger] s[i]).name@ == name
}

/// `i` is the first provider of `s` with the given name.
pub open spec fn first_provider(s: Seq<Provider>, name: Seq<char>, i: int) -> bool {
    &&& 0 <= i < s.len()
    &&& s[i].name@ == name
    &&& forall|j: int| 0 <= j < i ==> (#[trigger] s[j]).name@ != name
}

/// The provider configuration and the path it is saved under. Saving is
/// left to the caller, after each change that succeeds.
pub struct ConfigManager {
    config_path: String,
    configs: Config,
}

impl View for ConfigManager {
    type V = Seq<Provider>;

    closed spec fn view(&self) -> Seq<Provider> {
        self.configs.providers@
    }
}

impl ConfigManager {
    pub fn new(config_path: String, configs: Config) -> (r: ConfigManager)
        ensures
            r@ == configs.providers@,
            r.config_path()@ == config_path@,
    {
        ConfigManager { config_path, configs }
    }

    pub closed spec fn config_path(&self) -> String {
        self.config_path
    }

    /// Where the configuration is saved.
    pub fn path(&self) -> (r: &String)
        ensures
            *r == self.config_path(),
    {
        &self.config_path
    }

    /// The configuration to save.
    pub fn config(&self) -> (r: &Config)
        ensures
            r.providers@ == self@,
    {
        &self.configs
    }

    fn position(&self, name: &str) -> (r: Option<usize>)
        ensures
            r matches Some(i) ==> first_provider(self@, name@, i as int),
            r is None <==> !has_provider(self@, name@),
    {
        let mut i: usize = 0;
        while i < self.configs.providers.len()
            invariant
                i <= self@.len(),
                self@ == self.configs.providers@,
                forall|k: int| 0 <= k < i ==> (#[trigger] self@[k]).name@ != name@,
            decreases self@.len() - i,
        {
            if text_eq(self.configs.providers[i].name.as_str(), name) {
                return Some(i);
            }
            i = i + 1;
        }
        None
    }

    /// Adds a provider whose name is new.
    pub fn add_provider(&mut self, provider: Provider) -> (r: Result<(), ConfigError>)
        ensures
            r is Err <==> has_provider(old(self)@, provider.name@),
            r matches Err(e) ==> (e matches ConfigError::ProviderAlreadyExistsError(t) && t@
                == provider.name@),
            r is Err ==> final(self)@ == old(self)@,
            r is Ok ==> final(self)@ == old(self)@.push(provider),
            final(self).config_path() == old(self).config_path(),
    {
        if self.exists_provider(provider.name.as_str()) {
            return Err(ConfigError::ProviderAlreadyExistsError(provider.name.clone()));
        }
        self.configs.providers.push(provider);
        Ok(())
    }

    /// Whether a provider has the given name.
    pub fn exists_provider(&self, name: &str) -> (r: bool)
        ensures
            r == has_provider(self@, name@),
    {
        self.position(name).is_some()
    }

    /// Every provider, in the order they were added.
    pub fn get_providers(&self) -> (r: Vec<Provider>)
        ensures
            r@.len() == self@.len(),
            forall|i: int| 0 <= i < r@.len() ==> same_provider(#[trigger] r@[i], self@[i]),
    {
        let mut out: Vec<Provider> = Vec::new();
        let mut i: usize = 0;
        while i < self.configs.providers.len()
            invariant
                i <= self@.len(),
                self@ == self.configs.providers@,
                out@.len() == i,
                forall|k: int| 0 <= k < i ==> same_provider(#[trigger] out@[k], self@[k]),
            decreases self@.len() - i,
        {
            out.push(self.configs.providers[i].copy());
            i = i + 1;
        }
        out
    }

    /// The first provider with the given name.
    pub fn get_provider(&self, name: &str) -> (r: Option<Provider>)
        ensures
            r is None <==> !has_provider(self@, name@),
            r matches Some(p) ==> exists|i: int| first_provider(self@, name@, i) && same_provider(p, self@[i]),
    {
        match self.position(name) {
            Some(i) => Some(self.configs.providers[i].copy()),
            None => None,
        }
    }

    /// Replaces the first provider with the given name.
    pub fn update_provider(&mut self, name: &str, provider: Provider) -> (r: Result<(), ConfigError>)
        ensures
            r is Err <==> !has_provider(old(self)@, name@),
            r matches Err(e) ==> (e matches ConfigError::ProviderNotFoundError(t) && t@ == name@),
            r is Err ==> final(self)@ == old(self)@,
            r is Ok ==> exists|i: int|
                first_provider(old(self)@, name@, i) && final(self)@ == old(self)@.update(i, provider),
            final(self).config_path() == old(self).config_path(),
    {
        match self.position(name) {
            Some(i) => {
                self.configs.providers.set(i, provider);
                Ok(())
            },
            None => Err(ConfigError::ProviderNotFoundError(name.to_owned())),
        }
    }

    /// Removes the first provider with the given name.
    pub fn delete_provider(&mut self, name: &str) -> (r: Result<(), ConfigError>)
        ensures
            r is Err <==> !has_provider(old(self)@, name@),
            r matches Err(e) ==> (e matches ConfigError::ProviderNotFoundError(t) && t@ == name@),
            r is Err ==> final(self)@ == old(self)@,
            r is Ok ==> exists|i: int|
                first_provider(old(self)@, name@, i) && final(self)@ == old(self)@.remove(i),
            final(self).config_path() == old(self).config_path(),
    {
        match self.position(name) {
            Some(i) => {
                self.configs.providers.remove(i);
                Ok(())
            },
            None => Err(ConfigError::ProviderNotFoundError(name.to_owned())),
        }
    }
}

} // verus!
