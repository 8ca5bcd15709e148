use vstd::prelude::*;

use crate::model::{same_model, Model};
use crate::types::text_eq;

verus! {

/// A model provider: an API endpoint and the models it serves, by name.
#[derive(Debug, Clone)]
pub struct Provider {
    pub name: String,
    pub display_name: String,
    pub base_url: String,
    pub models: Vec<Model>,
}

/// Errors of a provider's model list.
#[derive(Debug, Clone)]
pub enum ProviderError {
    ModelNotFoundError(String),
    ModelAlreadyExistError(String),
}

/// Two providers that hold the same values.
pub open spec fn same_provider(a: Provider, b: Provider) -> bool {
    &&& a.name == b.name
    &&& a.display_name == b.display_name
    &&& a.base_url == b.base_url
    &&& a.models@.len() == b.models@.len()
    &&& forall|i: int| 0 <= i < a.models@.len() ==> same_model(#[trigger] a.models@[i], b.models@[i])
}

pub open spec fn has_model(s: Seq<Model>, name: Seq<char>) -> bool {
    exists|i: int| 0 <= i < s.len() && (#[trigger] s[i]).metadata.name@ == name
}

/// `i` is the first model of `s` with the given name.
pub open spec fn first_model(s: Seq<Model>, name: Seq<char>, i: int) -> bool {
    &&& 0 <= i < s.len()
    &&& s[i].metadata.name@ == name
    &&& forall|j: int| 0 <= j < i ==> (#[trigger] s[j]).metadata.name@ != name
}

impl Provider {
    pub fn copy(&self) -> (r: Provider)
        ensures
            same_provider(r, *self),
    {
        let mut models: Vec<Model> = Vec::new();
        let mut i: usize = 0;
        while i < self.models.len()
            invariant
                i <= self.models.len(),
                models@.len() == i,
                forall|k: int| 0 <= k < i ==> same_model(#[trigger] models@[k], self.models@[k]),
            decreases self.models.len() - i,
        {
            models.push(self.models[i].copy());
            i = i + 1;
        }
        Provider {
            name: self.name.clone(),
            display_name: self.display_name.clone(),
            base_url: self.base_url.clone(),
            models,
        }
    }

    fn position(&self, name: &str) -> (r: Option<usize>)
        ensures
            r matches Some(i) ==> first_model(self.models@, name@, i as int),
            r is None <==> !has_model(self.models@, name@),
    {
        let mut i: usize = 0;
        while i < self.models.len()
            invariant
                i <= self.models.len(),
                forall|k: int| 0 <= k < i ==> (#[trigger] self.models@[k]).metadata.name@ != name@,
            decreases self.models.len() - i,
        {
            if text_eq(self.models[i].metadata.name.as_str(), name) {
                return Some(i);
            }
            i = i + 1;
        }
        None
    }

    /// Adds a model whose name is new to this provider.
    pub fn add_model(&mut self, model: Model) -> (r: Result<(), ProviderError>)
        ensures
            r is Err <==> has_model(old(self).models@, model.metadata.name@),
            r matches Err(e) ==> (e matches ProviderError::ModelAlreadyExistError(t) && t@
                == model.metadata.name@),
            r is Err ==> *final(self) == *old(self),
            r is Ok ==> final(self).models@ == old(self).models@.push(model),
            final(self).name == old(self).name,
            final(self).display_name == old(self).display_name,
            final(self).base_url == old(self).base_url,
    {
        if self.position(model.metadata.name.as_str()).is_some() {
            return Err(ProviderError::ModelAlreadyExistError(model.metadata.name.clone()));
        }
        self.models.push(model);
        Ok(())
    }

    /// The first model with the given name.
    pub fn get_model(&self, name: &str) -> (r: Option<&Model>)
        ensures
            r is None <==> !has_model(self.models@, name@),
            r matches Some(m) ==> exists|i: int| first_model(self.models@, name@, i) && *m == self.models@[i],
    {
        match self.position(name) {
            Some(i) => Some(&self.models[i]),
            None => None,
        }
    }

    /// Replaces the first model with the given name.
    pub fn update_model(&mut self, name: &str, model: Model) -> (r: Result<(), ProviderError>)
        ensures
            r is Err <==> !has_model(old(self).models@, name@),
            r matches Err(e) ==> (e matches ProviderError::ModelNotFoundError(t) && t@ == name@),
            r is Err ==> *final(self) == *old(self),
            r is Ok ==> exists|i: int|
                first_model(old(self).models@, name@, i) && final(self).models@ == old(self).models@.update(i, model),
            final(self).name == old(self).name,
            final(self).display_name == old(self).display_name,
            final(self).base_url == old(self).base_url,
    {
        match self.position(name) {
            Some(i) => {
                self.models.set(i, model);
                Ok(())
            },
            None => Err(ProviderError::ModelNotFoundError(name.to_owned())),
        }
    }

    /// Removes the first model with the given name.
    pub fn delete_model(&mut self, name: &str) -> (r: Result<(), ProviderError>)
        ensures
            r is Err <==> !has_model(old(self).models@, name@),
            r matches Err(e) ==> (e matches ProviderError::ModelNotFoundError(t) && t@ == name@),
            r is Err ==> *final(self) == *old(self),
            r is Ok ==> exists|i: int|
                first_model(old(self).models@, name@, i) && final(self).models@ == old(self).models@.remove(i),
            final(self).name == old(self).name,
            final(self).display_name == old(self).display_name,
            final(self).base_url == old(self).base_url,
    {
        match self.position(name) {
            Some(i) => {
                self.models.remove(i);
                Ok(())
            },
            None => Err(ProviderError::ModelNotFoundError(name.to_owned())),
        }
    }
}

} // verus!
