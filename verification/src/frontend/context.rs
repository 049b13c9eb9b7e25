//! Read-only views of a snapshot of HTTP-frontend state handed to frontend route
//! extensions: readiness, cancellation and the models being served.

use vstd::prelude::*;
use std::sync::Arc;
use crate::text::{views, distinct_strings, dedup_strings, str_equal, sort_strings, str_sorted};

verus! {

/// `Arc::clone`: another pointer to the same value.
#[verifier::external_body]
fn share<T>(a: &Arc<T>) -> (r: Arc<T>)
    ensures
        r == *a,
{
    Arc::clone(a)
}

/// A model the frontend knows, by display name.
#[derive(Clone, Debug)]
pub struct ModelEntry {
    pub display_name: String,
    /// The model has a worker that can serve it now.
    pub ready_to_serve: bool,
}

/// The models the frontend serves, in registration order.
#[derive(Clone, Debug)]
pub struct ModelManager {
    pub models: Vec<ModelEntry>,
}

/// The display names of the first `n` models (those ready to serve when
/// `ready_only`), in order.
pub open spec fn names_upto(models: Seq<ModelEntry>, ready_only: bool, n: int) -> Seq<Seq<char>>
    decreases n,
{
    if n <= 0 {
        Seq::empty()
    } else {
        let r = names_upto(models, ready_only, n - 1);
        if !ready_only || models[n - 1].ready_to_serve {
            r.push(models[n - 1].display_name@)
        } else {
            r
        }
    }
}

pub open spec fn any_ready(models: Seq<ModelEntry>) -> bool {
    exists|i: int| 0 <= i < models.len() && #[trigger] models[i].ready_to_serve
}

pub open spec fn ready_to_serve(models: Seq<ModelEntry>, name: Seq<char>) -> bool {
    exists|i: int| 0 <= i < models.len() && #[trigger] models[i].display_name@ == name && models[i].ready_to_serve
}

impl ModelManager {
    /// Whether some model is ready to serve.
    pub fn has_any_ready_model(&self) -> (r: bool)
        ensures
            r == any_ready(self.models@),
    {
        let mut i: usize = 0;
        while i < self.models.len()
            invariant
                i <= self.models@.len(),
                forall|j: int| 0 <= j < i ==> !#[trigger] self.models@[j].ready_to_serve,
            decreases self.models@.len() - i,
        {
            if self.models[i].ready_to_serve {
                return true;
            }
            i = i + 1;
        }
        false
    }

    /// Whether the model named `model` is ready to serve.
    pub fn is_model_ready_to_serve(&self, model: &str) -> (r: bool)
        ensures
            r == ready_to_serve(self.models@, model@),
    {
        let mut i: usize = 0;
        while i < self.models.len()
            invariant
                i <= self.models@.len(),
                forall|j: int|
                    0 <= j < i ==> !(#[trigger] self.models@[j].display_name@ == model@ && self.models@[j].ready_to_serve),
            decreases self.models@.len() - i,
        {
            if self.models[i].ready_to_serve && str_equal(self.models[i].display_name.as_str(), model) {
                return true;
            }
            i = i + 1;
        }
        false
    }

    fn names(&self, ready_only: bool) -> (r: Vec<String>)
        ensures
            views(r@) == distinct_strings(names_upto(self.models@, ready_only, self.models@.len() as int)),
    {
        let mut all: Vec<String> = Vec::new();
        let mut i: usize = 0;
        while i < self.models.len()
            invariant
                i <= self.models@.len(),
                views(all@) == names_upto(self.models@, ready_only, i as int),
            decreases self.models@.len() - i,
        {
            if !ready_only || self.models[i].ready_to_serve {
                let ghost a0 = views(all@);
                all.push(self.models[i].display_name.clone());
                assert(views(all@) =~= a0.push(self.models@[i as int].display_name@));
            }
            i = i + 1;
        }
        dedup_strings(&all)
    }

    /// The display names of all models, each once.
    pub fn model_display_names(&self) -> (r: Vec<String>)
        ensures
            views(r@) == distinct_strings(names_upto(self.models@, false, self.models@.len() as int)),
    {
        self.names(false)
    }

    /// The display names of the models ready to serve, each once.
    pub fn serving_ready_display_names(&self) -> (r: Vec<String>)
        ensures
            views(r@) == distinct_strings(names_upto(self.models@, true, self.models@.len() as int)),
    {
        self.names(true)
    }
}

/// A snapshot of frontend state: service readiness, shutdown, and the model
/// manager. The values are fixed once taken; a newer state is a new snapshot.
#[derive(Clone, Debug)]
pub struct FrontendState {
    pub ready: bool,
    pub cancelled: bool,
    pub manager: Arc<ModelManager>,
}

/// Read-only view of a frontend-state snapshot exposed to extensions (typed
/// accessors only).
#[derive(Clone, Debug)]
pub struct FrontendExtensionContext {
    state: Arc<FrontendState>,
}

impl FrontendExtensionContext {
    /// The state this context reads.
    pub closed spec fn state(&self) -> FrontendState {
        *self.state
    }

    pub fn new(state: Arc<FrontendState>) -> (r: Self)
        ensures
            r.state() == *state,
    {
        FrontendExtensionContext { state }
    }

    pub fn is_ready(&self) -> (r: bool)
        ensures
            r == self.state().ready,
    {
        self.state.ready
    }

    pub fn is_cancelled(&self) -> (r: bool)
        ensures
            r == self.state().cancelled,
    {
        self.state.cancelled
    }

    pub fn has_any_ready_model(&self) -> (r: bool)
        ensures
            r == any_ready(self.state().manager.models@),
    {
        self.state.manager.has_any_ready_model()
    }

    pub fn is_model_ready_to_serve(&self, model: &str) -> (r: bool)
        ensures
            r == ready_to_serve(self.state().manager.models@, model@),
    {
        self.state.manager.is_model_ready_to_serve(model)
    }

    pub fn model_display_names(&self) -> (r: Vec<String>)
        ensures
            views(r@) == distinct_strings(
                names_upto(self.state().manager.models@, false, self.state().manager.models@.len() as int),
            ),
    {
        self.state.manager.model_display_names()
    }

    pub fn serving_ready_display_names(&self) -> (r: Vec<String>)
        ensures
            views(r@) == distinct_strings(
                names_upto(self.state().manager.models@, true, self.state().manager.models@.len() as int),
            ),
    {
        self.state.manager.serving_ready_display_names()
    }

    /// The model display names in `String` order, as handed to Python.
    pub fn sorted_model_display_names(&self) -> (r: Vec<String>)
        ensures
            views(r@) == str_sorted(
                distinct_strings(
                    names_upto(self.state().manager.models@, false, self.state().manager.models@.len() as int),
                ),
            ),
    {
        sort_strings(self.model_display_names())
    }

    /// The ready model display names in `String` order, as handed to Python.
    pub fn sorted_serving_ready_display_names(&self) -> (r: Vec<String>)
        ensures
            views(r@) == str_sorted(
                distinct_strings(
                    names_upto(self.state().manager.models@, true, self.state().manager.models@.len() as int),
                ),
            ),
    {
        sort_strings(self.serving_ready_display_names())
    }
}

/// The frontend context, over a state snapshot, available to frontend route
/// extensions.
#[derive(Clone, Debug)]
pub struct FrontendRouteContext {
    state: Arc<FrontendState>,
}

impl FrontendRouteContext {
    /// The state this context reads.
    pub closed spec fn state(&self) -> FrontendState {
        *self.state
    }

    pub fn new(state: Arc<FrontendState>) -> (r: Self)
        ensures
            r.state() == *state,
    {
        FrontendRouteContext { state }
    }

    /// The shared state, for routes that install handlers with it.
    pub fn state_clone(&self) -> (r: Arc<FrontendState>)
        ensures
            *r == self.state(),
    {
        share(&self.state)
    }

    pub fn manager(&self) -> (r: &ModelManager)
        ensures
            *r == *self.state().manager,
    {
        &self.state.manager
    }

    pub fn manager_clone(&self) -> (r: Arc<ModelManager>)
        ensures
            *r == *self.state().manager,
    {
        share(&self.state.manager)
    }

    pub fn is_ready(&self) -> (r: bool)
        ensures
            r == self.state().ready,
    {
        self.state.ready
    }

    pub fn is_cancelled(&self) -> (r: bool)
        ensures
            r == self.state().cancelled,
    {
        self.state.cancelled
    }
}

} // verus!
