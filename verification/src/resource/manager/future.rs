//! Requests for resources, with what to try when there is none.
use vstd::prelude::*;

use crate::resource::id::ResourceId;
use crate::resource::manager::cache::{CacheGet, CacheGetView};
use crate::resource::manager::load::load_result;
use crate::resource::{LoadErrorView, ResKey, ResourceLoadError};

verus! {

/// What polling gives: `None` while the result is pending.
pub type Polled = Option<Result<u64, ResourceLoadError>>;

/// The mathematical value of what polling gives.
pub open spec fn polled_view(polled: Polled) -> Option<Result<u64, LoadErrorView>> {
    match polled {
        Some(result) => Some(load_result(result)),
        None => None,
    }
}

/// A request for a resource.
#[derive(Debug)]
pub enum GetOrLoad {
    /// The result was there at once.
    Cached(Result<u64, ResourceLoadError>),
    /// The resource is being loaded.
    Loading,
    /// The resource is being updated.
    Updating,
    /// The result was handed out.
    Complete,
}

/// The mathematical value of a [`GetOrLoad`].
pub enum GetOrLoadView {
    Cached(Result<u64, LoadErrorView>),
    Loading,
    Updating,
    Complete,
}

impl View for GetOrLoad {
    type V = GetOrLoadView;

    open spec fn view(&self) -> GetOrLoadView {
        match self {
            GetOrLoad::Cached(result) => GetOrLoadView::Cached(load_result(*result)),
            GetOrLoad::Loading => GetOrLoadView::Loading,
            GetOrLoad::Updating => GetOrLoadView::Updating,
            GetOrLoad::Complete => GetOrLoadView::Complete,
        }
    }
}

impl GetOrLoad {
    /// The request that follows from asking the cache; `None` if a load has to be started first.
    pub fn from_get(get: CacheGet) -> (r: Option<GetOrLoad>)
        ensures
            match get@ {
                CacheGetView::Cached(result) => r.is_some() && r.unwrap()@ == GetOrLoadView::Cached(result),
                CacheGetView::Waiting => r.is_some() && r.unwrap()@ == GetOrLoadView::Loading,
                CacheGetView::MustLoad => r.is_none(),
            },
    {
        match get {
            CacheGet::Cached(result) => Some(GetOrLoad::Cached(result)),
            CacheGet::Waiting => Some(GetOrLoad::Loading),
            CacheGet::MustLoad => None,
        }
    }

    /// The request that follows from starting a load, given what its first poll gave.
    pub fn from_started(first: Polled) -> (r: GetOrLoad)
        ensures
            r@ == (match polled_view(first) {
                Some(result) => GetOrLoadView::Cached(result),
                None => GetOrLoadView::Loading,
            }),
    {
        match first {
            Some(result) => GetOrLoad::Cached(result),
            None => GetOrLoad::Loading,
        }
    }

    /// Polls the request; `inner` is what polling for the resource gave, if it is waited for. A
    /// request must not be polled after it has handed out its result.
    pub fn poll(&mut self, inner: Polled) -> (r: Polled)
        requires
            old(self)@ !is Complete,
        ensures
            polled_view(r) == (match old(self)@ {
                GetOrLoadView::Cached(result) => Some(result),
                _ => polled_view(inner),
            }),
            r.is_some() ==> final(self)@ is Complete,
            r.is_none() ==> final(self)@ == old(self)@,
    {
        let mut current = GetOrLoad::Complete;
        std::mem::swap(&mut current, self);
        match current {
            GetOrLoad::Cached(result) => Some(result),
            GetOrLoad::Loading => match inner {
                Some(result) => Some(result),
                None => {
                    *self = GetOrLoad::Loading;
                    None
                },
            },
            GetOrLoad::Updating => match inner {
                Some(result) => Some(result),
                None => {
                    *self = GetOrLoad::Updating;
                    None
                },
            },
            GetOrLoad::Complete => inner,
        }
    }

    /// Whether the result was handed out.
    pub fn is_terminated(&self) -> (r: bool)
        ensures
            r == (self@ is Complete),
    {
        match self {
            GetOrLoad::Complete => true,
            _ => false,
        }
    }
}

impl GetOrLoad {
    /// A description of the request; `id` is the identifier of its resource, and `error` is the
    /// description of its error.
    pub fn debug_text(&self, id: &str, error: &str) -> (r: String)
        ensures
            r@ == "GetOrLoad::"@ + (match self@ {
                GetOrLoadView::Cached(Ok(_)) => "Cached(Ok("@ + id@ + "))"@,
                GetOrLoadView::Cached(Err(_)) => "Cached(Err("@ + error@ + "))"@,
                GetOrLoadView::Loading => "Loading(<load-future>)"@,
                GetOrLoadView::Updating => "Updating(<update-future>)"@,
                GetOrLoadView::Complete => "Complete"@,
            }),
    {
        let mut s = "GetOrLoad::".to_owned();
        match self {
            GetOrLoad::Cached(Ok(_)) => {
                s.append("Cached(Ok(");
                s.append(id);
                s.append("))");
                assert(s@ =~= "GetOrLoad::"@ + ("Cached(Ok("@ + id@ + "))"@));
            },
            GetOrLoad::Cached(Err(_)) => {
                s.append("Cached(Err(");
                s.append(error);
                s.append("))");
                assert(s@ =~= "GetOrLoad::"@ + ("Cached(Err("@ + error@ + "))"@));
            },
            GetOrLoad::Loading => {
                s.append("Loading(<load-future>)");
            },
            GetOrLoad::Updating => {
                s.append("Updating(<update-future>)");
            },
            GetOrLoad::Complete => {
                s.append("Complete");
            },
        }
        s
    }
}

/// A request that tries something else if there is no data for the resource.
#[derive(Debug)]
pub enum AdapterState<A1, A2, D> {
    /// The request itself, and what the other one is made from.
    Primary { adapter: A1, data: D },
    /// The other request.
    Secondary { fallback: A2 },
    /// The result was handed out.
    Complete,
}

/// What polling an adapter leads to.
#[derive(Debug)]
pub enum AdapterPoll<D> {
    /// The result.
    Ready(Result<u64, ResourceLoadError>),
    /// Nothing yet.
    Pending,
    /// There is no data: the other request is to be made from `D` and to be polled.
    Fallback(D),
}

impl<A1, A2, D> AdapterState<A1, A2, D> {
    /// A request with something else to try.
    pub fn new(adapter: A1, data: D) -> (r: Self)
        ensures
            r == (AdapterState::<A1, A2, D>::Primary { adapter, data }),
    {
        AdapterState::Primary { adapter, data }
    }

    /// Goes on after the present request was polled with the given result. An adapter must not be
    /// polled after it has handed out its result.
    pub fn poll(&mut self, inner: Polled) -> (r: AdapterPoll<D>)
        requires
            *old(self) !is Complete,
        ensures
            match polled_view(inner) {
                None => r is Pending && *final(self) == *old(self),
                Some(result) => match *old(self) {
                    AdapterState::Primary { adapter, data } => if result.is_err() && result->Err_0 is NotFound {
                        r == AdapterPoll::Fallback(data) && *final(self) is Complete
                    } else {
                        r is Ready && load_result(r->Ready_0) == result && *final(self) is Complete
                    },
                    _ => r is Ready && load_result(r->Ready_0) == result && *final(self) is Complete,
                },
            },
    {
        match inner {
            None => AdapterPoll::Pending,
            Some(result) => {
                let mut current = AdapterState::Complete;
                std::mem::swap(&mut current, self);
                match current {
                    AdapterState::Primary { data, .. } => {
                        let missing = match &result {
                            Err(error) => error.is_not_found(),
                            Ok(_) => false,
                        };
                        if missing {
                            AdapterPoll::Fallback(data)
                        } else {
                            AdapterPoll::Ready(result)
                        }
                    },
                    _ => AdapterPoll::Ready(result),
                }
            },
        }
    }

    /// A description of the adapter; `inner` is the description of the request that it polls.
    pub fn debug_text(&self, inner: &str) -> (r: String)
        ensures
            r@ == "AdapterState::"@ + (match *self {
                AdapterState::Primary { .. } => "Primary("@ + inner@ + ")"@,
                AdapterState::Secondary { .. } => "Secondary("@ + inner@ + ")"@,
                AdapterState::Complete => "Complete"@,
            }),
    {
        let mut s = "AdapterState::".to_owned();
        match self {
            AdapterState::Primary { .. } => {
                s.append("Primary(");
                s.append(inner);
                s.append(")");
                assert(s@ =~= "AdapterState::"@ + ("Primary("@ + inner@ + ")"@));
            },
            AdapterState::Secondary { .. } => {
                s.append("Secondary(");
                s.append(inner);
                s.append(")");
                assert(s@ =~= "AdapterState::"@ + ("Secondary("@ + inner@ + ")"@));
            },
            AdapterState::Complete => {
                s.append("Complete");
            },
        }
        s
    }

    /// Goes on with the other request.
    pub fn fall_back(&mut self, adapter: A2)
        requires
            *old(self) is Complete,
        ensures
            *final(self) == (AdapterState::<A1, A2, D>::Secondary { fallback: adapter }),
    {
        *self = AdapterState::Secondary { fallback: adapter };
    }

    /// Whether the result was handed out.
    pub fn is_terminated(&self) -> (r: bool)
        ensures
            r == (*self is Complete),
    {
        match self {
            AdapterState::Complete => true,
            _ => false,
        }
    }
}

/// Where a default value comes from.
#[derive(Debug, Clone, Copy, PartialEq, Eq, Structural)]
pub enum DefaultSource {
    /// The type of the resource has one.
    Value,
    /// The loader has one.
    Loader,
    /// The given function makes one.
    With(u64),
}

/// What is tried for a resource without data.
#[derive(Debug, Clone, Copy, PartialEq, Eq, Structural)]
pub enum Fallback {
    /// Another resource.
    Get(ResKey),
    /// A default value for the same resource.
    Default(ResKey, DefaultSource),
}

impl Fallback {
    /// Another identifier, with the given loader.
    pub fn or_get_with_loader(id: ResourceId, loader_type: u64, loader_key: u64) -> (r: Self)
        ensures
            r == Fallback::Get(ResKey { id, loader_type, loader_key }),
    {
        Fallback::Get(ResKey::new(id, loader_type, loader_key))
    }

    /// Another identifier, with the loader of the request itself.
    pub fn or_get(primary: ResKey, id: ResourceId) -> (r: Self)
        ensures
            r == Fallback::Get(ResKey { id, ..primary }),
    {
        Fallback::Get(ResKey::new(id, primary.loader_type, primary.loader_key))
    }

    /// The default value of the type, in place of the resource itself.
    pub fn or_default(primary: ResKey) -> (r: Self)
        ensures
            r == Fallback::Default(primary, DefaultSource::Value),
    {
        Fallback::Default(primary, DefaultSource::Value)
    }

    /// The default value of the loader, in place of the resource itself.
    pub fn or_loader_default(primary: ResKey) -> (r: Self)
        ensures
            r == Fallback::Default(primary, DefaultSource::Loader),
    {
        Fallback::Default(primary, DefaultSource::Loader)
    }

    /// What the given function makes, in place of the resource itself.
    pub fn or_default_with(primary: ResKey, make: u64) -> (r: Self)
        ensures
            r == Fallback::Default(primary, DefaultSource::With(make)),
    {
        Fallback::Default(primary, DefaultSource::With(make))
    }

    /// The key that is asked for.
    pub fn key(&self) -> (r: ResKey)
        ensures
            r == (match *self {
                Fallback::Get(key) => key,
                Fallback::Default(key, _) => key,
            }),
    {
        match self {
            Fallback::Get(key) => *key,
            Fallback::Default(key, _) => *key,
        }
    }

    /// Whether a failure that the cache remembers is tried again. For a default it has to be, since
    /// the cache remembers that there is no data for the resource.
    pub fn force_retry(&self) -> (r: bool)
        ensures
            r == (*self is Default),
    {
        match self {
            Fallback::Get(_) => false,
            Fallback::Default(_, _) => true,
        }
    }
}

/// What polling gives is seen as what it is: nothing, the same resource, or the same error.
pub proof fn lemma_polls_are_seen(polled: Polled)
    ensures
        polled is None <==> polled_view(polled) is None,
        polled matches Some(Ok(resource)) ==> polled_view(polled) == Some(Ok::<u64, LoadErrorView>(resource)),
        polled matches Some(Err(error)) ==> polled_view(polled) == Some(Err::<u64, LoadErrorView>(error@)),
{
}

} // verus!
