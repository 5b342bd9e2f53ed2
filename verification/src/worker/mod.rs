//! Work, where it comes from, and the pool that executes it.
//!
//! A piece of work is named by a number, as are threads and wakers.
use vstd::prelude::*;

pub mod pool;
pub mod task;

verus! {

/// Why a source has no work.
#[derive(Debug, Clone, Copy, PartialEq, Eq, Structural)]
pub enum FindWorkError {
    /// There is none at present.
    NoWork,
    /// There will never be any again.
    Disconnected,
}

impl FindWorkError {
    /// The text of the error.
    pub fn to_text(&self) -> (r: String)
        ensures
            r@ == (match *self {
                FindWorkError::NoWork => "no work available"@,
                FindWorkError::Disconnected => "work source is disconnected"@,
            }),
    {
        match self {
            FindWorkError::NoWork => "no work available".to_owned(),
            FindWorkError::Disconnected => "work source is disconnected".to_owned(),
        }
    }
}

/// What looking for work gives.
pub type FindWorkResult = Result<u64, FindWorkError>;

/// A source of work.
pub trait WorkSource: Sized {
    /// What there is to know of the source.
    type Model;

    /// What there is to know of the source at present.
    spec fn model(&self) -> Self::Model;

    /// What looking for work gives.
    spec fn answer(model: Self::Model) -> FindWorkResult;

    /// The source after work was looked for.
    spec fn asked(model: Self::Model) -> Self::Model;

    /// The source with another waker.
    spec fn with_waker(model: Self::Model, waker: u64) -> Self::Model;

    /// Takes a piece of work out of the source.
    fn find_work(&mut self) -> (r: FindWorkResult)
        ensures
            r == Self::answer(old(self).model()),
            final(self).model() == Self::asked(old(self).model()),
    ;

    /// Sets whom to wake when there is work again.
    fn set_worker_waker(&mut self, waker: u64)
        ensures
            final(self).model() == Self::with_waker(old(self).model(), waker),
    ;
}

/// A source that may go away.
#[derive(Debug)]
pub struct WeakSource<S> {
    pub source: Option<S>,
}

impl<S> WeakSource<S> {
    /// The given source, as long as it is not dropped.
    pub fn new(source: S) -> (r: Self)
        ensures
            r.source == Some(source),
    {
        WeakSource { source: Some(source) }
    }

    /// The source goes away.
    pub fn drop_source(&mut self)
        ensures
            final(self).source == None::<S>,
    {
        self.source = None;
    }
}

impl<S: WorkSource> WorkSource for WeakSource<S> {
    type Model = Option<S::Model>;

    open spec fn model(&self) -> Option<S::Model> {
        match self.source {
            Some(source) => Some(source.model()),
            None => None,
        }
    }

    open spec fn answer(model: Option<S::Model>) -> FindWorkResult {
        match model {
            Some(m) => S::answer(m),
            None => Err(FindWorkError::Disconnected),
        }
    }

    open spec fn asked(model: Option<S::Model>) -> Option<S::Model> {
        match model {
            Some(m) => Some(S::asked(m)),
            None => None,
        }
    }

    open spec fn with_waker(model: Option<S::Model>, waker: u64) -> Option<S::Model> {
        match model {
            Some(m) => Some(S::with_waker(m, waker)),
            None => None,
        }
    }

    fn find_work(&mut self) -> (r: FindWorkResult) {
        match &mut self.source {
            Some(source) => source.find_work(),
            None => Err(FindWorkError::Disconnected),
        }
    }

    fn set_worker_waker(&mut self, waker: u64) {
        match &mut self.source {
            Some(source) => source.set_worker_waker(waker),
            None => {},
        }
    }
}

/// A source that is gone reports so, whoever asks and however often.
pub proof fn lemma_gone_is_disconnected<S: WorkSource>(waker: u64)
    ensures
        WeakSource::<S>::answer(None) == Err::<u64, FindWorkError>(FindWorkError::Disconnected),
        WeakSource::<S>::asked(None) == None::<S::Model>,
        WeakSource::<S>::with_waker(None, waker) == None::<S::Model>,
{
}

/// A source that is still there answers as it does by itself, and is asked and woken as it is by
/// itself.
pub proof fn lemma_present_is_asked<S: WorkSource>(model: S::Model, waker: u64)
    ensures
        WeakSource::<S>::answer(Some(model)) == S::answer(model),
        WeakSource::<S>::asked(Some(model)) == Some(S::asked(model)),
        WeakSource::<S>::with_waker(Some(model), waker) == Some(S::with_waker(model, waker)),
{
}

} // verus!
