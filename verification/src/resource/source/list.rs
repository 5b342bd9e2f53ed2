//! Several sources, tried in order.
use vstd::prelude::*;

use crate::resource::id::ResourceId;
use crate::resource::source::{
    data_result, source_option, DataSourceView, DataView, ResourceDataResult, ResourceDataSource,
    ResourceSource, SourceIndex,
};
use crate::resource::{LoadErrorView, ResourceLoadError};

verus! {

/// What the first source that has a hash answers.
pub open spec fn first_hash<S: ResourceSource>(sources: Seq<S>, id: ResourceId, from: int) -> Option<
    DataSourceView,
>
    decreases sources.len() - from,
{
    if from < 0 || from >= sources.len() {
        None
    } else {
        match sources[from].hash_of(id) {
            Some(source) => Some(source.wrap(from as usize)),
            None => first_hash(sources, id, from + 1),
        }
    }
}

/// What the first source that does not report the data as missing answers.
pub open spec fn first_data<S: ResourceSource>(sources: Seq<S>, id: ResourceId, from: int) -> Result<
    DataView,
    LoadErrorView,
>
    decreases sources.len() - from,
{
    if from < 0 || from >= sources.len() {
        Err(LoadErrorView::NotFound(id))
    } else {
        match sources[from].data_of(id) {
            Ok(data) => Ok(data.wrap(from as usize)),
            Err(LoadErrorView::NotFound(_)) => first_data(sources, id, from + 1),
            Err(error) => Err(error),
        }
    }
}

/// What the source that a position names answers.
pub open spec fn data_at<S: ResourceSource>(
    sources: Seq<S>,
    id: ResourceId,
    sub_idx: SourceIndex,
) -> Result<DataView, LoadErrorView> {
    if sub_idx.idx < sources.len() {
        let found = match sub_idx.below() {
            Some(below) => sources[sub_idx.idx as int].sub_data_of(id, below),
            None => sources[sub_idx.idx as int].data_of(id),
        };
        match found {
            Ok(data) => Ok(data.wrap(sub_idx.idx)),
            Err(error) => Err(error),
        }
    } else {
        Err(LoadErrorView::NotFound(id))
    }
}

/// The hash that the first of the sources with one has.
pub fn hash_in_order<S: ResourceSource>(sources: &Vec<S>, id: &ResourceId) -> (r: Option<ResourceDataSource>)
    ensures
        source_option(r) == first_hash(sources@, *id, 0),
{
    let mut idx: usize = 0;
    while idx < sources.len()
        invariant
            idx <= sources@.len(),
            first_hash(sources@, *id, 0) == first_hash(sources@, *id, idx as int),
        decreases sources@.len() - idx,
    {
        match sources[idx].hash(id) {
            Some(source) => return Some(source.wrap(idx)),
            None => {},
        }
        idx += 1;
    }
    None
}

/// The data of the first source that does not report it as missing.
pub fn load_in_order<S: ResourceSource>(sources: &Vec<S>, id: &ResourceId) -> (r: ResourceDataResult)
    ensures
        data_result(r) == first_data(sources@, *id, 0),
{
    let mut idx: usize = 0;
    while idx < sources.len()
        invariant
            idx <= sources@.len(),
            first_data(sources@, *id, 0) == first_data(sources@, *id, idx as int),
        decreases sources@.len() - idx,
    {
        match sources[idx].load(id) {
            Ok(data) => return Ok(data.wrap(idx)),
            Err(error) => {
                if !error.is_not_found() {
                    return Err(error);
                }
            },
        }
        idx += 1;
    }
    Err(ResourceLoadError::NotFound(*id))
}

/// The data of the source that a position names.
pub fn load_at<S: ResourceSource>(sources: &Vec<S>, id: &ResourceId, sub_idx: &SourceIndex) -> (r: ResourceDataResult)
    ensures
        data_result(r) == data_at(sources@, *id, *sub_idx),
{
    let idx: usize = sub_idx.idx();
    if idx < sources.len() {
        let found = match sub_idx.sub_idx() {
            Some(below) => sources[idx].sub_load(id, below),
            None => sources[idx].load(id),
        };
        match found {
            Ok(data) => Ok(data.wrap(idx)),
            Err(error) => Err(error),
        }
    } else {
        Err(ResourceLoadError::NotFound(*id))
    }
}

/// A fixed list of sources. Earlier sources take precedence.
pub struct ResourceSourceList<S> {
    sources: Vec<S>,
}

impl<S> View for ResourceSourceList<S> {
    type V = Seq<S>;

    closed spec fn view(&self) -> Seq<S> {
        self.sources@
    }
}

impl<S: ResourceSource> ResourceSourceList<S> {
    /// The list of the given sources.
    pub fn new(sources: Vec<S>) -> (r: Self)
        ensures
            r@ == sources@,
    {
        ResourceSourceList { sources }
    }

    /// For each source, what it is told when `id` is to be watched up to a position (up to and
    /// including every source, if there is none): `Some` to watch, up to the position inside, or
    /// `None` to stop watching.
    pub fn watch_plan(&self, sub_idx: Option<SourceIndex>) -> (r: Vec<Option<Option<SourceIndex>>>)
        ensures
            r@ == watch_plan(
                self@.len(),
                match sub_idx {
                    Some(position) => position,
                    None => SourceIndex::leaf(self@.len() as usize),
                },
            ),
    {
        let limit = match sub_idx {
            Some(position) => position,
            None => SourceIndex::new(self.sources.len()),
        };
        plan_watches(self.sources.len(), &limit)
    }
}

/// For each of `n` sources, whether it is to watch, and if so up to which position inside it.
pub open spec fn watch_plan(n: nat, limit: SourceIndex) -> Seq<Option<Option<SourceIndex>>> {
    Seq::new(
        n,
        |i: int|
            if i <= limit.idx {
                Some(limit.below())
            } else {
                None
            },
    )
}

/// For each of `n` sources, whether it is to watch, and if so up to which position inside it.
pub fn plan_watches(n: usize, limit: &SourceIndex) -> (r: Vec<Option<Option<SourceIndex>>>)
    ensures
        r@ == watch_plan(n as nat, *limit),
{
    let mut plan: Vec<Option<Option<SourceIndex>>> = Vec::new();
    let mut i: usize = 0;
    while i < n
        invariant
            i <= n,
            plan@ == watch_plan(i as nat, *limit),
        decreases n - i,
    {
        if i <= limit.idx() {
            let below = match limit.sub_idx() {
                Some(position) => Some(position.clone()),
                None => None,
            };
            plan.push(Some(below));
        } else {
            plan.push(None);
        }
        assert(plan@ =~= watch_plan((i + 1) as nat, *limit));
        i += 1;
    }
    plan
}

impl<S: ResourceSource> ResourceSource for ResourceSourceList<S> {
    open spec fn hash_of(&self, id: ResourceId) -> Option<DataSourceView> {
        first_hash(self@, id, 0)
    }

    open spec fn data_of(&self, id: ResourceId) -> Result<DataView, LoadErrorView> {
        first_data(self@, id, 0)
    }

    open spec fn sub_data_of(&self, id: ResourceId, sub_idx: SourceIndex) -> Result<DataView, LoadErrorView> {
        data_at(self@, id, sub_idx)
    }

    fn hash(&self, id: &ResourceId) -> (r: Option<ResourceDataSource>) {
        hash_in_order(&self.sources, id)
    }

    fn load(&self, id: &ResourceId) -> (r: ResourceDataResult) {
        load_in_order(&self.sources, id)
    }

    fn sub_load(&self, id: &ResourceId, sub_idx: &SourceIndex) -> (r: ResourceDataResult) {
        load_at(&self.sources, id, sub_idx)
    }
}

/// A source takes precedence over all later ones: if it has a hash and none before it has, its
/// hash is the one of the list, under its number.
pub proof fn lemma_first_hash_precedence<S: ResourceSource>(
    sources: Seq<S>,
    id: ResourceId,
    from: int,
    i: int,
)
    requires
        0 <= from <= i < sources.len() <= usize::MAX,
        sources[i].hash_of(id).is_some(),
        forall|j: int| from <= j < i ==> (#[trigger] sources[j]).hash_of(id).is_none(),
    ensures
        first_hash(sources, id, from) == Some(sources[i].hash_of(id).unwrap().wrap(i as usize)),
    decreases i - from,
{
    if from < i {
        lemma_first_hash_precedence(sources, id, from + 1, i);
    }
}

/// Loading from where a loaded resource was found gives the same data again, provided that the
/// source itself does so.
pub proof fn lemma_load_again<S: ResourceSource>(sources: Seq<S>, id: ResourceId, from: int)
    requires
        0 <= from <= sources.len() <= usize::MAX,
        first_data(sources, id, from).is_ok(),
        forall|i: int| #![trigger sources[i]]
            0 <= i < sources.len() && sources[i].data_of(id).is_ok() ==> match sources[i].data_of(
                id,
            )->Ok_0.source.idx {
                Some(below) => sources[i].sub_data_of(id, below) == sources[i].data_of(id),
                None => true,
            },
    ensures
        first_data(sources, id, from)->Ok_0.source.idx.is_some(),
        data_at(sources, id, first_data(sources, id, from)->Ok_0.source.idx.unwrap()) == first_data(
            sources,
            id,
            from,
        ),
    decreases sources.len() - from,
{
    if from < sources.len() {
        match sources[from].data_of(id) {
            Ok(_) => {},
            Err(LoadErrorView::NotFound(_)) => {
                lemma_load_again(sources, id, from + 1);
            },
            Err(_) => {},
        }
    }
}

/// Whether an answer is the lack of the data, and no other failure.
pub open spec fn is_missing(answer: Result<DataView, LoadErrorView>) -> bool {
    answer matches Err(error) && error is NotFound
}

/// Of the sources that answer with data, or with a failure other than the lack of it, the first one
/// counts; it is seen from outside under its number. If all lack the data, so does the list.
pub proof fn lemma_first_answer_counts<S: ResourceSource>(sources: Seq<S>, id: ResourceId, from: int, i: int)
    requires
        0 <= from <= i <= sources.len() <= usize::MAX,
        forall|j: int| from <= j < i ==> is_missing((#[trigger] sources[j]).data_of(id)),
    ensures
        i == sources.len() ==> first_data(sources, id, from) == Err::<DataView, LoadErrorView>(
            LoadErrorView::NotFound(id),
        ),
        i < sources.len() && !is_missing(sources[i].data_of(id)) ==> match sources[i].data_of(id) {
            Ok(data) => first_data(sources, id, from) matches Ok(found) && {
                &&& found.data == data.data
                &&& found.source.hash == data.source.hash
                &&& found.source.idx matches Some(idx) && idx.idx == i && idx.below() == data.source.idx
            },
            Err(error) => first_data(sources, id, from) == Err::<DataView, LoadErrorView>(error),
        },
    decreases i - from,
{
    if from < i {
        assert(is_missing(sources[from].data_of(id)));
        lemma_first_answer_counts(sources, id, from + 1, i);
    }
}

/// Of the sources that have a hash the first one counts; it is seen from outside under its number. If
/// none has one, neither has the list.
pub proof fn lemma_first_hash_counts<S: ResourceSource>(sources: Seq<S>, id: ResourceId, from: int, i: int)
    requires
        0 <= from <= i <= sources.len() <= usize::MAX,
        forall|j: int| from <= j < i ==> (#[trigger] sources[j]).hash_of(id) is None,
    ensures
        i == sources.len() ==> first_hash(sources, id, from) is None,
        i < sources.len() ==> (sources[i].hash_of(id) matches Some(source) ==> (first_hash(sources, id, from) matches Some(
            found,
        ) && {
            &&& found.hash == source.hash
            &&& found.idx matches Some(idx) && idx.idx == i && idx.below() == source.idx
        })),
    decreases i - from,
{
    if from < i {
        lemma_first_hash_counts(sources, id, from + 1, i);
    }
}

/// A list answers for the source that a position names: the numbers below its own are asked of that
/// source, and the answer is seen from outside under its number. A number beyond the list names
/// nothing.
pub proof fn lemma_position_names_source<S: ResourceSource>(
    list: ResourceSourceList<S>,
    id: ResourceId,
    i: usize,
    below: Seq<usize>,
)
    requires
        list@.len() <= usize::MAX,
    ensures
        ({
            let at = SourceIndex::nested(seq![i] + below);
            let answer = list.sub_data_of(id, at);
            let asked = if below.len() == 0 {
                list@[i as int].data_of(id)
            } else {
                list@[i as int].sub_data_of(id, SourceIndex::nested(below))
            };
            &&& i >= list@.len() ==> answer == Err::<DataView, LoadErrorView>(LoadErrorView::NotFound(id))
            &&& i < list@.len() ==> match asked {
                Ok(data) => answer matches Ok(found) && {
                    &&& found.data == data.data
                    &&& found.source.hash == data.source.hash
                    &&& found.source.idx matches Some(idx) && idx.idx == i && idx.below() == data.source.idx
                },
                Err(error) => answer == Err::<DataView, LoadErrorView>(error),
            }
        }),
{
    let all = seq![i] + below;
    assert(all[0] == i);
    if below.len() == 0 {
        assert(all.len() == 1);
    } else {
        assert(all.drop_first() =~= below);
    }
}

/// A list has the hash and the data of the first of its sources that answers.
pub proof fn lemma_list_asks_in_order<S: ResourceSource>(list: ResourceSourceList<S>, id: ResourceId, i: int)
    requires
        0 <= i < list@.len() <= usize::MAX,
    ensures
        (forall|j: int| 0 <= j < i ==> (#[trigger] list@[j]).hash_of(id) is None) ==> (list@[i].hash_of(id) matches Some(
            source,
        ) ==> (list.hash_of(id) matches Some(found) && found.hash == source.hash && (found.idx matches Some(idx)
            && idx.idx == i && idx.below() == source.idx))),
        (forall|j: int| 0 <= j < i ==> is_missing((#[trigger] list@[j]).data_of(id))) ==> (list@[i].data_of(
            id,
        ) matches Ok(data) ==> (list.data_of(id) matches Ok(found) && found.data == data.data && (
        found.source.idx matches Some(idx) && idx.idx == i && idx.below() == data.source.idx))),
        list.hash_of(id) is Some ==> exists|j: int|
            0 <= j < list@.len() && (#[trigger] list@[j]).hash_of(id) is Some,
{
    if forall|j: int| 0 <= j < i ==> (#[trigger] list@[j]).hash_of(id) is None {
        lemma_first_hash_counts(list@, id, 0, i);
    }
    if forall|j: int| 0 <= j < i ==> is_missing((#[trigger] list@[j]).data_of(id)) {
        lemma_first_answer_counts(list@, id, 0, i);
    }
    if forall|j: int| 0 <= j < list@.len() ==> (#[trigger] list@[j]).hash_of(id) is None {
        lemma_first_hash_counts(list@, id, 0, list@.len() as int);
    }
}

/// A source is to watch if and only if its number does not exceed the outermost number of the limit,
/// and it is given what the limit has below that.
pub proof fn lemma_plan_follows_limit(n: nat, limit: Seq<usize>, i: int)
    requires
        0 <= i < n,
        limit.len() > 0,
    ensures
        watch_plan(n, SourceIndex::nested(limit)).len() == n,
        watch_plan(n, SourceIndex::nested(limit))[i] is Some <==> i <= limit[0],
        i <= limit[0] && limit.len() == 1 ==> watch_plan(n, SourceIndex::nested(limit))[i] == Some(
            None::<SourceIndex>,
        ),
        i <= limit[0] && limit.len() > 1 ==> watch_plan(n, SourceIndex::nested(limit))[i] == Some(
            Some(SourceIndex::nested(limit.skip(1))),
        ),
        i <= n <= usize::MAX ==> watch_plan(n, SourceIndex::leaf(n as usize))[i] == Some(None::<SourceIndex>),
{
    assert(limit.skip(1) =~= limit.drop_first());
}

} // verus!
