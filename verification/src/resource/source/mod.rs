//! Sources of resource data: positions in the source hierarchy, data descriptors and updates.
use std::cmp::Ordering;
use vstd::prelude::*;

use crate::resource::id::ResourceId;
use crate::resource::{LoadErrorView, ResourceLoadError};
use crate::util::table::IdMap;
use crate::util::text::usize_text;

pub mod constant;
pub mod dynamic;
pub mod fs;
pub mod list;

verus! {

/// The part of a [`SourceIndex`] below its own position.
///
/// The variants stand in the order in which they compare.
#[derive(Debug, PartialEq, Eq, PartialOrd, Ord)]
pub enum SubIndex {
    /// Before every position below.
    Min,
    /// The position itself.
    Leaf,
    /// A position below.
    At(Box<SourceIndex>),
    /// After every position below.
    Max,
}

/// The position of a source in a hierarchy of sources.
///
/// Sources that come first have the lower index, and take precedence.
#[derive(Debug, Eq, Ord)]
pub struct SourceIndex {
    pub idx: usize,
    pub sub_idx: SubIndex,
}

impl SubIndex {
    /// Where the variant stands among the variants.
    pub open spec fn rank(self) -> int {
        match self {
            SubIndex::Min => 0,
            SubIndex::Leaf => 1,
            SubIndex::At(_) => 2,
            SubIndex::Max => 3,
        }
    }
}

impl SourceIndex {
    /// Whether `self` comes strictly before `other`.
    pub open spec fn before(self, other: SourceIndex) -> bool
        decreases self,
    {
        ||| self.idx < other.idx
        ||| self.idx == other.idx && self.sub_idx.rank() < other.sub_idx.rank()
        ||| self.idx == other.idx && (match (self.sub_idx, other.sub_idx) {
            (SubIndex::At(a), SubIndex::At(b)) => (*a).before(*b),
            _ => false,
        })
    }

    /// Whether `self` is `other` or comes before it.
    pub open spec fn at_or_before(self, other: SourceIndex) -> bool {
        self == other || self.before(other)
    }

    /// The position that is named by one number.
    pub open spec fn leaf(idx: usize) -> SourceIndex {
        SourceIndex { idx, sub_idx: SubIndex::Leaf }
    }

    /// The position `sub` below the number `idx`, or the number itself.
    pub open spec fn under(idx: usize, sub: Option<SourceIndex>) -> SourceIndex {
        match sub {
            Some(s) => SourceIndex { idx, sub_idx: SubIndex::At(Box::new(s)) },
            None => SourceIndex::leaf(idx),
        }
    }

    /// The position below this one, if there is one.
    pub open spec fn below(self) -> Option<SourceIndex> {
        match self.sub_idx {
            SubIndex::At(s) => Some(*s),
            _ => None,
        }
    }

    /// The first of all positions.
    pub open spec fn least() -> SourceIndex {
        SourceIndex { idx: 0, sub_idx: SubIndex::Min }
    }

    /// The last of all positions.
    pub open spec fn greatest() -> SourceIndex {
        SourceIndex { idx: usize::MAX, sub_idx: SubIndex::Max }
    }

    /// The position that nests the given numbers, the first one outermost.
    pub open spec fn nested(indices: Seq<usize>) -> SourceIndex
        decreases indices.len(),
    {
        if indices.len() <= 1 {
            SourceIndex::leaf(indices[0])
        } else {
            SourceIndex::under(indices[0], Some(SourceIndex::nested(indices.drop_first())))
        }
    }

    /// The text of the position: its numbers joined by colons, `MIN` and `MAX` for the bounds.
    pub open spec fn text(self) -> Seq<char>
        decreases self,
    {
        match self.sub_idx {
            SubIndex::Leaf => crate::util::text::decimal(self.idx as nat),
            SubIndex::Min => crate::util::text::decimal(self.idx as nat) + ":MIN"@,
            SubIndex::Max => crate::util::text::decimal(self.idx as nat) + ":MAX"@,
            SubIndex::At(s) => crate::util::text::decimal(self.idx as nat) + ":"@ + (*s).text(),
        }
    }

    /// The first of all positions.
    pub fn min() -> (r: Self)
        ensures
            r == SourceIndex::least(),
    {
        SourceIndex { idx: 0, sub_idx: SubIndex::Min }
    }

    /// The last of all positions.
    pub fn max() -> (r: Self)
        ensures
            r == SourceIndex::greatest(),
    {
        SourceIndex { idx: usize::MAX, sub_idx: SubIndex::Max }
    }

    /// The position that is named by one number.
    pub fn new(idx: usize) -> (r: Self)
        ensures
            r == SourceIndex::leaf(idx),
    {
        SourceIndex { idx, sub_idx: SubIndex::Leaf }
    }

    /// The position `sub` below this one, however deep this one is nested.
    pub open spec fn append(self, sub: SourceIndex) -> SourceIndex
        decreases self,
    {
        match self.sub_idx {
            SubIndex::At(s) => SourceIndex::under(self.idx, Some((*s).append(sub))),
            _ => SourceIndex::under(self.idx, Some(sub)),
        }
    }

    /// The position `sub_idx` below this one, however deep this one is nested.
    pub fn with_nested_idx<I: IntoSourceIndex>(self, sub_idx: I) -> (r: Self)
        ensures
            r == self.append(sub_idx.as_position()),
        decreases self,
    {
        let below = match self.sub_idx {
            SubIndex::At(s) => (*s).with_nested_idx(sub_idx),
            _ => sub_idx.into_position(),
        };
        SourceIndex { idx: self.idx, sub_idx: SubIndex::At(Box::new(below)) }
    }

    /// This position's number with `sub_idx` below it, or nothing below it.
    pub fn with_sub_idx<I: IntoSourceIndex>(self, sub_idx: Option<I>) -> (r: Self)
        ensures
            r == SourceIndex::under(
                self.idx,
                match sub_idx {
                    Some(s) => Some(s.as_position()),
                    None => None,
                },
            ),
    {
        let sub = match sub_idx {
            Some(s) => SubIndex::At(Box::new(s.into_position())),
            None => SubIndex::Leaf,
        };
        SourceIndex { idx: self.idx, sub_idx: sub }
    }

    /// The outermost number.
    pub fn idx(&self) -> (r: usize)
        ensures
            r == self.idx,
    {
        self.idx
    }

    /// The position below, if there is one.
    pub fn sub_idx(&self) -> (r: Option<&SourceIndex>)
        ensures
            r.is_some() == self.below().is_some(),
            r.is_some() ==> *r.unwrap() == self.below().unwrap(),
    {
        match &self.sub_idx {
            SubIndex::At(s) => Some(&**s),
            _ => None,
        }
    }

    /// The position that nests the given numbers, the first one outermost.
    pub fn from_indices(indices: &[usize]) -> (r: Self)
        requires
            indices@.len() > 0,
        ensures
            r == SourceIndex::nested(indices@),
    {
        let mut i: usize = indices.len() - 1;
        let mut r = SourceIndex::new(indices[i]);
        assert(indices@.skip(i as int) =~= seq![indices@[i as int]]);
        while i > 0
            invariant
                i < indices@.len(),
                r == SourceIndex::nested(indices@.skip(i as int)),
            decreases i,
        {
            assert(indices@.skip(i - 1).drop_first() =~= indices@.skip(i as int));
            i -= 1;
            r = SourceIndex::new(indices[i]).with_sub_idx(Some(r));
        }
        assert(indices@.skip(0) =~= indices@);
        r
    }

    /// The text of the position.
    pub fn to_text(&self) -> (r: String)
        ensures
            r@ == self.text(),
        decreases self,
    {
        let mut s = usize_text(self.idx);
        match &self.sub_idx {
            SubIndex::Leaf => {},
            SubIndex::Min => {
                s.append(":MIN");
            },
            SubIndex::Max => {
                s.append(":MAX");
            },
            SubIndex::At(sub) => {
                s.append(":");
                let rest = (&**sub).to_text();
                s.append(rest.as_str());
            },
        }
        s
    }

    /// The text of the position, marked as such.
    pub fn debug_text(&self) -> (r: String)
        ensures
            r@ == "SourceIndex("@ + self.text() + ")"@,
    {
        let mut s = "SourceIndex(".to_owned();
        let text = self.to_text();
        s.append(text.as_str());
        s.append(")");
        s
    }

    /// Whether `self` is `other` or comes before it.
    pub fn le(&self, other: &SourceIndex) -> (r: bool)
        ensures
            r == self.at_or_before(*other),
    {
        match self.sorted_against(other) {
            Ordering::Greater => false,
            _ => true,
        }
    }

    /// Whether `self` comes strictly before `other`.
    pub fn lt(&self, other: &SourceIndex) -> (r: bool)
        ensures
            r == self.before(*other),
    {
        proof {
            lemma_index_order_irreflexive(*self);
        }
        match self.sorted_against(other) {
            Ordering::Less => true,
            _ => false,
        }
    }

    /// How the two positions compare.
    fn sorted_against(&self, other: &SourceIndex) -> (r: Ordering)
        ensures
            r == index_order(*self, *other),
        decreases self,
    {
        if self.idx < other.idx {
            Ordering::Less
        } else if self.idx > other.idx {
            Ordering::Greater
        } else {
            match (&self.sub_idx, &other.sub_idx) {
                (SubIndex::At(a), SubIndex::At(b)) => (&**a).sorted_against(&**b),
                (SubIndex::Min, SubIndex::Min) => Ordering::Equal,
                (SubIndex::Max, SubIndex::Max) => Ordering::Equal,
                (SubIndex::Min, _) | (_, SubIndex::Max) => Ordering::Less,
                (_, SubIndex::Min) | (SubIndex::Max, _) => Ordering::Greater,
                (SubIndex::Leaf, SubIndex::Leaf) => Ordering::Equal,
                (SubIndex::Leaf, SubIndex::At(_)) => Ordering::Less,
                (SubIndex::At(_), SubIndex::Leaf) => Ordering::Greater,
            }
        }
    }
}

/// How two positions compare.
pub open spec fn index_order(a: SourceIndex, b: SourceIndex) -> Ordering {
    if a == b {
        Ordering::Equal
    } else if a.before(b) {
        Ordering::Less
    } else {
        Ordering::Greater
    }
}

impl Clone for SourceIndex {
    fn clone(&self) -> (r: Self)
        ensures
            r == *self,
        decreases self,
    {
        let sub_idx = match &self.sub_idx {
            SubIndex::Min => SubIndex::Min,
            SubIndex::Leaf => SubIndex::Leaf,
            SubIndex::At(s) => SubIndex::At(Box::new((&**s).clone())),
            SubIndex::Max => SubIndex::Max,
        };
        SourceIndex { idx: self.idx, sub_idx }
    }
}

impl PartialEq for SourceIndex {
    fn eq(&self, other: &Self) -> (r: bool) {
        match self.sorted_against(other) {
            Ordering::Equal => true,
            _ => false,
        }
    }
}

impl vstd::std_specs::cmp::PartialEqSpecImpl for SourceIndex {
    open spec fn obeys_eq_spec() -> bool {
        true
    }

    open spec fn eq_spec(&self, other: &Self) -> bool {
        *self == *other
    }
}

impl PartialOrd for SourceIndex {
    fn partial_cmp(&self, other: &Self) -> (r: Option<Ordering>) {
        Some(self.sorted_against(other))
    }
}

impl vstd::std_specs::cmp::PartialOrdSpecImpl for SourceIndex {
    open spec fn obeys_partial_cmp_spec() -> bool {
        true
    }

    open spec fn partial_cmp_spec(&self, other: &Self) -> Option<Ordering> {
        Some(index_order(*self, *other))
    }
}

/// Values that name a position.
pub trait IntoSourceIndex: Sized {
    /// The position that the value names.
    spec fn as_position(self) -> SourceIndex;

    /// The position that the value names.
    fn into_position(self) -> (r: SourceIndex)
        ensures
            r == self.as_position(),
    ;
}

impl IntoSourceIndex for SourceIndex {
    open spec fn as_position(self) -> SourceIndex {
        self
    }

    fn into_position(self) -> (r: SourceIndex) {
        self
    }
}

impl IntoSourceIndex for usize {
    open spec fn as_position(self) -> SourceIndex {
        SourceIndex::leaf(self)
    }

    fn into_position(self) -> (r: SourceIndex) {
        SourceIndex::new(self)
    }
}

impl From<usize> for SourceIndex {
    fn from(value: usize) -> (r: Self) {
        SourceIndex::new(value)
    }
}

impl vstd::std_specs::convert::FromSpecImpl<usize> for SourceIndex {
    open spec fn obeys_from_spec() -> bool {
        true
    }

    open spec fn from_spec(value: usize) -> Self {
        SourceIndex::leaf(value)
    }
}

/// A number below nested numbers is nested in all of them.
pub proof fn lemma_append_nested(indices: Seq<usize>, i: usize)
    requires
        indices.len() > 0,
    ensures
        SourceIndex::nested(indices).append(SourceIndex::leaf(i)) == SourceIndex::nested(indices.push(i)),
    decreases indices.len(),
{
    let more = indices.push(i);
    if indices.len() == 1 {
        assert(more.drop_first() =~= seq![i]);
        assert(SourceIndex::nested(seq![i]) == SourceIndex::leaf(i));
    } else {
        lemma_append_nested(indices.drop_first(), i);
        assert(more.drop_first() =~= indices.drop_first().push(i));
    }
}

/// No position comes before itself.
pub proof fn lemma_index_order_irreflexive(a: SourceIndex)
    ensures
        !a.before(a),
    decreases a,
{
    if let SubIndex::At(s) = a.sub_idx {
        lemma_index_order_irreflexive(*s);
    }
}

/// Of two different positions exactly one comes before the other.
pub proof fn lemma_index_order_total(a: SourceIndex, b: SourceIndex)
    requires
        a != b,
    ensures
        a.before(b) != b.before(a),
    decreases a,
{
    if a.idx == b.idx {
        match (a.sub_idx, b.sub_idx) {
            (SubIndex::At(x), SubIndex::At(y)) => {
                lemma_index_order_total(*x, *y);
            },
            _ => {},
        }
    }
}

/// The order of positions is transitive.
pub proof fn lemma_index_order_transitive(a: SourceIndex, b: SourceIndex, c: SourceIndex)
    requires
        a.before(b),
        b.before(c),
    ensures
        a.before(c),
    decreases a,
{
    match (a.sub_idx, b.sub_idx, c.sub_idx) {
        (SubIndex::At(x), SubIndex::At(y), SubIndex::At(z)) => {
            if a.idx == b.idx && b.idx == c.idx {
                lemma_index_order_transitive(*x, *y, *z);
            }
        },
        _ => {},
    }
}

/// Every position lies between the least and the greatest one.
pub proof fn lemma_index_bounds(a: SourceIndex)
    ensures
        SourceIndex::least().at_or_before(a),
        a.at_or_before(SourceIndex::greatest()),
{
}

/// A position comes before every position below it.
pub proof fn lemma_index_before_below(idx: usize, sub: SourceIndex)
    ensures
        SourceIndex::leaf(idx).before(SourceIndex::under(idx, Some(sub))),
{
}

/// Positions below one number compare as their parts below it do.
pub proof fn lemma_index_under_monotone(idx: usize, a: SourceIndex, b: SourceIndex)
    ensures
        SourceIndex::under(idx, Some(a)).before(SourceIndex::under(idx, Some(b))) == a.before(b),
{
}

/// The mathematical value of a [`ResourceDataSource`].
pub struct DataSourceView {
    pub hash: Seq<char>,
    pub idx: Option<SourceIndex>,
}

impl DataSourceView {
    /// The value as seen from one level further out, at number `idx` there.
    pub open spec fn wrap(self, idx: usize) -> DataSourceView {
        DataSourceView { hash: self.hash, idx: Some(SourceIndex::under(idx, self.idx)) }
    }

    /// The value as seen from the outermost level, at number `idx` there.
    pub open spec fn seal(self, idx: usize) -> SealedView {
        SealedView { hash: self.hash, idx: SourceIndex::under(idx, self.idx) }
    }
}

/// The mathematical value of a [`SealedResourceDataSource`].
pub struct SealedView {
    pub hash: Seq<char>,
    pub idx: SourceIndex,
}

/// Where data comes from, seen from the outermost level.
#[derive(Debug)]
pub struct SealedResourceDataSource {
    pub hash: String,
    pub idx: SourceIndex,
}

impl View for SealedResourceDataSource {
    type V = SealedView;

    open spec fn view(&self) -> SealedView {
        SealedView { hash: self.hash@, idx: self.idx }
    }
}

/// The hash of some data, and where below the present level it comes from.
#[derive(Debug)]
pub struct ResourceDataSource {
    pub hash: String,
    pub idx: Option<SourceIndex>,
}

impl View for ResourceDataSource {
    type V = DataSourceView;

    open spec fn view(&self) -> DataSourceView {
        DataSourceView { hash: self.hash@, idx: self.idx }
    }
}

impl ResourceDataSource {
    /// Data with this hash, from the present level itself.
    pub fn new(hash: String) -> (r: Self)
        ensures
            r@ == (DataSourceView { hash: hash@, idx: None }),
    {
        ResourceDataSource { hash, idx: None }
    }

    /// The description as seen from the outermost level, where this one has number `idx`.
    pub fn seal(self, idx: usize) -> (r: SealedResourceDataSource)
        ensures
            r@ == self@.seal(idx),
    {
        SealedResourceDataSource { hash: self.hash, idx: SourceIndex::new(idx).with_sub_idx(self.idx) }
    }

    /// The description as seen from one level further out, where this one has number `idx`.
    pub fn wrap(self, idx: usize) -> (r: Self)
        ensures
            r@ == self@.wrap(idx),
    {
        ResourceDataSource {
            hash: self.hash,
            idx: Some(SourceIndex::new(idx).with_sub_idx(self.idx)),
        }
    }
}

/// The mathematical value of a [`ResourceData`].
pub struct DataView {
    pub data: Seq<u8>,
    pub source: DataSourceView,
}

impl DataView {
    /// The value as seen from one level further out.
    pub open spec fn wrap(self, idx: usize) -> DataView {
        DataView { data: self.data, source: self.source.wrap(idx) }
    }

    /// The value as seen from the outermost level.
    pub open spec fn seal(self, idx: usize) -> SealedDataView {
        SealedDataView { data: self.data, source: self.source.seal(idx) }
    }
}

/// The mathematical value of a [`SealedResourceData`].
pub struct SealedDataView {
    pub data: Seq<u8>,
    pub source: SealedView,
}

/// The bytes of a resource, with where they come from.
#[derive(Debug)]
pub struct ResourceData {
    pub data: Vec<u8>,
    pub source: ResourceDataSource,
}

impl View for ResourceData {
    type V = DataView;

    open spec fn view(&self) -> DataView {
        DataView { data: self.data@, source: self.source@ }
    }
}

/// The bytes of a resource, with where they come from, seen from the outermost level.
#[derive(Debug)]
pub struct SealedResourceData {
    pub data: Vec<u8>,
    pub source: SealedResourceDataSource,
}

impl View for SealedResourceData {
    type V = SealedDataView;

    open spec fn view(&self) -> SealedDataView {
        SealedDataView { data: self.data@, source: self.source@ }
    }
}

impl ResourceData {
    /// Bytes with this hash, from the present level itself.
    pub fn new(data: Vec<u8>, hash: String) -> (r: Self)
        ensures
            r@ == (DataView { data: data@, source: DataSourceView { hash: hash@, idx: None } }),
    {
        ResourceData { data, source: ResourceDataSource::new(hash) }
    }

    /// The data as seen from the outermost level, where the present one has number `idx`.
    pub fn seal(self, idx: usize) -> (r: SealedResourceData)
        ensures
            r@ == self@.seal(idx),
    {
        SealedResourceData { data: self.data, source: self.source.seal(idx) }
    }

    /// The data as seen from one level further out, where the present one has number `idx`.
    pub fn wrap(self, idx: usize) -> (r: Self)
        ensures
            r@ == self@.wrap(idx),
    {
        ResourceData { data: self.data, source: self.source.wrap(idx) }
    }
}

/// What loading from a source gives.
pub type ResourceDataResult = Result<ResourceData, ResourceLoadError>;

/// What loading gives, seen from the outermost level.
pub type SealedResourceDataResult = Result<SealedResourceData, ResourceLoadError>;

/// The mathematical value of a [`ResourceDataResult`].
pub open spec fn data_result(r: ResourceDataResult) -> Result<DataView, LoadErrorView> {
    match r {
        Ok(data) => Ok(data@),
        Err(error) => Err(error@),
    }
}

/// The mathematical value of an optional [`ResourceDataSource`].
pub open spec fn source_option(r: Option<ResourceDataSource>) -> Option<DataSourceView> {
    match r {
        Some(source) => Some(source@),
        None => None,
    }
}

/// A source of resource data.
pub trait ResourceSource: Sized {
    /// The hash that the source has for an identifier, and from where below.
    spec fn hash_of(&self, id: ResourceId) -> Option<DataSourceView>;

    /// The data that the source has for an identifier, or why there is none.
    spec fn data_of(&self, id: ResourceId) -> Result<DataView, LoadErrorView>;

    /// The data that the source has for an identifier at a position below it.
    spec fn sub_data_of(&self, id: ResourceId, sub_idx: SourceIndex) -> Result<DataView, LoadErrorView>;

    /// The hash that the source has for an identifier, and from where below.
    fn hash(&self, id: &ResourceId) -> (r: Option<ResourceDataSource>)
        ensures
            source_option(r) == self.hash_of(*id),
    ;

    /// The data that the source has for an identifier.
    fn load(&self, id: &ResourceId) -> (r: ResourceDataResult)
        ensures
            data_result(r) == self.data_of(*id),
    ;

    /// The data that the source has for an identifier at a position below it.
    fn sub_load(&self, id: &ResourceId, sub_idx: &SourceIndex) -> (r: ResourceDataResult)
        ensures
            data_result(r) == self.sub_data_of(*id, *sub_idx),
    ;
}

/// What happened to a resource at a source.
#[derive(Debug, PartialEq, Eq)]
pub enum ResourceUpdate {
    /// There is data now, with this hash.
    Added(String),
    /// There is other data now, with this hash.
    Modified(String),
    /// There is no data any more.
    Removed,
    /// The source has moved; this is where it was.
    MovedSourceIndex(SourceIndex),
}

/// The mathematical value of a [`ResourceUpdate`].
pub enum UpdateView {
    Added(Seq<char>),
    Modified(Seq<char>),
    Removed,
    MovedSourceIndex(SourceIndex),
}

impl View for ResourceUpdate {
    type V = UpdateView;

    open spec fn view(&self) -> UpdateView {
        match self {
            ResourceUpdate::Added(hash) => UpdateView::Added(hash@),
            ResourceUpdate::Modified(hash) => UpdateView::Modified(hash@),
            ResourceUpdate::Removed => UpdateView::Removed,
            ResourceUpdate::MovedSourceIndex(idx) => UpdateView::MovedSourceIndex(*idx),
        }
    }
}

impl Clone for ResourceUpdate {
    fn clone(&self) -> (r: Self)
        ensures
            r@ == self@,
    {
        match self {
            ResourceUpdate::Added(hash) => ResourceUpdate::Added(hash.clone()),
            ResourceUpdate::Modified(hash) => ResourceUpdate::Modified(hash.clone()),
            ResourceUpdate::Removed => ResourceUpdate::Removed,
            ResourceUpdate::MovedSourceIndex(idx) => ResourceUpdate::MovedSourceIndex(idx.clone()),
        }
    }
}

/// `chrono::Utc::now`: the present time, as whole seconds since 1970 and nanoseconds on top of them.
/// Nothing is claimed of it.
#[verifier::external_body]
fn now_parts() -> (r: (i64, u32)) {
    let now = chrono::Utc::now();
    (now.timestamp(), now.timestamp_subsec_nanos())
}

/// The nanoseconds that seconds, and nanoseconds on top of them, amount to.
pub fn to_nanos(seconds: i64, nanos: u32) -> (r: i128)
    ensures
        r == seconds * 1_000_000_000 + nanos,
{
    seconds as i128 * 1_000_000_000 + nanos as i128
}

/// Updates that were noticed together, at most one for each identifier.
pub struct BulkResourceUpdate {
    /// When they were noticed, in nanoseconds since 1970.
    pub timestamp: i128,
    pub updates: IdMap<ResourceId, ResourceUpdate>,
}

/// The mathematical value of a [`BulkResourceUpdate`]; the time is left out.
pub struct BulkView {
    /// The identifiers, in the order in which they are processed.
    pub order: Seq<ResourceId>,
    pub updates: Map<ResourceId, UpdateView>,
}

impl View for BulkResourceUpdate {
    type V = BulkView;

    open spec fn view(&self) -> BulkView {
        BulkView {
            order: self.updates.keys(),
            updates: self.updates@.map_values(|u: ResourceUpdate| u@),
        }
    }
}

impl BulkResourceUpdate {
    /// The identifiers are distinct, and each has its update.
    pub open spec fn wf(&self) -> bool {
        self.updates.wf()
    }

    /// The given updates, noticed now.
    pub fn new(updates: IdMap<ResourceId, ResourceUpdate>) -> (r: Self)
        ensures
            r.updates == updates,
    {
        let (seconds, nanos) = now_parts();
        BulkResourceUpdate::at(to_nanos(seconds, nanos), updates)
    }

    /// The given updates, noticed at the given time.
    pub fn at(timestamp: i128, updates: IdMap<ResourceId, ResourceUpdate>) -> (r: Self)
        ensures
            r.timestamp == timestamp,
            r.updates == updates,
    {
        BulkResourceUpdate { timestamp, updates }
    }

    /// One update, noticed now.
    pub fn single(id: ResourceId, update: ResourceUpdate) -> (r: Self)
        ensures
            r.wf(),
            r@.order == seq![id],
            r.updates@ == Map::<ResourceId, ResourceUpdate>::empty().insert(id, update),
    {
        let mut updates: IdMap<ResourceId, ResourceUpdate> = IdMap::new();
        let _ = updates.insert(id, update);
        assert(updates.keys() =~= seq![id]);
        BulkResourceUpdate::new(updates)
    }

    /// The given updates, noticed now. Where an identifier occurs more than once, its last update
    /// counts.
    pub fn from_updates(updates: Vec<(ResourceId, ResourceUpdate)>) -> (r: Self)
        ensures
            r.wf(),
            r.updates@ == collected(updates@),
            r@.order == collected_order(updates@),
    {
        let mut map: IdMap<ResourceId, ResourceUpdate> = IdMap::new();
        let ghost all = updates@;
        let mut rest = updates;
        let mut i: usize = 0;
        let n: usize = rest.len();
        assert(all.take(0) =~= Seq::<(ResourceId, ResourceUpdate)>::empty());
        while i < n
            invariant
                i <= n,
                n == all.len(),
                rest@ == all.skip(i as int),
                map.wf(),
                map@ == collected(all.take(i as int)),
                map.keys() == collected_order(all.take(i as int)),
            decreases n - i,
        {
            let (id, update) = rest.remove(0);
            assert(all.take(i + 1).drop_last() =~= all.take(i as int));
            assert(all.skip(i as int).remove(0) =~= all.skip(i + 1));
            let _ = map.insert(id, update);
            i += 1;
        }
        assert(all.take(all.len() as int) =~= all);
        BulkResourceUpdate::new(map)
    }
}

/// The mapping that a list of updates amounts to.
pub open spec fn collected(updates: Seq<(ResourceId, ResourceUpdate)>) -> Map<ResourceId, ResourceUpdate>
    decreases updates.len(),
{
    if updates.len() == 0 {
        Map::empty()
    } else {
        collected(updates.drop_last()).insert(updates.last().0, updates.last().1)
    }
}

/// The identifiers of a list of updates, each where it occurs first.
pub open spec fn collected_order(updates: Seq<(ResourceId, ResourceUpdate)>) -> Seq<ResourceId>
    decreases updates.len(),
{
    if updates.len() == 0 {
        Seq::empty()
    } else {
        crate::util::table::seq_with(collected_order(updates.drop_last()), updates.last().0)
    }
}

/// Positions compare by their outermost numbers. Under one number, the bound below comes first, then
/// the number itself, then what lies below it, by the order there, and the bound above comes last.
pub proof fn lemma_index_order_by_value(a: SourceIndex, b: SourceIndex)
    ensures
        a.idx < b.idx ==> a.before(b) && !b.before(a),
        a.idx == b.idx ==> match (a.sub_idx, b.sub_idx) {
            (SubIndex::At(x), SubIndex::At(y)) => a.before(b) <==> (*x).before(*y),
            (SubIndex::Min, SubIndex::Min) => !a.before(b),
            (SubIndex::Leaf, SubIndex::Leaf) => !a.before(b),
            (SubIndex::Max, SubIndex::Max) => !a.before(b),
            (SubIndex::Min, _) => a.before(b) && !b.before(a),
            (_, SubIndex::Max) => a.before(b) && !b.before(a),
            (SubIndex::Leaf, SubIndex::At(_)) => a.before(b) && !b.before(a),
            _ => b.before(a) && !a.before(b),
        },
        a.at_or_before(b) <==> a == b || a.before(b),
{
}

/// Nested numbers compare from the outermost number inwards: the first number in which they differ
/// decides, and a position comes before what lies below it.
pub proof fn lemma_nested_order(a: Seq<usize>, b: Seq<usize>, k: int)
    requires
        0 <= k <= a.len(),
        0 <= k <= b.len(),
        a.len() > 0,
        b.len() > 0,
        forall|i: int| 0 <= i < k ==> a[i] == b[i],
    ensures
        k < a.len() && k < b.len() && a[k] < b[k] ==> SourceIndex::nested(a).before(SourceIndex::nested(b))
            && !SourceIndex::nested(b).before(SourceIndex::nested(a)),
        k == a.len() && k < b.len() ==> SourceIndex::nested(a).before(SourceIndex::nested(b))
            && !SourceIndex::nested(b).before(SourceIndex::nested(a)),
        k == a.len() && k == b.len() ==> SourceIndex::nested(a) == SourceIndex::nested(b),
    decreases k,
{
    if k == a.len() && k == b.len() {
        assert(a =~= b);
    } else if k > 0 {
        assert(a[0] == b[0]);
        if a.len() > 1 && b.len() > 1 {
            let x = a.drop_first();
            let y = b.drop_first();
            assert forall|i: int| 0 <= i < k - 1 implies x[i] == y[i] by {
                assert(a[i + 1] == b[i + 1]);
            }
            lemma_nested_order(x, y, k - 1);
        }
    }
}

/// The outermost of nested numbers is the first one, and the others lie below it.
pub proof fn lemma_nested_from_outside(indices: Seq<usize>)
    requires
        indices.len() > 0,
    ensures
        SourceIndex::nested(indices).idx == indices[0],
        indices.len() == 1 ==> SourceIndex::nested(indices).below() is None && SourceIndex::nested(indices)
            == SourceIndex::leaf(indices[0]),
        indices.len() > 1 ==> SourceIndex::nested(indices).below() == Some(
            SourceIndex::nested(indices.skip(1)),
        ),
{
    assert(indices.skip(1) =~= indices.drop_first());
}

/// What is put below nested numbers lies below the innermost one.
pub proof fn lemma_append_is_innermost(a: Seq<usize>, b: Seq<usize>)
    requires
        a.len() > 0,
        b.len() > 0,
    ensures
        SourceIndex::nested(a).append(SourceIndex::nested(b)) == SourceIndex::nested(a + b),
    decreases a.len(),
{
    let all = a + b;
    if a.len() == 1 {
        assert(all.drop_first() =~= b);
    } else {
        lemma_append_is_innermost(a.drop_first(), b);
        assert(all.drop_first() =~= a.drop_first() + b);
    }
}

/// A value that is seen from further out keeps its data and its hash, and its position there is the
/// number of the level in front of the position that it had.
pub proof fn lemma_seen_from_outside(data: DataView, idx: usize, indices: Seq<usize>)
    ensures
        data.wrap(idx).data == data.data,
        data.seal(idx).data == data.data,
        data.wrap(idx).source.hash == data.source.hash,
        data.seal(idx).source.hash == data.source.hash,
        data.wrap(idx).source.idx == Some(data.seal(idx).source.idx),
        data.source.idx is None ==> data.seal(idx).source.idx == SourceIndex::nested(seq![idx]),
        indices.len() > 0 && data.source.idx == Some(SourceIndex::nested(indices)) ==> data.seal(idx).source.idx
            == SourceIndex::nested(seq![idx] + indices),
        data.source.wrap(idx).idx == Some(data.source.seal(idx).idx),
        data.source.wrap(idx).hash == data.source.hash,
        data.source.seal(idx).hash == data.source.hash,
        data.source.seal(idx).idx.idx == idx,
        data.source.seal(idx).idx.below() == data.source.idx,
{
    assert((seq![idx] + indices).drop_first() =~= indices);
    assert((seq![idx] + indices)[0] == idx);
}

/// Where a list of updates names an identifier more than once, the last update counts, and an
/// identifier has an update if and only if the list names it.
pub proof fn lemma_last_update_counts(updates: Seq<(ResourceId, ResourceUpdate)>, id: ResourceId, i: int)
    ensures
        collected(updates).contains_key(id) <==> exists|j: int|
            0 <= j < updates.len() && (#[trigger] updates[j]).0 == id,
        0 <= i < updates.len() && updates[i].0 == id && (forall|j: int|
            i < j < updates.len() ==> (#[trigger] updates[j]).0 != id) ==> collected(updates)[id] == updates[i].1,
    decreases updates.len(),
{
    if updates.len() > 0 {
        let rest = updates.drop_last();
        lemma_last_update_counts(rest, id, i);
        let last = updates.len() - 1;
        if collected(updates).contains_key(id) {
            if updates[last].0 != id {
                let j = choose|j: int| 0 <= j < rest.len() && (#[trigger] rest[j]).0 == id;
                assert(updates[j].0 == id);
            }
        }
        if exists|j: int| 0 <= j < updates.len() && (#[trigger] updates[j]).0 == id {
            let j = choose|j: int| 0 <= j < updates.len() && (#[trigger] updates[j]).0 == id;
            if j < last {
                assert(rest[j].0 == id);
            }
        }
        if 0 <= i < last && updates[i].0 == id && (forall|j: int|
            i < j < updates.len() ==> (#[trigger] updates[j]).0 != id) {
            assert(updates[last].0 != id);
            assert forall|j: int| i < j < rest.len() implies (#[trigger] rest[j]).0 != id by {
                assert(updates[j].0 != id);
            }
            assert(rest[i] == updates[i]);
        }
    }
}

/// Identifiers are processed in the order in which a list names them first, each once.
pub proof fn lemma_first_mention_orders(updates: Seq<(ResourceId, ResourceUpdate)>)
    ensures
        collected_order(updates).no_duplicates(),
        forall|id: ResourceId| #[trigger]
            collected_order(updates).contains(id) <==> collected(updates).contains_key(id),
        forall|n: int|
            0 <= n <= updates.len() ==> collected_order(#[trigger] updates.take(n)).is_prefix_of(
                collected_order(updates),
            ),
    decreases updates.len(),
{
    if updates.len() > 0 {
        let rest = updates.drop_last();
        lemma_first_mention_orders(rest);
        crate::util::table::lemma_seq_with(collected_order(rest), updates.last().0);
        assert forall|n: int| 0 <= n <= updates.len() implies collected_order(
            #[trigger] updates.take(n),
        ).is_prefix_of(collected_order(updates)) by {
            if n < updates.len() {
                assert(updates.take(n) =~= rest.take(n));
                assert(collected_order(rest.take(n)).is_prefix_of(collected_order(rest)));
            } else {
                assert(updates.take(n) =~= updates);
            }
        }
    } else {
        assert forall|n: int| 0 <= n <= updates.len() implies collected_order(
            #[trigger] updates.take(n),
        ).is_prefix_of(collected_order(updates)) by {
            assert(updates.take(n) =~= updates);
        }
    }
}

/// A number names the position that nests it alone, which lies strictly between the bounds.
pub proof fn lemma_number_names_position(i: usize)
    ensures
        i.as_position() == SourceIndex::nested(seq![i]),
        SourceIndex::nested(seq![i]).as_position() == SourceIndex::nested(seq![i]),
        <SourceIndex as vstd::std_specs::convert::FromSpec<usize>>::from_spec(i) == SourceIndex::nested(seq![i]),
        SourceIndex::leaf(i) == SourceIndex::nested(seq![i]),
        SourceIndex::leaf(i).idx == i,
        SourceIndex::leaf(i).sub_idx is Leaf,
        SourceIndex::least().before(SourceIndex::leaf(i)),
        SourceIndex::leaf(i).before(SourceIndex::greatest()),
{
}

/// The text of a position is the text of its outermost number, and, behind a colon, that of what lies
/// below it or the name of the bound.
pub proof fn lemma_texts_nest(idx: usize, sub: SourceIndex, numbers: Seq<usize>)
    ensures
        SourceIndex::leaf(idx).text() == crate::util::text::decimal(idx as nat),
        SourceIndex::under(idx, Some(sub)).text() == SourceIndex::leaf(idx).text() + ":"@ + sub.text(),
        (SourceIndex { idx, sub_idx: SubIndex::Min }).text() == SourceIndex::leaf(idx).text() + ":MIN"@,
        (SourceIndex { idx, sub_idx: SubIndex::Max }).text() == SourceIndex::leaf(idx).text() + ":MAX"@,
        numbers.len() > 1 ==> SourceIndex::nested(numbers).text() == crate::util::text::decimal(numbers[0] as nat)
            + ":"@ + SourceIndex::nested(numbers.drop_first()).text(),
{
}

/// Positions compare by which of them comes before the other.
pub proof fn lemma_order_of_positions(a: SourceIndex, b: SourceIndex)
    ensures
        index_order(a, b) == Ordering::Less <==> a.before(b),
        index_order(a, b) == Ordering::Greater <==> b.before(a),
        index_order(a, b) == Ordering::Equal <==> a == b,
        vstd::std_specs::cmp::PartialOrdSpec::partial_cmp_spec(&a, &b) == Some(index_order(a, b)),
        vstd::std_specs::cmp::PartialEqSpec::eq_spec(&a, &b) <==> a == b,
{
    if a == b {
        lemma_index_order_irreflexive(a);
    } else {
        lemma_index_order_total(a, b);
    }
}

/// What sources answer is seen as what it is.
pub proof fn lemma_answers_are_seen(r: ResourceDataResult, source: Option<ResourceDataSource>)
    ensures
        r matches Ok(data) ==> data_result(r) == Ok::<DataView, LoadErrorView>(data@),
        r matches Err(error) ==> data_result(r) == Err::<DataView, LoadErrorView>(error@),
        source is None <==> source_option(source) is None,
        source matches Some(s) ==> source_option(source) == Some(
            DataSourceView { hash: s.hash@, idx: s.idx },
        ),
{
}

/// An update is seen as what it is, with the hash or the position that it names.
pub proof fn lemma_updates_are_seen(update: ResourceUpdate)
    ensures
        match update {
            ResourceUpdate::Added(hash) => update@ == UpdateView::Added(hash@),
            ResourceUpdate::Modified(hash) => update@ == UpdateView::Modified(hash@),
            ResourceUpdate::Removed => update@ == UpdateView::Removed,
            ResourceUpdate::MovedSourceIndex(idx) => update@ == UpdateView::MovedSourceIndex(idx),
        },
{
}

} // verus!
