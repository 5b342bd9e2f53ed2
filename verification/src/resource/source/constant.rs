//! Sources with data that is fixed when the program is built.
use vstd::prelude::*;

use crate::resource::id::ResourceId;
use crate::resource::source::{
    DataSourceView, DataView, ResourceData, ResourceDataResult, ResourceDataSource, ResourceSource,
    SourceIndex,
};
use crate::resource::{LoadErrorView, ResourceLoadError};
use crate::util::table::IdMap;

use base64::engine::general_purpose::STANDARD;
use base64::Engine;
use sha2::{Digest, Sha256};

verus! {

/// The SHA-256 digest of some bytes.
pub uninterp spec fn sha256(data: Seq<u8>) -> Seq<u8>;

/// The text of some bytes in the standard base64 alphabet, with padding.
pub uninterp spec fn base64_text(bytes: Seq<u8>) -> Seq<char>;

/// `sha2::Sha256::digest`: the digest of the bytes, which is 32 bytes long.
#[verifier::external_body]
fn sha256_digest(data: &[u8]) -> (r: Vec<u8>)
    ensures
        r@ == sha256(data@),
        r@.len() == 32,
{
    Sha256::digest(data).to_vec()
}

/// `base64::Engine::encode` of the standard engine: the text of the bytes.
#[verifier::external_body]
fn base64_encode(bytes: &Vec<u8>) -> (r: String)
    requires
        bytes@.len() <= 0x1000_0000,
    ensures
        r@ == base64_text(bytes@),
{
    STANDARD.encode(bytes)
}

/// The hash by which sources tell data apart: the SHA-256 digest, as base64 text.
pub open spec fn data_hash(data: Seq<u8>) -> Seq<char> {
    base64_text(sha256(data))
}

/// The hash of some data.
pub fn hash_data(data: &[u8]) -> (r: String)
    ensures
        r@ == data_hash(data@),
{
    let digest = sha256_digest(data);
    base64_encode(&digest)
}

/// Bytes with their hash.
pub struct ConstantEntry {
    pub data: &'static [u8],
    pub hash: String,
}

/// A source that holds its data itself.
pub struct ConstantResourceSource {
    raw: IdMap<ResourceId, ConstantEntry>,
}

impl View for ConstantResourceSource {
    type V = Map<ResourceId, (Seq<u8>, Seq<char>)>;

    closed spec fn view(&self) -> Map<ResourceId, (Seq<u8>, Seq<char>)> {
        self.raw@.map_values(|e: ConstantEntry| (e.data@, e.hash@))
    }
}

impl ConstantResourceSource {
    /// The source's table is in order.
    #[verifier::type_invariant]
    closed spec fn inv(self) -> bool {
        self.raw.wf()
    }

    /// A source with the given data.
    pub fn new(raw: IdMap<ResourceId, ConstantEntry>) -> (r: Self)
        requires
            raw.wf(),
        ensures
            r@ == raw@.map_values(|e: ConstantEntry| (e.data@, e.hash@)),
    {
        ConstantResourceSource { raw }
    }

    /// The builder of a source.
    pub fn builder() -> (r: ConstantResourceSourceBuilder)
        ensures
            r@ == Map::<ResourceId, (Seq<u8>, Seq<char>)>::empty(),
    {
        ConstantResourceSourceBuilder::new()
    }
}

impl ResourceSource for ConstantResourceSource {
    open spec fn hash_of(&self, id: ResourceId) -> Option<DataSourceView> {
        if self@.contains_key(id) {
            Some(DataSourceView { hash: self@[id].1, idx: None })
        } else {
            None
        }
    }

    open spec fn data_of(&self, id: ResourceId) -> Result<DataView, LoadErrorView> {
        if self@.contains_key(id) {
            Ok(
                DataView {
                    data: self@[id].0,
                    source: DataSourceView { hash: self@[id].1, idx: None },
                },
            )
        } else {
            Err(LoadErrorView::NotFound(id))
        }
    }

    open spec fn sub_data_of(&self, id: ResourceId, sub_idx: SourceIndex) -> Result<DataView, LoadErrorView> {
        self.data_of(id)
    }

    fn hash(&self, id: &ResourceId) -> (r: Option<ResourceDataSource>) {
        proof {
            use_type_invariant(self);
        }
        match self.raw.get(id) {
            Some(entry) => Some(ResourceDataSource::new(entry.hash.clone())),
            None => None,
        }
    }

    fn load(&self, id: &ResourceId) -> (r: ResourceDataResult) {
        proof {
            use_type_invariant(self);
        }
        match self.raw.get(id) {
            Some(entry) => {
                let bytes = vstd::slice::slice_to_vec(entry.data);
                Ok(ResourceData::new(bytes, entry.hash.clone()))
            },
            None => Err(ResourceLoadError::NotFound(*id)),
        }
    }

    fn sub_load(&self, id: &ResourceId, sub_idx: &SourceIndex) -> (r: ResourceDataResult) {
        self.load(id)
    }
}

/// Collects the data of a [`ConstantResourceSource`].
pub struct ConstantResourceSourceBuilder {
    raw: IdMap<ResourceId, ConstantEntry>,
}

impl View for ConstantResourceSourceBuilder {
    type V = Map<ResourceId, (Seq<u8>, Seq<char>)>;

    closed spec fn view(&self) -> Map<ResourceId, (Seq<u8>, Seq<char>)> {
        self.raw@.map_values(|e: ConstantEntry| (e.data@, e.hash@))
    }
}

impl ConstantResourceSourceBuilder {
    /// The builder's table is in order.
    #[verifier::type_invariant]
    closed spec fn inv(self) -> bool {
        self.raw.wf()
    }

    /// There is no data yet.
    pub fn new() -> (r: Self)
        ensures
            r@ == Map::<ResourceId, (Seq<u8>, Seq<char>)>::empty(),
    {
        let r = ConstantResourceSourceBuilder { raw: IdMap::new() };
        assert(r@ =~= Map::<ResourceId, (Seq<u8>, Seq<char>)>::empty());
        r
    }

    /// Adds data, with its hash.
    pub fn resource(self, id: ResourceId, data: &'static [u8]) -> (r: Self)
        ensures
            r@ == self@.insert(id, (data@, data_hash(data@))),
    {
        let hash = hash_data(data);
        self.hashed_resource(id, data, hash)
    }

    /// Adds data that is known to have the given hash.
    pub fn hashed_resource(self, id: ResourceId, data: &'static [u8], hash: String) -> (r: Self)
        ensures
            r@ == self@.insert(id, (data@, hash@)),
    {
        proof {
            use_type_invariant(&self);
        }
        let ghost pre = self@;
        let mut raw = self.raw;
        let _ = raw.insert(id, ConstantEntry { data, hash });
        let r = ConstantResourceSourceBuilder { raw };
        assert(r@ =~= pre.insert(id, (data@, hash@)));
        r
    }

    /// The source with the collected data.
    pub fn build(self) -> (r: ConstantResourceSource)
        ensures
            r@ == self@,
    {
        proof {
            use_type_invariant(&self);
        }
        ConstantResourceSource::new(self.raw)
    }
}

/// What was added to a builder last for an identifier is what its source hashes and loads.
pub proof fn lemma_constant_round_trip(
    before: Map<ResourceId, (Seq<u8>, Seq<char>)>,
    source: ConstantResourceSource,
    id: ResourceId,
    data: Seq<u8>,
)
    requires
        source@ == before.insert(id, (data, data_hash(data))),
    ensures
        source.hash_of(id) == Some(DataSourceView { hash: data_hash(data), idx: None }),
        source.data_of(id) == Ok::<DataView, LoadErrorView>(
            DataView { data, source: DataSourceView { hash: data_hash(data), idx: None } },
        ),
        forall|other: ResourceId|
            other != id && !before.contains_key(other) ==> #[trigger] source.hash_of(other)
                == None::<DataSourceView>,
{
}

/// A source that holds its data itself answers exactly for what was put into it, wherever it is asked;
/// its hash and its data belong together.
pub proof fn lemma_constant_answers_what_it_holds(source: ConstantResourceSource, id: ResourceId, sub_idx: SourceIndex)
    ensures
        source.hash_of(id) is Some <==> source@.contains_key(id),
        source.data_of(id) is Ok <==> source@.contains_key(id),
        source.hash_of(id) matches Some(found) ==> found.hash == source@[id].1 && found.idx is None,
        source.data_of(id) matches Ok(data) ==> {
            &&& data.data == source@[id].0
            &&& source.hash_of(id) == Some(data.source)
        },
        source.data_of(id) matches Err(error) ==> error == LoadErrorView::NotFound(id),
        source.sub_data_of(id, sub_idx) == source.data_of(id),
{
}

/// Data of which the digests are the same has the same hash, and the hash is made of nothing else.
pub proof fn lemma_digest_decides_hash(a: Seq<u8>, b: Seq<u8>)
    requires
        sha256(a) == sha256(b),
    ensures
        data_hash(a) == data_hash(b),
{
}

} // verus!
