//! Fixed data by path, without hashes.
use vstd::prelude::*;

use crate::resource::path::ResourcePath;

verus! {

/// The data that a list of entries has for a path: that of the last entry with the path.
pub open spec fn entry_data(entries: Seq<(ResourcePath, &'static [u8])>, path: Seq<char>) -> Option<Seq<u8>>
    decreases entries.len(),
{
    if entries.len() == 0 {
        None
    } else if entries.last().0@ == path {
        Some(entries.last().1@)
    } else {
        entry_data(entries.drop_last(), path)
    }
}

/// A source that holds its data itself, by path.
pub struct ConstantResourceSource {
    raw: Vec<(ResourcePath, &'static [u8])>,
}

impl ConstantResourceSource {
    /// The data for a path.
    pub closed spec fn data(&self, path: Seq<char>) -> Option<Seq<u8>> {
        entry_data(self.raw@, path)
    }

    /// A source with the given data.
    pub fn new(raw: Vec<(ResourcePath, &'static [u8])>) -> (r: Self)
        ensures
            forall|path: Seq<char>| #[trigger] r.data(path) == entry_data(raw@, path),
    {
        ConstantResourceSource { raw }
    }

    /// The builder of a source.
    pub fn builder() -> (r: ConstantResourceSourceBuilder)
        ensures
            forall|path: Seq<char>| #[trigger] r.data(path) == None::<Seq<u8>>,
    {
        ConstantResourceSourceBuilder::new()
    }

    /// The data for a path; the path itself comes back where there is none.
    pub fn load(&self, id: &ResourcePath) -> (r: Result<&'static [u8], ResourcePath>)
        ensures
            match self.data(id@) {
                Some(data) => r.is_ok() && r->Ok_0@ == data,
                None => r.is_err() && r->Err_0@ == id@,
            },
    {
        let mut i: usize = self.raw.len();
        assert(self.raw@.take(i as int) =~= self.raw@);
        while i > 0
            invariant
                i <= self.raw@.len(),
                self.data(id@) == entry_data(self.raw@.take(i as int), id@),
            decreases i,
        {
            assert(self.raw@.take(i as int).drop_last() =~= self.raw@.take(i - 1));
            i -= 1;
            if self.raw[i].0.equals(id) {
                return Ok(self.raw[i].1);
            }
        }
        Err(id.duplicate())
    }
}

/// Collects the data of a [`ConstantResourceSource`].
pub struct ConstantResourceSourceBuilder {
    raw: Vec<(ResourcePath, &'static [u8])>,
}

impl ConstantResourceSourceBuilder {
    /// The data collected for a path.
    pub closed spec fn data(&self, path: Seq<char>) -> Option<Seq<u8>> {
        entry_data(self.raw@, path)
    }

    /// There is no data yet.
    pub fn new() -> (r: Self)
        ensures
            forall|path: Seq<char>| #[trigger] r.data(path) == None::<Seq<u8>>,
    {
        ConstantResourceSourceBuilder { raw: Vec::new() }
    }

    /// Adds data for a path, in place of any that was added before.
    pub fn resource(self, id: ResourcePath, data: &'static [u8]) -> (r: Self)
        ensures
            forall|path: Seq<char>| #[trigger]
                r.data(path) == (if path == id@ {
                    Some(data@)
                } else {
                    self.data(path)
                }),
    {
        let ghost pre = self.raw@;
        let mut raw = self.raw;
        raw.push((id, data));
        assert(raw@.drop_last() =~= pre);
        ConstantResourceSourceBuilder { raw }
    }

    /// The source with the collected data.
    pub fn build(self) -> (r: ConstantResourceSource)
        ensures
            forall|path: Seq<char>| #[trigger] r.data(path) == self.data(path),
    {
        ConstantResourceSource::new(self.raw)
    }
}

/// Where a path was given more than once, the last data counts; a path has data if and only if it was
/// given.
pub proof fn lemma_last_entry_counts(entries: Seq<(ResourcePath, &'static [u8])>, path: Seq<char>, i: int)
    ensures
        entry_data(entries, path) is Some <==> exists|j: int|
            0 <= j < entries.len() && (#[trigger] entries[j]).0@ == path,
        0 <= i < entries.len() && entries[i].0@ == path && (forall|j: int|
            i < j < entries.len() ==> (#[trigger] entries[j]).0@ != path) ==> entry_data(entries, path) == Some(
            entries[i].1@,
        ),
    decreases entries.len(),
{
    if entries.len() > 0 {
        let rest = entries.drop_last();
        let last = entries.len() - 1;
        lemma_last_entry_counts(rest, path, i);
        if entries[last].0@ != path {
            if exists|j: int| 0 <= j < entries.len() && (#[trigger] entries[j]).0@ == path {
                let j = choose|j: int| 0 <= j < entries.len() && (#[trigger] entries[j]).0@ == path;
                assert(rest[j].0@ == path);
            }
            if entry_data(rest, path) is Some {
                let j = choose|j: int| 0 <= j < rest.len() && (#[trigger] rest[j]).0@ == path;
                assert(entries[j].0@ == path);
            }
        }
        if 0 <= i < last && entries[i].0@ == path && (forall|j: int|
            i < j < entries.len() ==> (#[trigger] entries[j]).0@ != path) {
            assert(entries[last].0@ != path);
            assert forall|j: int| i < j < rest.len() implies (#[trigger] rest[j]).0@ != path by {
                assert(entries[j].0@ != path);
            }
            assert(rest[i] == entries[i]);
        }
    }
}

} // verus!
