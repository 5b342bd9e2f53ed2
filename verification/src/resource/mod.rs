//! Resources: identification, sources, watching and management.
use vstd::prelude::*;

use crate::resource::id::{IdTable, ResourceId};
use crate::util::table::Identity;
use crate::util::text::{u64_text, usize_text};

pub mod constant;
pub mod id;
pub mod manager;
pub mod path;
pub mod source;
pub mod watcher;

verus! {

/// What a cached resource is found by: its identifier, the type of its loader and the loader's own
/// key.
#[derive(Clone, Copy, PartialEq, Eq, Structural, Hash, Debug)]
pub struct ResKey {
    pub id: ResourceId,
    pub loader_type: u64,
    pub loader_key: u64,
}

impl Identity for ResKey {
    fn same(&self, other: &Self) -> (r: bool) {
        *self == *other
    }
}

impl ResKey {
    /// The key for an identifier and a loader.
    pub fn new(id: ResourceId, loader_type: u64, loader_key: u64) -> (r: Self)
        ensures
            r == (ResKey { id, loader_type, loader_key }),
    {
        ResKey { id, loader_type, loader_key }
    }
}

/// Why a resource could not be loaded.
#[derive(Debug)]
pub enum ResourceLoadError {
    /// No source has data for the identifier.
    NotFound(ResourceId),
    /// The resource was loaded before, as another type.
    TypeMismatch { requested: u64, actual: u64 },
    /// The resource is being loaded by one of those that depend on it.
    CyclicLoad { parents: Vec<ResKey>, key: ResKey },
    /// Reading or interpreting the data failed.
    ReadError(String),
}

/// The mathematical value of a [`ResourceLoadError`].
pub enum LoadErrorView {
    NotFound(ResourceId),
    TypeMismatch { requested: u64, actual: u64 },
    CyclicLoad { parents: Seq<ResKey>, key: ResKey },
    ReadError(Seq<char>),
}

impl View for ResourceLoadError {
    type V = LoadErrorView;

    open spec fn view(&self) -> LoadErrorView {
        match self {
            ResourceLoadError::NotFound(id) => LoadErrorView::NotFound(*id),
            ResourceLoadError::TypeMismatch { requested, actual } => LoadErrorView::TypeMismatch {
                requested: *requested,
                actual: *actual,
            },
            ResourceLoadError::CyclicLoad { parents, key } => LoadErrorView::CyclicLoad {
                parents: parents@,
                key: *key,
            },
            ResourceLoadError::ReadError(text) => LoadErrorView::ReadError(text@),
        }
    }
}

/// A copy of a list of keys.
pub fn copy_keys(keys: &Vec<ResKey>) -> (r: Vec<ResKey>)
    ensures
        r@ == keys@,
{
    let mut r: Vec<ResKey> = Vec::new();
    let mut i: usize = 0;
    while i < keys.len()
        invariant
            i <= keys@.len(),
            r@ == keys@.take(i as int),
        decreases keys@.len() - i,
    {
        r.push(keys[i]);
        assert(keys@.take(i as int).push(keys@[i as int]) =~= keys@.take(i + 1));
        i += 1;
    }
    assert(keys@.take(keys@.len() as int) =~= keys@);
    r
}

impl Clone for ResourceLoadError {
    fn clone(&self) -> (r: Self)
        ensures
            r@ == self@,
    {
        match self {
            ResourceLoadError::NotFound(id) => ResourceLoadError::NotFound(*id),
            ResourceLoadError::TypeMismatch { requested, actual } => ResourceLoadError::TypeMismatch {
                requested: *requested,
                actual: *actual,
            },
            ResourceLoadError::CyclicLoad { parents, key } => ResourceLoadError::CyclicLoad {
                parents: copy_keys(parents),
                key: *key,
            },
            ResourceLoadError::ReadError(text) => ResourceLoadError::ReadError(text.clone()),
        }
    }
}

/// The descriptions of the identifiers of keys, joined by commas.
pub open spec fn keys_text(keys: Seq<ResKey>, table: IdTable) -> Seq<char>
    decreases keys.len(),
{
    if keys.len() == 0 {
        Seq::empty()
    } else if keys.len() == 1 {
        keys[0].id.description(table)
    } else {
        keys_text(keys.drop_last(), table) + ", "@ + keys.last().id.description(table)
    }
}

/// Whether all keys have identifiers of the table.
pub open spec fn keys_known(keys: Seq<ResKey>, table: IdTable) -> bool {
    forall|i: int| 0 <= i < keys.len() ==> (#[trigger] keys[i]).id.known(table)
}

fn render_keys(keys: &Vec<ResKey>, table: &IdTable) -> (r: String)
    requires
        keys_known(keys@, *table),
    ensures
        r@ == keys_text(keys@, *table),
{
    let mut s = String::new();
    let mut i: usize = 0;
    assert(keys@.take(0) =~= Seq::<ResKey>::empty());
    while i < keys.len()
        invariant
            keys_known(keys@, *table),
            i <= keys@.len(),
            s@ == keys_text(keys@.take(i as int), *table),
        decreases keys@.len() - i,
    {
        assert(keys@.take(i + 1).drop_last() =~= keys@.take(i as int));
        if i > 0 {
            s.append(", ");
        }
        let text = keys[i].id.debug_text(table);
        s.append(text.as_str());
        assert(s@ =~= keys_text(keys@.take(i + 1), *table));
        i += 1;
    }
    assert(keys@.take(keys@.len() as int) =~= keys@);
    s
}

impl ResourceLoadError {
    /// The error for a resource of type `actual` that was requested as another type.
    pub fn from_mismatch(requested: u64, actual: u64) -> (r: Self)
        ensures
            r@ == (LoadErrorView::TypeMismatch { requested, actual }),
    {
        ResourceLoadError::TypeMismatch { requested, actual }
    }

    /// The error for a failure with the given text.
    pub fn from_error(text: String) -> (r: Self)
        ensures
            r@ == LoadErrorView::ReadError(text@),
    {
        ResourceLoadError::ReadError(text)
    }

    /// Whether the error says that there is no data.
    pub fn is_not_found(&self) -> (r: bool)
        ensures
            r == (self@ is NotFound),
    {
        match self {
            ResourceLoadError::NotFound(_) => true,
            _ => false,
        }
    }

    /// The identifiers that the error mentions are those of the table.
    pub open spec fn known(self, table: IdTable) -> bool {
        match self@ {
            LoadErrorView::NotFound(id) => id.known(table),
            LoadErrorView::CyclicLoad { parents, key } => keys_known(parents, table) && key.id.known(table),
            _ => true,
        }
    }

    /// The text of the error.
    pub open spec fn text(self, table: IdTable) -> Seq<char> {
        match self@ {
            LoadErrorView::NotFound(id) => "No resource found that is associated with ID: '"@ + id.name(table)
                + "'"@,
            LoadErrorView::TypeMismatch { requested, actual } => "Requested type ("@
                + crate::util::text::decimal(requested as nat)
                + ") does not match previously loaded type ("@ + crate::util::text::decimal(actual as nat)
                + ")"@,
            LoadErrorView::CyclicLoad { parents, key } => "Cyclic load detected: ["@ + keys_text(
                parents,
                table,
            ) + "] => "@ + key.id.name(table),
            LoadErrorView::ReadError(text) => text,
        }
    }

    /// The text of the error.
    pub fn to_text(&self, table: &IdTable) -> (r: String)
        requires
            self.known(*table),
        ensures
            r@ == self.text(*table),
    {
        match self {
            ResourceLoadError::NotFound(id) => {
                let mut s = "No resource found that is associated with ID: '".to_owned();
                s.append(id.as_str(table));
                s.append("'");
                s
            },
            ResourceLoadError::TypeMismatch { requested, actual } => {
                let mut s = "Requested type (".to_owned();
                let a = u64_text(*requested);
                s.append(a.as_str());
                s.append(") does not match previously loaded type (");
                let b = u64_text(*actual);
                s.append(b.as_str());
                s.append(")");
                s
            },
            ResourceLoadError::CyclicLoad { parents, key } => {
                let mut s = "Cyclic load detected: [".to_owned();
                let list = render_keys(parents, table);
                s.append(list.as_str());
                s.append("] => ");
                s.append(key.id.as_str(table));
                s
            },
            ResourceLoadError::ReadError(text) => text.clone(),
        }
    }
}

/// Something that is updated after the resource that it is attached to.
#[derive(Debug, Clone, Copy, PartialEq, Eq, Structural)]
pub enum SubResourceRef {
    /// A resource that is computed from the resource, with its type.
    Resource { type_id: u64, handle: u64 },
    /// A callback.
    Callback { handle: u64 },
}

impl SubResourceRef {
    /// A description of what is attached.
    pub fn debug_text(&self) -> (r: String)
        ensures
            r@ == (match *self {
                SubResourceRef::Resource { type_id, .. } => "SubResource { type: \"SubResource\", type_id: "@
                    + crate::util::text::decimal(type_id as nat) + ", .. }"@,
                SubResourceRef::Callback { .. } => "SubResource { type: \"Callback\", .. }"@,
            }),
    {
        match self {
            SubResourceRef::Resource { type_id, .. } => {
                let mut s = "SubResource { type: \"SubResource\", type_id: ".to_owned();
                let number = u64_text(*type_id);
                s.append(number.as_str());
                s.append(", .. }");
                s
            },
            SubResourceRef::Callback { .. } => "SubResource { type: \"Callback\", .. }".to_owned(),
        }
    }
}

/// The text of the identifier of sub-resource number `n`.
pub open spec fn sub_resource_text(id: Seq<char>, n: nat) -> Seq<char> {
    id + "/<sub-"@ + crate::util::text::decimal(n) + ">"@
}

/// What is attached to a resource, in the order of attachment, which is the order of updates.
pub struct SubResources {
    refs: Vec<SubResourceRef>,
}

impl View for SubResources {
    type V = Seq<SubResourceRef>;

    closed spec fn view(&self) -> Seq<SubResourceRef> {
        self.refs@
    }
}

impl SubResources {
    /// Nothing is attached.
    pub fn new() -> (r: Self)
        ensures
            r@ == Seq::<SubResourceRef>::empty(),
    {
        SubResources { refs: Vec::new() }
    }

    /// Attaches a resource; the text of its identifier is returned.
    pub fn attach_sub_resource(&mut self, id: &str, type_id: u64, handle: u64) -> (r: String)
        ensures
            r@ == sub_resource_text(id@, old(self)@.len()),
            final(self)@ == old(self)@.push(SubResourceRef::Resource { type_id, handle }),
    {
        let mut s = id.to_owned();
        s.append("/<sub-");
        let n = usize_text(self.refs.len());
        s.append(n.as_str());
        s.append(">");
        self.refs.push(SubResourceRef::Resource { type_id, handle });
        s
    }

    /// Attaches a callback.
    pub fn attach_update_callback(&mut self, handle: u64)
        ensures
            final(self)@ == old(self)@.push(SubResourceRef::Callback { handle }),
    {
        self.refs.push(SubResourceRef::Callback { handle });
    }

    /// The number of attached things.
    pub fn len(&self) -> (r: usize)
        ensures
            r == self@.len(),
    {
        self.refs.len()
    }

    /// What is to be updated as number `i`. The outcome of one update does not keep the next one
    /// from happening.
    pub fn update_step(&self, i: usize) -> (r: Option<SubResourceRef>)
        ensures
            r == (if i < self@.len() {
                Some(self@[i as int])
            } else {
                None
            }),
    {
        if i < self.refs.len() {
            Some(self.refs[i])
        } else {
            None
        }
    }
}

/// The descriptions of several keys stand in their order, with one comma between two of them.
pub proof fn lemma_keys_text_joins(a: Seq<ResKey>, b: Seq<ResKey>, table: IdTable)
    requires
        a.len() > 0,
        b.len() > 0,
    ensures
        keys_text(a + b, table) == keys_text(a, table) + ", "@ + keys_text(b, table),
        a.len() == 1 ==> keys_text(a, table) == a[0].id.description(table),
    decreases b.len(),
{
    let all = a + b;
    assert(all.drop_last() =~= a + b.drop_last());
    assert(all.last() == b.last());
    if b.len() > 1 {
        lemma_keys_text_joins(a, b.drop_last(), table);
        assert(keys_text(all, table) =~= keys_text(a, table) + ", "@ + keys_text(b, table));
    } else {
        assert(a + b.drop_last() =~= a);
    }
}

/// The identifiers of different sub-resources of one resource differ, and begin with that of the
/// resource.
pub proof fn lemma_sub_resources_differ(id: Seq<char>, m: nat, n: nat)
    ensures
        id.is_prefix_of(sub_resource_text(id, m)),
        sub_resource_text(id, m) == sub_resource_text(id, n) ==> m == n,
{
    let a = sub_resource_text(id, m);
    let b = sub_resource_text(id, n);
    if a == b {
        let x = crate::util::text::decimal(m);
        let y = crate::util::text::decimal(n);
        let k = id.len() + "/<sub-"@.len();
        assert(a.len() == k + x.len() + ">"@.len());
        assert(b.len() == k + y.len() + ">"@.len());
        assert forall|i: int| 0 <= i < x.len() implies x[i] == y[i] by {
            assert(a[k + i] == x[i]);
            assert(b[k + i] == y[i]);
        }
        assert(x =~= y);
        crate::util::text::lemma_numerals_differ(m, n);
    }
}

/// An error is seen as what it is, with everything that it names.
pub proof fn lemma_errors_are_seen(error: ResourceLoadError)
    ensures
        match error {
            ResourceLoadError::NotFound(id) => error@ == LoadErrorView::NotFound(id),
            ResourceLoadError::TypeMismatch { requested, actual } => error@ == (LoadErrorView::TypeMismatch {
                requested,
                actual,
            }),
            ResourceLoadError::CyclicLoad { parents, key } => error@ == (LoadErrorView::CyclicLoad {
                parents: parents@,
                key,
            }),
            ResourceLoadError::ReadError(text) => error@ == LoadErrorView::ReadError(text@),
        },
{
}

} // verus!
