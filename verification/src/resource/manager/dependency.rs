//! Which resources depend on which.
use vstd::prelude::*;

use crate::resource::id::ResourceId;
use crate::resource::ResKey;
use crate::util::pairs::{reachable, PairMap};
use crate::util::table::{lemma_seq_with, IdSet};

verus! {

/// The mathematical value of a [`DependencyGraph`].
pub struct GraphView {
    /// The pairs of a key and a key that it depends on.
    pub edges: Set<(ResKey, ResKey)>,
}

impl GraphView {
    /// Whether a key depends on something.
    pub open spec fn has_dependencies(self, key: ResKey) -> bool {
        crate::util::pairs::has_key(self.edges, key)
    }

    /// Whether something depends on a key.
    pub open spec fn has_dependents(self, key: ResKey) -> bool {
        exists|d: ResKey| #[trigger] self.edges.contains((d, key))
    }

    /// Whether the key occurs in the graph.
    pub open spec fn is_node(self, key: ResKey) -> bool {
        self.has_dependencies(key) || self.has_dependents(key)
    }

    /// The graph after `key` has lost its dependencies.
    pub open spec fn clear_dependencies(self, key: ResKey) -> GraphView {
        GraphView { edges: self.edges.filter(|e: (ResKey, ResKey)| e.0 != key) }
    }

    /// The graph after `key` has got one more dependency.
    pub open spec fn add_dependency(self, key: ResKey, dependency: ResKey) -> GraphView {
        GraphView { edges: self.edges.insert((key, dependency)) }
    }

    /// The graph in which `key` depends on exactly the given keys, and all else is as it was.
    pub open spec fn set_dependencies(self, key: ResKey, dependencies: Seq<ResKey>) -> GraphView {
        GraphView {
            edges: self.clear_dependencies(key).edges.union(
                Set::new(|e: (ResKey, ResKey)| e.0 == key && dependencies.contains(e.1)),
            ),
        }
    }
}

/// A graph of which resource was loaded from which.
pub struct DependencyGraph {
    dependencies: PairMap<ResKey, ResKey>,
    dependents: PairMap<ResKey, ResKey>,
    key_map: PairMap<ResourceId, ResKey>,
}

impl View for DependencyGraph {
    type V = GraphView;

    closed spec fn view(&self) -> GraphView {
        GraphView { edges: self.dependencies@ }
    }
}

impl DependencyGraph {
    /// Dependents are exactly the inverse of dependencies, and the nodes are filed under their own
    /// identifiers, nothing else being filed.
    pub closed spec fn wf(&self) -> bool {
        &&& self.dependencies.wf()
        &&& self.dependents.wf()
        &&& self.key_map.wf()
        &&& crate::util::pairs::is_inverse(self.dependencies@, self.dependents@)
        &&& forall|id: ResourceId, k: ResKey| #[trigger]
            self.key_map@.contains((id, k)) <==> k.id == id && self@.is_node(k)
    }

    /// The graph without nodes.
    pub fn new() -> (r: Self)
        ensures
            r.wf(),
            r@.edges == Set::<(ResKey, ResKey)>::empty(),
    {
        let r = DependencyGraph {
            dependencies: PairMap::new(),
            dependents: PairMap::new(),
            key_map: PairMap::new(),
        };
        assert forall|k: ResKey| !#[trigger] r@.is_node(k) by {}
        r
    }

    /// The builder of a graph.
    pub fn builder() -> (r: DependencyGraphBuilder)
        ensures
            r.graph.wf(),
            r.graph@.edges == Set::<(ResKey, ResKey)>::empty(),
    {
        DependencyGraphBuilder { graph: DependencyGraph::new() }
    }

    /// Takes all dependencies from a key.
    pub fn clear_dependencies(&mut self, key: &ResKey)
        requires
            old(self).wf(),
        ensures
            final(self).wf(),
            final(self)@ == old(self)@.clear_dependencies(*key),
    {
        let ghost pre = *self;
        let dependencies = self.dependencies.take(key);
        let ghost rest = pre@.clear_dependencies(*key);
        let ghost deps = dependencies@;
        let mut i: usize = 0;
        while i < dependencies.len()
            invariant
                pre.wf(),
                i <= dependencies@.len(),
                dependencies.wf(),
                deps == dependencies@,
                forall|d: ResKey| #[trigger] deps.contains(d) <==> pre@.edges.contains((*key, d)),
                rest == pre@.clear_dependencies(*key),
                self.dependencies.wf(),
                self.dependents.wf(),
                self.key_map.wf(),
                self.dependencies@ == rest.edges,
                forall|a: ResKey, b: ResKey| #[trigger]
                    self.dependents@.contains((b, a)) <==> pre@.edges.contains((a, b)) && !(a == *key
                        && deps.take(i as int).contains(b)),
                forall|id: ResourceId, k: ResKey| #[trigger]
                    self.key_map@.contains((id, k)) <==> pre.key_map@.contains((id, k)) && !(deps.take(
                        i as int,
                    ).contains(k) && !rest.is_node(k)),
            decreases dependencies@.len() - i,
        {
            let dependency: ResKey = *dependencies.at(i);
            let ghost before = *self;
            let ghost done = deps.take(i as int);
            let ghost done_next = deps.take(i + 1);
            proof {
                assert(deps.contains(dependency));
                assert(done_next =~= done.push(dependency));
                assert forall|b: ResKey| #[trigger] done_next.contains(b) <==> done.contains(b) || b == dependency by {
                    lemma_push_contains(done, dependency, b);
                }
                assert(!done.contains(dependency)) by {
                    if done.contains(dependency) {
                        let j = choose|j: int| 0 <= j < done.len() && done[j] == dependency;
                        assert(deps[j] == deps[i as int]);
                    }
                }
            }
            let removed = self.dependents.remove(&dependency, key);
            proof {
                assert forall|a: ResKey, b: ResKey| #[trigger]
                    self.dependents@.contains((b, a)) <==> pre@.edges.contains((a, b)) && !(a == *key
                        && done_next.contains(b)) by {
                    assert(before.dependents@.contains((b, a)) <==> pre@.edges.contains((a, b)) && !(a == *key
                        && done.contains(b)));
                }
                assert(before.dependents@.contains((dependency, *key)));
                assert(crate::util::pairs::has_key(self.dependents@, dependency) == rest.has_dependents(
                    dependency,
                )) by {
                    if crate::util::pairs::has_key(self.dependents@, dependency) {
                        let a = choose|a: ResKey| #[trigger] self.dependents@.contains((dependency, a));
                        assert(rest.edges.contains((a, dependency)));
                    }
                    if rest.has_dependents(dependency) {
                        let a = choose|a: ResKey| #[trigger] rest.edges.contains((a, dependency));
                        assert(self.dependents@.contains((dependency, a)));
                    }
                }
            }
            if removed && !self.dependencies.contains_key(&dependency) {
                let _ = self.key_map.remove(&dependency.id, &dependency);
                assert(!rest.is_node(dependency));
            } else {
                assert(rest.is_node(dependency));
            }
            proof {
                assert forall|id: ResourceId, k: ResKey| #[trigger]
                    self.key_map@.contains((id, k)) <==> pre.key_map@.contains((id, k)) && !(done_next.contains(
                        k,
                    ) && !rest.is_node(k)) by {
                    assert(before.key_map@.contains((id, k)) <==> pre.key_map@.contains((id, k)) && !(done.contains(
                        k,
                    ) && !rest.is_node(k)));
                }
            }
            i += 1;
        }
        let ghost looped = *self;
        proof {
            assert(deps.take(deps.len() as int) =~= deps);
            assert(self@.edges =~= rest.edges);
            assert forall|a: ResKey, b: ResKey| #[trigger]
                self.dependencies@.contains((a, b)) <==> self.dependents@.contains((b, a)) by {
                assert(self.dependents@.contains((b, a)) <==> pre@.edges.contains((a, b)) && !(a == *key
                    && deps.contains(b)));
                assert(deps.contains(b) <==> pre@.edges.contains((*key, b)));
            }
            lemma_inverse_keys(self.dependencies@, self.dependents@, *key);
            assert(!rest.has_dependencies(*key));
        }
        if !self.dependents.contains_key(key) {
            let _ = self.key_map.remove(&key.id, key);
        }
        proof {
            assert forall|id: ResourceId, k: ResKey| #[trigger]
                self.key_map@.contains((id, k)) <==> k.id == id && self@.is_node(k) by {
                assert(looped.key_map@.contains((id, k)) <==> pre.key_map@.contains((id, k)) && !(deps.contains(k)
                    && !rest.is_node(k)));
                assert(deps.contains(k) == pre@.edges.contains((*key, k)));
                assert(pre.key_map@.contains((id, k)) <==> k.id == id && pre@.is_node(k));
                lemma_nodes_after_clear(pre@, *key, k);
            }
        }
    }

    /// Adds one dependency to a key.
    pub fn add_dependency(&mut self, key: &ResKey, dependency: &ResKey)
        requires
            old(self).wf(),
        ensures
            final(self).wf(),
            final(self)@ == old(self)@.add_dependency(*key, *dependency),
    {
        let ghost pre = *self;
        self.dependencies.insert(*key, *dependency);
        self.dependents.insert(*dependency, *key);
        self.key_map.insert(key.id, *key);
        self.key_map.insert(dependency.id, *dependency);
        proof {
            let post = pre@.add_dependency(*key, *dependency);
            assert(self@.edges =~= post.edges);
            assert forall|id: ResourceId, k: ResKey| #[trigger]
                self.key_map@.contains((id, k)) <==> k.id == id && self@.is_node(k) by {
                assert(pre.key_map@.contains((id, k)) <==> k.id == id && pre@.is_node(k));
                lemma_nodes_after_add(pre@, *key, *dependency, k);
            }
        }
    }

    /// Lets a key depend on exactly the given keys.
    pub fn set_dependencies(&mut self, key: &ResKey, dependencies: &IdSet<ResKey>)
        requires
            old(self).wf(),
            dependencies.wf(),
        ensures
            final(self).wf(),
            final(self)@ == old(self)@.set_dependencies(*key, dependencies@),
    {
        self.clear_dependencies(key);
        let ghost cleared = self@;
        let ghost deps = dependencies@;
        let mut i: usize = 0;
        proof {
            assert(self@.edges =~= cleared.edges.union(
                Set::new(|e: (ResKey, ResKey)| e.0 == *key && deps.take(0).contains(e.1)),
            ));
        }
        while i < dependencies.len()
            invariant
                self.wf(),
                i <= dependencies@.len(),
                deps == dependencies@,
                self@.edges == cleared.edges.union(
                    Set::new(|e: (ResKey, ResKey)| e.0 == *key && deps.take(i as int).contains(e.1)),
                ),
            decreases dependencies@.len() - i,
        {
            let dependency: ResKey = *dependencies.at(i);
            let ghost before = self@;
            self.add_dependency(key, &dependency);
            proof {
                assert(deps.take(i + 1) =~= deps.take(i as int).push(dependency));
                assert forall|b: ResKey| #[trigger] deps.take(i + 1).contains(b) <==> deps.take(i as int).contains(b)
                    || b == dependency by {
                    lemma_push_contains(deps.take(i as int), dependency, b);
                }
                assert(self@.edges =~= cleared.edges.union(
                    Set::new(|e: (ResKey, ResKey)| e.0 == *key && deps.take(i + 1).contains(e.1)),
                ));
            }
            i += 1;
        }
        proof {
            assert(deps.take(deps.len() as int) =~= deps);
            let post = old(self)@.set_dependencies(*key, dependencies@);
            assert(self@.edges =~= post.edges);
        }
    }

    /// The node of a key, `None` if it does not occur in the graph.
    pub fn get(&self, key: &ResKey) -> (r: Option<DependencyNode<'_>>)
        requires
            self.wf(),
        ensures
            r.is_some() == self@.is_node(*key),
            r.is_some() ==> r.unwrap().key == *key && *r.unwrap().graph == *self,
    {
        proof {
            self.lemma_dependents(*key);
        }
        if self.dependencies.contains_key(key) || self.dependents.contains_key(key) {
            Some(DependencyNode { graph: self, key: *key })
        } else {
            None
        }
    }

    proof fn lemma_dependents(&self, key: ResKey)
        requires
            self.wf(),
        ensures
            crate::util::pairs::has_key(self.dependents@, key) == self@.has_dependents(key),
    {
        lemma_inverse_keys(self.dependencies@, self.dependents@, key);
    }

    /// All keys with an identifier that occur in the graph.
    pub fn keys_for_id(&self, id: &ResourceId) -> (r: IdSet<ResKey>)
        requires
            self.wf(),
        ensures
            r.wf(),
            forall|k: ResKey| #[trigger] r@.contains(k) <==> self@.is_node(k) && k.id == *id,
    {
        match self.key_map.get(id) {
            Some(keys) => {
                proof {
                    assert forall|k: ResKey| #[trigger] keys@.contains(k) <==> self@.is_node(k) && k.id == *id by {
                        assert(keys@.contains(k) <==> self.key_map@.contains((*id, k)));
                    }
                }
                keys.duplicate()
            },
            None => {
                proof {
                    assert forall|k: ResKey| !(#[trigger] self@.is_node(k) && k.id == *id) by {
                        if self@.is_node(k) && k.id == *id {
                            assert(self.key_map@.contains((*id, k)));
                        }
                    }
                }
                IdSet::new()
            },
        }
    }

    /// All nodes with an identifier, each once.
    pub fn nodes_for_id(&self, id: &ResourceId) -> (r: Vec<DependencyNode<'_>>)
        requires
            self.wf(),
        ensures
            forall|i: int|
                0 <= i < r@.len() ==> *(#[trigger] r@[i]).graph == *self && self@.is_node(r@[i].key)
                    && r@[i].key.id == *id,
            forall|i: int, j: int| 0 <= i < j < r@.len() ==> r@[i].key != r@[j].key,
            forall|k: ResKey| #[trigger]
                self@.is_node(k) && k.id == *id ==> exists|i: int|
                    0 <= i < r@.len() && (#[trigger] r@[i]).key == k,
    {
        let keys = self.keys_for_id(id);
        let mut nodes: Vec<DependencyNode<'_>> = Vec::new();
        let mut i: usize = 0;
        while i < keys.len()
            invariant
                self.wf(),
                keys.wf(),
                i <= keys@.len(),
                nodes@.len() == i,
                forall|k: ResKey| #[trigger] keys@.contains(k) <==> self@.is_node(k) && k.id == *id,
                forall|j: int|
                    0 <= j < i ==> *(#[trigger] nodes@[j]).graph == *self && nodes@[j].key == keys@[j],
            decreases keys@.len() - i,
        {
            let key: ResKey = *keys.at(i);
            assert(keys@.contains(key));
            match self.get(&key) {
                Some(node) => {
                    nodes.push(node);
                },
                None => {},
            }
            i += 1;
        }
        proof {
            assert forall|i: int, j: int| 0 <= i < j < nodes@.len() implies nodes@[i].key != nodes@[j].key by {
                assert(keys@[i] != keys@[j]);
            }
            assert forall|j: int| 0 <= j < nodes@.len() implies *(#[trigger] nodes@[j]).graph == *self
                && self@.is_node(nodes@[j].key) && nodes@[j].key.id == *id by {
                assert(keys@.contains(keys@[j]));
            }
            assert forall|k: ResKey| #[trigger] self@.is_node(k) && k.id == *id implies exists|j: int|
                0 <= j < nodes@.len() && (#[trigger] nodes@[j]).key == k by {
                assert(keys@.contains(k));
                let j = choose|j: int| 0 <= j < keys@.len() && keys@[j] == k;
                assert(nodes@[j].key == k);
            }
        }
        nodes
    }

    /// The keys that depend on something, each once.
    pub fn keys(&self) -> (r: Vec<ResKey>)
        requires
            self.wf(),
        ensures
            r@.no_duplicates(),
            forall|k: ResKey| #[trigger] r@.contains(k) <==> self@.has_dependencies(k),
    {
        let mut keys: Vec<ResKey> = Vec::new();
        let mut i: usize = 0;
        proof {
            self.dependencies.lemma_keys();
        }
        while i < self.dependencies.key_count()
            invariant
                i <= self.dependencies.keys().len(),
                keys@ == self.dependencies.keys().take(i as int),
            decreases self.dependencies.keys().len() - i,
        {
            keys.push(self.dependencies.key_at(i));
            assert(self.dependencies.keys().take(i + 1) =~= self.dependencies.keys().take(i as int).push(
                self.dependencies.keys()[i as int],
            ));
            i += 1;
        }
        assert(self.dependencies.keys().take(self.dependencies.keys().len() as int) =~= self.dependencies.keys());
        keys
    }

    /// All keys that depend on the given one, directly or through others.
    pub fn recursive_dependents(&self, key: &ResKey) -> (r: IdSet<ResKey>)
        requires
            self.wf(),
        ensures
            r.wf(),
            forall|d: ResKey| #[trigger] r@.contains(d) <==> depends_on(self@.edges, d, *key),
    {
        proof {
            assert(crate::util::pairs::is_inverse(self.dependents@, self.dependencies@)) by {
                assert forall|a: ResKey, b: ResKey| #[trigger]
                    self.dependents@.contains((a, b)) <==> self.dependencies@.contains((b, a)) by {
                    assert(self.dependencies@.contains((b, a)) <==> self.dependents@.contains((a, b)));
                }
            }
        }
        let found = reachable(&self.dependents, &self.dependencies, key);
        proof {
            assert forall|d: ResKey| #[trigger] found@.contains(d) <==> depends_on(self@.edges, d, *key) by {
                lemma_reach_inverse(self.dependents@, self.dependencies@, *key, d);
                lemma_reach_inverse(self.dependencies@, self.dependents@, d, *key);
            }
        }
        found
    }

    /// All keys that the given one depends on, directly or through others.
    pub fn recursive_dependencies(&self, key: &ResKey) -> (r: IdSet<ResKey>)
        requires
            self.wf(),
        ensures
            r.wf(),
            forall|d: ResKey| #[trigger] r@.contains(d) <==> depends_on(self@.edges, *key, d),
    {
        reachable(&self.dependencies, &self.dependents, key)
    }
}

/// Whether `a` depends on `b`, directly or through others.
pub open spec fn depends_on(edges: Set<(ResKey, ResKey)>, a: ResKey, b: ResKey) -> bool {
    crate::util::pairs::reaches(edges, a, b)
}

proof fn lemma_push_contains(s: Seq<ResKey>, x: ResKey, y: ResKey)
    ensures
        s.push(x).contains(y) <==> s.contains(y) || y == x,
{
    let t = s.push(x);
    if s.contains(y) {
        let i = choose|i: int| 0 <= i < s.len() && s[i] == y;
        assert(t[i] == y);
    }
    if y == x {
        assert(t[s.len() as int] == y);
    }
    if t.contains(y) {
        let i = choose|i: int| 0 <= i < t.len() && t[i] == y;
        if i < s.len() {
            assert(s[i] == y);
        }
    }
}

/// A pair in front reaches further, too.
proof fn lemma_reach_front(pairs: Set<(ResKey, ResKey)>, a: ResKey, m: ResKey, b: ResKey, n: nat)
    requires
        pairs.contains((a, m)),
        crate::util::pairs::reaches_in(pairs, m, b, n),
    ensures
        crate::util::pairs::reaches_in(pairs, a, b, n + 1),
    decreases n,
{
    if n == 1 {
        assert(crate::util::pairs::reaches_in(pairs, a, m, 1));
    } else {
        let x = choose|x: ResKey|
            crate::util::pairs::reaches_in(pairs, m, x, (n - 1) as nat) && #[trigger] pairs.contains((x, b));
        lemma_reach_front(pairs, a, m, x, (n - 1) as nat);
    }
}

proof fn lemma_reach_inverse_in(
    pairs: Set<(ResKey, ResKey)>,
    inverse: Set<(ResKey, ResKey)>,
    a: ResKey,
    b: ResKey,
    n: nat,
)
    requires
        crate::util::pairs::is_inverse(pairs, inverse),
        crate::util::pairs::reaches_in(pairs, a, b, n),
    ensures
        crate::util::pairs::reaches_in(inverse, b, a, n),
    decreases n,
{
    if n > 1 {
        let x = choose|x: ResKey|
            crate::util::pairs::reaches_in(pairs, a, x, (n - 1) as nat) && #[trigger] pairs.contains((x, b));
        lemma_reach_inverse_in(pairs, inverse, a, x, (n - 1) as nat);
        assert(inverse.contains((b, x)));
        lemma_reach_front(inverse, b, x, a, (n - 1) as nat);
    } else {
        assert(inverse.contains((b, a)));
    }
}

proof fn lemma_reach_inverse(
    pairs: Set<(ResKey, ResKey)>,
    inverse: Set<(ResKey, ResKey)>,
    a: ResKey,
    b: ResKey,
)
    requires
        crate::util::pairs::is_inverse(pairs, inverse),
    ensures
        crate::util::pairs::reaches(pairs, a, b) ==> crate::util::pairs::reaches(inverse, b, a),
{
    if crate::util::pairs::reaches(pairs, a, b) {
        let n = choose|n: nat| crate::util::pairs::reaches_in(pairs, a, b, n);
        lemma_reach_inverse_in(pairs, inverse, a, b, n);
    }
}

proof fn lemma_inverse_keys(pairs: Set<(ResKey, ResKey)>, inverse: Set<(ResKey, ResKey)>, key: ResKey)
    requires
        crate::util::pairs::is_inverse(pairs, inverse),
    ensures
        crate::util::pairs::has_key(inverse, key) == (GraphView { edges: pairs }).has_dependents(key),
{
    let g = GraphView { edges: pairs };
    if crate::util::pairs::has_key(inverse, key) {
        let d = choose|d: ResKey| #[trigger] inverse.contains((key, d));
        assert(g.edges.contains((d, key)));
    }
    if g.has_dependents(key) {
        let d = choose|d: ResKey| #[trigger] g.edges.contains((d, key));
        assert(inverse.contains((key, d)));
    }
}

/// What occurs in the graph after a key has lost its dependencies.
proof fn lemma_nodes_after_clear(g: GraphView, key: ResKey, k: ResKey)
    ensures
        g.clear_dependencies(key).is_node(k) ==> g.is_node(k),
        g.is_node(k) && k != key && !g.edges.contains((key, k)) ==> g.clear_dependencies(key).is_node(k),
{
    let post = g.clear_dependencies(key);
    if post.has_dependencies(k) {
        let d = choose|d: ResKey| #[trigger] post.edges.contains((k, d));
        assert(g.edges.contains((k, d)));
    }
    if post.has_dependents(k) {
        let d = choose|d: ResKey| #[trigger] post.edges.contains((d, k));
        assert(g.edges.contains((d, k)));
    }
    if k != key && !g.edges.contains((key, k)) {
        if g.has_dependencies(k) {
            let d = choose|d: ResKey| #[trigger] g.edges.contains((k, d));
            assert(post.edges.contains((k, d)));
        }
        if g.has_dependents(k) {
            let d = choose|d: ResKey| #[trigger] g.edges.contains((d, k));
            assert(post.edges.contains((d, k)));
        }
    }
}

/// What occurs in the graph after a key has got one more dependency.
proof fn lemma_nodes_after_add(g: GraphView, key: ResKey, dependency: ResKey, k: ResKey)
    ensures
        g.add_dependency(key, dependency).is_node(k) <==> g.is_node(k) || k == key || k == dependency,
{
    let post = g.add_dependency(key, dependency);
    assert(post.edges.contains((key, dependency)));
    if g.has_dependencies(k) {
        let d = choose|d: ResKey| #[trigger] g.edges.contains((k, d));
        assert(post.edges.contains((k, d)));
    }
    if g.has_dependents(k) {
        let d = choose|d: ResKey| #[trigger] g.edges.contains((d, k));
        assert(post.edges.contains((d, k)));
    }
    if post.has_dependencies(k) {
        let d = choose|d: ResKey| #[trigger] post.edges.contains((k, d));
        assert(g.edges.contains((k, d)) || k == key);
    }
    if post.has_dependents(k) {
        let d = choose|d: ResKey| #[trigger] post.edges.contains((d, k));
        assert(g.edges.contains((d, k)) || k == dependency);
    }
}

/// Setting the dependencies of a key replaces all earlier ones, and leaves the dependencies of
/// every other key alone.
pub proof fn lemma_set_dependencies_exact(g: GraphView, key: ResKey, dependencies: Seq<ResKey>)
    ensures
        forall|d: ResKey| #[trigger]
            g.set_dependencies(key, dependencies).edges.contains((key, d)) <==> dependencies.contains(d),
        forall|a: ResKey, d: ResKey|
            a != key ==> (#[trigger] g.set_dependencies(key, dependencies).edges.contains((a, d))
                <==> g.edges.contains((a, d))),
{
}

/// Setting the same dependencies once more changes no edge.
pub proof fn lemma_set_dependencies_idempotent(g: GraphView, key: ResKey, dependencies: Seq<ResKey>)
    ensures
        g.set_dependencies(key, dependencies).set_dependencies(key, dependencies).edges
            == g.set_dependencies(key, dependencies).edges,
{
    let once = g.set_dependencies(key, dependencies);
    assert(once.set_dependencies(key, dependencies).edges =~= once.edges);
}

/// A key that something depends on stays in the graph when it loses its own dependencies.
pub proof fn lemma_clear_keeps_dependents(g: GraphView, key: ResKey, dependent: ResKey)
    requires
        g.edges.contains((dependent, key)),
        dependent != key,
    ensures
        g.clear_dependencies(key).is_node(key),
        g.clear_dependencies(key).edges.contains((dependent, key)),
{
    assert(g.clear_dependencies(key).edges.contains((dependent, key)));
}

/// Clearing the dependencies of a key is the same as setting none.
pub proof fn lemma_clear_is_set_none(g: GraphView, key: ResKey)
    ensures
        g.clear_dependencies(key).edges == g.set_dependencies(key, Seq::empty()).edges,
{
    assert(g.clear_dependencies(key).edges =~= g.set_dependencies(key, Seq::empty()).edges);
}

/// A key of the graph, with the graph.
#[derive(Clone, Copy)]
pub struct DependencyNode<'a> {
    pub graph: &'a DependencyGraph,
    pub key: ResKey,
}

impl<'a> DependencyNode<'a> {
    /// The key.
    pub fn key(&self) -> (r: ResKey)
        ensures
            r == self.key,
    {
        self.key
    }

    /// Whether nothing depends on the key.
    pub fn is_root(&self) -> (r: bool)
        requires
            self.graph.wf(),
        ensures
            r == !self.graph@.has_dependents(self.key),
    {
        proof {
            self.graph.lemma_dependents(self.key);
        }
        !self.graph.dependents.contains_key(&self.key)
    }

    /// Whether the key depends on nothing.
    pub fn is_leaf(&self) -> (r: bool)
        requires
            self.graph.wf(),
        ensures
            r == !self.graph@.has_dependencies(self.key),
    {
        !self.graph.dependencies.contains_key(&self.key)
    }

    /// What the key depends on directly.
    pub fn dependencies(&self) -> (r: IdSet<ResKey>)
        requires
            self.graph.wf(),
        ensures
            r.wf(),
            forall|d: ResKey| #[trigger] r@.contains(d) <==> self.graph@.edges.contains((self.key, d)),
    {
        match self.graph.dependencies.get(&self.key) {
            Some(keys) => keys.duplicate(),
            None => {
                proof {
                    assert forall|d: ResKey| !#[trigger] self.graph@.edges.contains((self.key, d)) by {
                        if self.graph@.edges.contains((self.key, d)) {
                            assert(self.graph.dependencies@.contains((self.key, d)));
                        }
                    }
                }
                IdSet::new()
            },
        }
    }

    /// What depends on the key directly.
    pub fn dependents(&self) -> (r: IdSet<ResKey>)
        requires
            self.graph.wf(),
        ensures
            r.wf(),
            forall|d: ResKey| #[trigger] r@.contains(d) <==> self.graph@.edges.contains((d, self.key)),
    {
        match self.graph.dependents.get(&self.key) {
            Some(keys) => {
                proof {
                    assert forall|d: ResKey| #[trigger] keys@.contains(d) <==> self.graph@.edges.contains(
                        (d, self.key),
                    ) by {
                        assert(self.graph@.edges.contains((d, self.key)) <==> self.graph.dependents@.contains(
                            (self.key, d),
                        ));
                    }
                }
                keys.duplicate()
            },
            None => {
                proof {
                    assert forall|d: ResKey| !#[trigger] self.graph@.edges.contains((d, self.key)) by {
                        if self.graph@.edges.contains((d, self.key)) {
                            assert(self.graph.dependents@.contains((self.key, d)));
                        }
                    }
                }
                IdSet::new()
            },
        }
    }
}

/// Collects a [`DependencyGraph`].
pub struct DependencyGraphBuilder {
    pub graph: DependencyGraph,
}

impl DependencyGraphBuilder {
    /// Sets the dependencies of a key.
    pub fn add(self, key: &ResKey, dependencies: &IdSet<ResKey>) -> (r: Self)
        requires
            self.graph.wf(),
            dependencies.wf(),
        ensures
            r.graph.wf(),
            r.graph@ == self.graph@.set_dependencies(*key, dependencies@),
    {
        let mut graph = self.graph;
        graph.set_dependencies(key, dependencies);
        DependencyGraphBuilder { graph }
    }

    /// The collected graph.
    pub fn build(self) -> (r: DependencyGraph)
        ensures
            r == self.graph,
    {
        self.graph
    }
}

/// The dependencies that one load discovers, before they enter the graph.
pub struct DependencyGraphLayer {
    parents: Vec<ResKey>,
    key: ResKey,
    dependencies: IdSet<ResKey>,
}

impl DependencyGraphLayer {
    /// The keys whose loads led to this one.
    pub closed spec fn ancestry(&self) -> Seq<ResKey> {
        self.parents@
    }

    /// The key that is loaded.
    pub closed spec fn subject(&self) -> ResKey {
        self.key
    }

    /// The dependencies that were discovered.
    pub closed spec fn discovered(&self) -> Seq<ResKey> {
        self.dependencies@
    }

    /// No dependency is listed twice.
    pub closed spec fn wf(&self) -> bool {
        self.dependencies.wf()
    }

    /// Nothing is discovered yet.
    pub fn new(key: ResKey, parents: Vec<ResKey>) -> (r: Self)
        ensures
            r.wf(),
            r.subject() == key,
            r.ancestry() == parents@,
            r.discovered() == Seq::<ResKey>::empty(),
    {
        DependencyGraphLayer { parents, key, dependencies: IdSet::new() }
    }

    /// The keys whose loads led to this one.
    pub fn parents(&self) -> (r: &Vec<ResKey>)
        ensures
            r@ == self.ancestry(),
    {
        &self.parents
    }

    /// The key that is loaded.
    pub fn key(&self) -> (r: ResKey)
        ensures
            r == self.subject(),
    {
        self.key
    }

    /// Notes a dependency.
    pub fn insert(&mut self, dependency: ResKey)
        requires
            old(self).wf(),
        ensures
            final(self).wf(),
            final(self).subject() == old(self).subject(),
            final(self).ancestry() == old(self).ancestry(),
            final(self).discovered() == crate::util::table::seq_with(old(self).discovered(), dependency),
    {
        proof {
            lemma_seq_with(self.dependencies@, dependency);
        }
        let _ = self.dependencies.insert(dependency);
    }

    /// Enters the discovered dependencies into the graph.
    pub fn apply(self, graph: &mut DependencyGraph)
        requires
            self.wf(),
            old(graph).wf(),
        ensures
            final(graph).wf(),
            final(graph)@ == old(graph)@.set_dependencies(self.subject(), self.discovered()),
    {
        graph.set_dependencies(&self.key, &self.dependencies);
    }
}

/// Whether each key of a sequence of at least two depends directly on the one behind it.
pub open spec fn is_path(edges: Set<(ResKey, ResKey)>, path: Seq<ResKey>) -> bool {
    &&& path.len() >= 2
    &&& forall|i: int, j: int|
        #![trigger path[i], path[j]]
        0 <= i && j == i + 1 && j < path.len() ==> edges.contains((path[i], path[j]))
}

/// A key depends on another one if and only if direct dependencies lead from the one to the other.
pub proof fn lemma_depends_along_paths(edges: Set<(ResKey, ResKey)>, a: ResKey, b: ResKey)
    ensures
        depends_on(edges, a, b) <==> exists|path: Seq<ResKey>| #[trigger]
            is_path(edges, path) && path.first() == a && path.last() == b,
{
    if depends_on(edges, a, b) {
        let n = choose|n: nat| crate::util::pairs::reaches_in(edges, a, b, n);
        lemma_reach_has_path(edges, a, b, n);
    }
    if exists|path: Seq<ResKey>| #[trigger] is_path(edges, path) && path.first() == a && path.last() == b {
        let path = choose|path: Seq<ResKey>| #[trigger]
            is_path(edges, path) && path.first() == a && path.last() == b;
        lemma_path_is_followed(edges, path);
    }
}

proof fn lemma_reach_has_path(edges: Set<(ResKey, ResKey)>, a: ResKey, b: ResKey, n: nat)
    requires
        crate::util::pairs::reaches_in(edges, a, b, n),
    ensures
        exists|path: Seq<ResKey>| #[trigger] is_path(edges, path) && path.first() == a && path.last() == b,
    decreases n,
{
    if n == 1 {
        let path = seq![a, b];
        assert(is_path(edges, path));
        assert(path.first() == a && path.last() == b);
    } else {
        let m = choose|m: ResKey|
            crate::util::pairs::reaches_in(edges, a, m, (n - 1) as nat) && #[trigger] edges.contains((m, b));
        lemma_reach_has_path(edges, a, m, (n - 1) as nat);
        let start = choose|path: Seq<ResKey>| #[trigger]
            is_path(edges, path) && path.first() == a && path.last() == m;
        let path = start.push(b);
        assert forall|i: int, j: int|
            #![trigger path[i], path[j]]
            0 <= i && j == i + 1 && j < path.len() implies edges.contains((path[i], path[j])) by {
            if j < start.len() {
                assert(edges.contains((start[i], start[j])));
            }
        }
        assert(is_path(edges, path));
        assert(path.first() == a && path.last() == b);
    }
}

/// The first key of a path depends on the last one.
pub proof fn lemma_path_is_followed(edges: Set<(ResKey, ResKey)>, path: Seq<ResKey>)
    requires
        is_path(edges, path),
    ensures
        depends_on(edges, path.first(), path.last()),
    decreases path.len(),
{
    let n = path.len() as int;
    assert(edges.contains((path[n - 2], path[n - 1])));
    if n == 2 {
        assert(crate::util::pairs::reaches_in(edges, path[0], path[1], 1));
    } else {
        let rest = path.drop_last();
        assert forall|i: int, j: int|
            #![trigger rest[i], rest[j]]
            0 <= i && j == i + 1 && j < rest.len() implies edges.contains((rest[i], rest[j])) by {
            assert(edges.contains((path[i], path[j])));
        }
        lemma_path_is_followed(edges, rest);
        crate::util::pairs::lemma_reaches_step(edges, path.first(), rest.last(), path.last());
    }
}

/// Clearing takes away exactly what a key depends on, and adding adds exactly one dependency. The keys
/// of the graph are those that depend on something, or that something depends on.
pub proof fn lemma_edges_change_one_by_one(g: GraphView, key: ResKey, dependency: ResKey, a: ResKey, b: ResKey)
    ensures
        g.clear_dependencies(key).edges.contains((a, b)) <==> a != key && g.edges.contains((a, b)),
        g.add_dependency(key, dependency).edges.contains((a, b)) <==> g.edges.contains((a, b)) || a == key && b
            == dependency,
        g.edges.contains((a, b)) ==> g.is_node(a) && g.is_node(b) && g.has_dependencies(a) && g.has_dependents(b),
        g.is_node(a) ==> exists|k: ResKey| g.edges.contains((a, k)) || g.edges.contains((k, a)),
        g.has_dependencies(a) ==> exists|k: ResKey| g.edges.contains((a, k)),
        g.has_dependents(a) ==> exists|k: ResKey| g.edges.contains((k, a)),
{
    if g.has_dependencies(a) {
        let k = choose|k: ResKey| #[trigger] g.edges.contains((a, k));
        assert(g.edges.contains((a, k)));
    }
    if g.has_dependents(a) {
        let k = choose|k: ResKey| #[trigger] g.edges.contains((k, a));
        assert(g.edges.contains((k, a)));
    }
}

/// Dependence is passed on: who depends on something depends on all that it depends on.
pub proof fn lemma_dependence_is_transitive(edges: Set<(ResKey, ResKey)>, a: ResKey, b: ResKey, c: ResKey)
    requires
        edges.contains((a, b)) || depends_on(edges, a, b),
        edges.contains((b, c)) || depends_on(edges, b, c),
    ensures
        depends_on(edges, a, c),
{
    if edges.contains((a, b)) {
        assert(is_path(edges, seq![a, b]));
        lemma_path_is_followed(edges, seq![a, b]);
    }
    if edges.contains((b, c)) {
        assert(is_path(edges, seq![b, c]));
        lemma_path_is_followed(edges, seq![b, c]);
    }
    lemma_depends_along_paths(edges, a, b);
    lemma_depends_along_paths(edges, b, c);
    let p = choose|path: Seq<ResKey>| #[trigger] is_path(edges, path) && path.first() == a && path.last() == b;
    let q = choose|path: Seq<ResKey>| #[trigger] is_path(edges, path) && path.first() == b && path.last() == c;
    let all = p.drop_last() + q;
    assert forall|i: int, j: int|
        #![trigger all[i], all[j]]
        0 <= i && j == i + 1 && j < all.len() implies edges.contains((all[i], all[j])) by {
        let n = p.len() - 1;
        if j < n {
            assert(edges.contains((p[i], p[j])));
        } else if i < n {
            assert(all[j] == q[0]);
            assert(edges.contains((p[i], p[j])));
        } else {
            assert(edges.contains((q[i - n], q[j - n])));
        }
    }
    assert(is_path(edges, all));
    lemma_path_is_followed(edges, all);
}

} // verus!
