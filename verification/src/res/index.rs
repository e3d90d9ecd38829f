use vstd::prelude::*;
use super::node::Node;
use super::uri::Uri;

verus! {

/// The map that a sequence of (key, value) pairs describes: a later pair wins.
pub open spec fn map_of<V, W>(s: Seq<(Vec<u8>, V)>, f: spec_fn(V) -> W) -> Map<Seq<u8>, W>
    decreases s.len(),
{
    if s.len() == 0 {
        Map::empty()
    } else {
        map_of(s.drop_last(), f).insert(s.last().0@, f(s.last().1))
    }
}

/// No two pairs of `s` have the same key.
pub open spec fn keys_unique<V>(s: Seq<(Vec<u8>, V)>) -> bool {
    forall|i: int, j: int| 0 <= i < s.len() && 0 <= j < s.len() && i != j ==> s[i].0@ != s[j].0@
}

/// The view of a node: itself.
pub open spec fn node_view(n: Node) -> Node {
    n
}

/// The view of a list of file names.
pub open spec fn names_view(v: Vec<Uri>) -> Seq<Seq<u8>> {
    v@.map_values(|u: Uri| u@)
}

/// A key is in `map_of(s)` when a pair has it.
pub proof fn lemma_map_of_dom<V, W>(s: Seq<(Vec<u8>, V)>, f: spec_fn(V) -> W, k: Seq<u8>)
    ensures
        map_of(s, f).dom().contains(k) <==> exists|i: int| 0 <= i < s.len() && s[i].0@ == k,
    decreases s.len(),
{
    if s.len() > 0 {
        lemma_map_of_dom(s.drop_last(), f, k);
        if map_of(s, f).dom().contains(k) && s.last().0@ != k {
            let i = choose|i: int| 0 <= i < s.len() - 1 && s.drop_last()[i].0@ == k;
            assert(s[i].0@ == k);
        }
        if exists|i: int| 0 <= i < s.len() && s[i].0@ == k {
            let i = choose|i: int| 0 <= i < s.len() && s[i].0@ == k;
            if i < s.len() - 1 {
                assert(s.drop_last()[i].0@ == k);
            }
        }
    }
}

/// With unique keys, the value at a key is that of the pair holding it.
pub proof fn lemma_map_of_at<V, W>(s: Seq<(Vec<u8>, V)>, f: spec_fn(V) -> W, i: int)
    requires
        keys_unique(s),
        0 <= i < s.len(),
    ensures
        map_of(s, f).dom().contains(s[i].0@),
        map_of(s, f)[s[i].0@] == f(s[i].1),
    decreases s.len(),
{
    if i < s.len() - 1 {
        lemma_map_of_at(s.drop_last(), f, i);
    }
}

/// With unique keys, replacing the value of the pair at `i` replaces it in the map.
pub proof fn lemma_map_of_update<V, W>(s: Seq<(Vec<u8>, V)>, f: spec_fn(V) -> W, i: int, p: (Vec<u8>, V))
    requires
        keys_unique(s),
        0 <= i < s.len(),
        p.0@ == s[i].0@,
    ensures
        map_of(s.update(i, p), f) == map_of(s, f).insert(p.0@, f(p.1)),
    decreases s.len(),
{
    if i == s.len() - 1 {
        assert(s.update(i, p).drop_last() =~= s.drop_last());
        lemma_map_of_dom(s.drop_last(), f, p.0@);
        assert(map_of(s, f).insert(p.0@, f(p.1)) =~= map_of(s.drop_last(), f).insert(p.0@, f(p.1)));
    } else {
        assert(s.update(i, p).drop_last() =~= s.drop_last().update(i, p));
        lemma_map_of_update(s.drop_last(), f, i, p);
        assert(map_of(s.update(i, p), f) =~= map_of(s, f).insert(p.0@, f(p.1)));
    }
}

/// Compares two byte strings.
pub fn bytes_eq(a: &[u8], b: &[u8]) -> (r: bool)
    ensures
        r == (a@ == b@),
{
    if a.len() != b.len() {
        return false;
    }
    let mut i: usize = 0;
    while i < a.len()
        invariant
            a@.len() == b@.len(),
            i <= a@.len(),
            forall|j: int| 0 <= j < i ==> a@[j] == b@[j],
        decreases a@.len() - i,
    {
        if a[i] != b[i] {
            return false;
        }
        i = i + 1;
    }
    assert(a@ =~= b@);
    true
}

/// A copy of the bytes `v`.
fn copy_bytes(v: &Vec<u8>) -> (r: Vec<u8>)
    ensures
        r@ == v@,
{
    vstd::slice::slice_to_vec(v.as_slice())
}

/// A copy of the file names `v`.
fn copy_names(v: &Vec<Uri>) -> (r: Vec<Uri>)
    ensures
        names_view(r) == names_view(*v),
{
    let mut r: Vec<Uri> = Vec::new();
    let mut i: usize = 0;
    while i < v.len()
        invariant
            i <= v@.len(),
            r@.len() == i,
            forall|j: int| 0 <= j < i ==> (#[trigger] r@[j])@ == v@[j]@,
        decreases v@.len() - i,
    {
        r.push(copy_bytes(&v[i]));
        i = i + 1;
    }
    assert(names_view(r) =~= names_view(*v));
    r
}

/// The map of the first `i + 1` pairs is that of the first `i` with the pair `i` put in.
proof fn lemma_map_of_take<V, W>(s: Seq<(Vec<u8>, V)>, f: spec_fn(V) -> W, i: int)
    requires
        0 <= i < s.len(),
    ensures
        map_of(s.take(i + 1), f) == map_of(s.take(i), f).insert(s[i].0@, f(s[i].1)),
{
    assert(s.take(i + 1).drop_last() =~= s.take(i));
}

/// The index of a package: its resources and its directories.
///
/// Entries are kept in vectors, each URI at most once, and found by a linear search:
/// vstd models the hashing of integer keys only, so a `HashMap` keyed by byte strings
/// would leave lookups and inserts without a contract. A lookup or an insert therefore
/// costs time linear in the number of entries.
#[derive(Debug)]
pub struct Index {
    /// Resources, each under its URI.
    pub(crate) nodes: Vec<(Uri, Node)>,
    /// Directories, each with the file names of the `Node`s it holds.
    pub(crate) directories: Vec<(Uri, Vec<Uri>)>,
}

impl Index {
    /// No URI occurs twice.
    pub closed spec fn wf(&self) -> bool {
        keys_unique(self.nodes@) && keys_unique(self.directories@)
    }

    /// The resources, by URI.
    pub closed spec fn spec_nodes(&self) -> Map<Seq<u8>, Node> {
        map_of(self.nodes@, |n: Node| node_view(n))
    }

    /// The directories, by URI: the file names in each.
    pub closed spec fn spec_dirs(&self) -> Map<Seq<u8>, Seq<Seq<u8>>> {
        map_of(self.directories@, |v: Vec<Uri>| names_view(v))
    }

    /// An empty index.
    pub fn new() -> (r: Self)
        ensures
            r.wf(),
            r.spec_nodes() == Map::<Seq<u8>, Node>::empty(),
            r.spec_dirs() == Map::<Seq<u8>, Seq<Seq<u8>>>::empty(),
    {
        Index { nodes: Vec::new(), directories: Vec::new() }
    }

    /// The resources, each with its URI.
    pub fn nodes(&self) -> (r: &Vec<(Uri, Node)>)
        ensures
            map_of(r@, |n: Node| node_view(n)) == self.spec_nodes(),
            self.wf() ==> keys_unique(r@),
    {
        &self.nodes
    }

    /// The directories, each with the file names it holds.
    pub fn dirs(&self) -> (r: &Vec<(Uri, Vec<Uri>)>)
        ensures
            map_of(r@, |v: Vec<Uri>| names_view(v)) == self.spec_dirs(),
            self.wf() ==> keys_unique(r@),
    {
        &self.directories
    }

    /// Whether no resource is held.
    pub fn is_empty(&self) -> (r: bool)
        ensures
            r == (self.spec_nodes() == Map::<Seq<u8>, Node>::empty()),
    {
        proof {
            if self.nodes@.len() > 0 {
                lemma_map_of_dom(self.nodes@, |n: Node| node_view(n), self.nodes@[0].0@);
                assert(self.spec_nodes().dom().contains(self.nodes@[0].0@));
                assert(!Map::<Seq<u8>, Node>::empty().dom().contains(self.nodes@[0].0@));
            } else {
                assert(self.spec_nodes() =~= Map::<Seq<u8>, Node>::empty());
            }
        }
        self.nodes.len() == 0
    }

    /// The resource under `uri`.
    pub fn get_node(&self, uri: &[u8]) -> (r: Option<&Node>)
        requires
            self.wf(),
        ensures
            match r {
                Some(n) => self.spec_nodes().dom().contains(uri@) && self.spec_nodes()[uri@] == *n,
                None => !self.spec_nodes().dom().contains(uri@),
            },
    {
        let mut i: usize = 0;
        while i < self.nodes.len()
            invariant
                self.wf(),
                i <= self.nodes@.len(),
                forall|j: int| 0 <= j < i ==> self.nodes@[j].0@ != uri@,
            decreases self.nodes@.len() - i,
        {
            if bytes_eq(self.nodes[i].0.as_slice(), uri) {
                proof { lemma_map_of_at(self.nodes@, |n: Node| node_view(n), i as int); }
                return Some(&self.nodes[i].1);
            }
            i = i + 1;
        }
        proof { lemma_map_of_dom(self.nodes@, |n: Node| node_view(n), uri@); }
        None
    }

    /// Puts every resource and directory of `other` into this index, each in place of
    /// any under the same URI.
    pub fn merge(&mut self, other: &Index)
        requires
            old(self).wf(),
        ensures
            final(self).wf(),
            final(self).spec_nodes() == old(self).spec_nodes().union_prefer_right(other.spec_nodes()),
            final(self).spec_dirs() == old(self).spec_dirs().union_prefer_right(other.spec_dirs()),
    {
        let ghost n0 = self.spec_nodes();
        let ghost d0 = self.spec_dirs();
        let mut i: usize = 0;
        assert(other.nodes@.take(0) =~= Seq::<(Uri, Node)>::empty());
        assert(n0.union_prefer_right(Map::empty()) =~= n0);
        while i < other.nodes.len()
            invariant
                self.wf(),
                i <= other.nodes@.len(),
                self.spec_dirs() == d0,
                self.spec_nodes() == n0.union_prefer_right(
                    map_of(other.nodes@.take(i as int), |n: Node| node_view(n)),
                ),
            decreases other.nodes@.len() - i,
        {
            let uri = copy_bytes(&other.nodes[i].0);
            let node = other.nodes[i].1;
            let ghost before = map_of(other.nodes@.take(i as int), |n: Node| node_view(n));
            proof {
                lemma_map_of_take(other.nodes@, |n: Node| node_view(n), i as int);
            }
            self.insert_node(uri, node);
            i = i + 1;
            assert(self.spec_nodes() =~= n0.union_prefer_right(
                map_of(other.nodes@.take(i as int), |n: Node| node_view(n)),
            ));
        }
        assert(other.nodes@.take(i as int) =~= other.nodes@);
        let mut i: usize = 0;
        assert(other.directories@.take(0) =~= Seq::<(Uri, Vec<Uri>)>::empty());
        assert(d0.union_prefer_right(Map::empty()) =~= d0);
        let ghost n1 = self.spec_nodes();
        while i < other.directories.len()
            invariant
                self.wf(),
                i <= other.directories@.len(),
                self.spec_nodes() == n1,
                self.spec_dirs() == d0.union_prefer_right(
                    map_of(other.directories@.take(i as int), |v: Vec<Uri>| names_view(v)),
                ),
            decreases other.directories@.len() - i,
        {
            let uri = copy_bytes(&other.directories[i].0);
            let files = copy_names(&other.directories[i].1);
            proof {
                lemma_map_of_take(other.directories@, |v: Vec<Uri>| names_view(v), i as int);
            }
            self.insert_dir(uri, files);
            i = i + 1;
            assert(self.spec_dirs() =~= d0.union_prefer_right(
                map_of(other.directories@.take(i as int), |v: Vec<Uri>| names_view(v)),
            ));
        }
        assert(other.directories@.take(i as int) =~= other.directories@);
    }

    /// A resource put under `uri` is what `get_node` then finds there, and every other
    /// URI keeps what it had.
    pub proof fn lemma_get_after_insert(&self, uri: Seq<u8>, node: Node, other: Seq<u8>)
        ensures
            self.spec_nodes().insert(uri, node).dom().contains(uri),
            self.spec_nodes().insert(uri, node)[uri] == node,
            other != uri ==> self.spec_nodes().insert(uri, node).dom().contains(other)
                == self.spec_nodes().dom().contains(other),
            other != uri && self.spec_nodes().dom().contains(other) ==> self.spec_nodes().insert(
                uri,
                node,
            )[other] == self.spec_nodes()[other],
    {
    }

    /// Puts `node` under `uri`, in place of any node there.
    pub fn insert_node(&mut self, uri: Uri, node: Node)
        requires
            old(self).wf(),
        ensures
            final(self).wf(),
            final(self).spec_nodes() == old(self).spec_nodes().insert(uri@, node),
            final(self).spec_dirs() == old(self).spec_dirs(),
    {
        let mut i: usize = 0;
        while i < self.nodes.len()
            invariant
                self.wf(),
                *self == *old(self),
                i <= self.nodes@.len(),
                forall|j: int| 0 <= j < i ==> self.nodes@[j].0@ != uri@,
            decreases self.nodes@.len() - i,
        {
            if bytes_eq(self.nodes[i].0.as_slice(), uri.as_slice()) {
                let ghost s = self.nodes@;
                let ghost p = (uri, node);
                proof { lemma_map_of_update(s, |n: Node| node_view(n), i as int, p); }
                self.nodes.set(i, (uri, node));
                assert(self.nodes@ == s.update(i as int, p));
                return;
            }
            i = i + 1;
        }
        let ghost s = self.nodes@;
        self.nodes.push((uri, node));
        assert(self.nodes@.drop_last() =~= s);
    }

    /// Puts the file names `files` under the directory `uri`, in place of any there.
    pub fn insert_dir(&mut self, uri: Uri, files: Vec<Uri>)
        requires
            old(self).wf(),
        ensures
            final(self).wf(),
            final(self).spec_dirs() == old(self).spec_dirs().insert(uri@, names_view(files)),
            final(self).spec_nodes() == old(self).spec_nodes(),
    {
        let mut i: usize = 0;
        while i < self.directories.len()
            invariant
                self.wf(),
                *self == *old(self),
                i <= self.directories@.len(),
                forall|j: int| 0 <= j < i ==> self.directories@[j].0@ != uri@,
            decreases self.directories@.len() - i,
        {
            if bytes_eq(self.directories[i].0.as_slice(), uri.as_slice()) {
                let ghost s = self.directories@;
                let ghost p = (uri, files);
                proof { lemma_map_of_update(s, |v: Vec<Uri>| names_view(v), i as int, p); }
                self.directories.set(i, (uri, files));
                assert(self.directories@ == s.update(i as int, p));
                return;
            }
            i = i + 1;
        }
        let ghost s = self.directories@;
        self.directories.push((uri, files));
        assert(self.directories@.drop_last() =~= s);
    }
}

} // verus!
