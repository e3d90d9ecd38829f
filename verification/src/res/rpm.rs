//! Resource-Package Manager.
use vstd::prelude::*;
use super::node::NodeType;
use super::pack::{Package, PackageKind};
use super::index::Index;
use super::node::Node;

verus! {

/// A resource: a package or a file.
pub enum ResourceType {
    Package(PackageKind),
    File(NodeType),
}

/// File Manager
pub struct Fm {}

/// Prioritized storage for packages.
#[derive(Debug)]
pub struct Rpm {
    pub main: Option<Package<String>>,
    patch: Option<Package<String>>,
    voice: Option<Package<String>>,
    extra: Vec<Package<String>>,
    /// The indexes of the packages consolidated into one.
    index: Index,
}

impl Rpm {
    /// The main package.
    pub closed spec fn spec_main(&self) -> Option<Package<String>> {
        self.main
    }

    /// The patch package.
    pub closed spec fn spec_patch(&self) -> Option<Package<String>> {
        self.patch
    }

    /// The voice package.
    pub closed spec fn spec_voice(&self) -> Option<Package<String>> {
        self.voice
    }

    /// The extra packages, in the order added.
    pub closed spec fn spec_extra(&self) -> Seq<Package<String>> {
        self.extra@
    }

    /// The consolidated index.
    pub closed spec fn spec_index(&self) -> Index {
        self.index
    }

    /// The consolidated index: the resources of all packages, each URI with that of the
    /// package of highest priority that holds it.
    pub fn index(&self) -> (r: &Index)
        ensures
            *r == self.spec_index(),
    {
        &self.index
    }
}

/// The package held, if any, as a sequence.
pub open spec fn opt_seq(o: Option<Package<String>>) -> Seq<Package<String>> {
    match o {
        Some(p) => seq![p],
        None => Seq::empty(),
    }
}

/// The packages of `r` by priority, lowest first: the main package, the extra packages
/// in the order added, the voice package, the patch package.
pub open spec fn by_priority(r: Rpm) -> Seq<Package<String>> {
    opt_seq(r.spec_main()) + r.spec_extra() + opt_seq(r.spec_voice()) + opt_seq(r.spec_patch())
}

/// The resources of the packages `ps` in one map: a URI held by several packages maps to
/// the resource of the last of them.
pub open spec fn merged_nodes(ps: Seq<Package<String>>) -> Map<Seq<u8>, Node>
    decreases ps.len(),
{
    if ps.len() == 0 {
        Map::empty()
    } else {
        merged_nodes(ps.drop_last()).union_prefer_right(ps.last().spec_index().spec_nodes())
    }
}

/// The directories of the packages `ps` in one map, as `merged_nodes`.
pub open spec fn merged_dirs(ps: Seq<Package<String>>) -> Map<Seq<u8>, Seq<Seq<u8>>>
    decreases ps.len(),
{
    if ps.len() == 0 {
        Map::empty()
    } else {
        merged_dirs(ps.drop_last()).union_prefer_right(ps.last().spec_index().spec_dirs())
    }
}

/// Whether the package `p` holds a resource under `uri`.
pub open spec fn pack_holds(p: Package<String>, uri: Seq<u8>) -> bool {
    p.spec_index().spec_nodes().dom().contains(uri)
}

/// The merged resources of packages hold a URI exactly where one of the packages does, and
/// under it the resource of the last package that holds it: no package's resource is lost,
/// and of several the one of highest priority is kept.
pub proof fn lemma_merged_nodes(ps: Seq<Package<String>>, uri: Seq<u8>)
    ensures
        merged_nodes(ps).dom().contains(uri) <==> exists|i: int|
            0 <= i < ps.len() && #[trigger] pack_holds(ps[i], uri),
        forall|i: int|
            0 <= i < ps.len() && #[trigger] pack_holds(ps[i], uri) && (forall|j: int|
                i < j < ps.len() ==> !pack_holds(#[trigger] ps[j], uri)) ==> merged_nodes(ps)[uri]
                == ps[i].spec_index().spec_nodes()[uri],
    decreases ps.len(),
{
    if ps.len() > 0 {
        let pre = ps.drop_last();
        lemma_merged_nodes(pre, uri);
        let l = ps.len() - 1;
        if merged_nodes(ps).dom().contains(uri) && !pack_holds(ps[l], uri) {
            let i = choose|i: int| 0 <= i < pre.len() && #[trigger] pack_holds(pre[i], uri);
            assert(pack_holds(ps[i], uri));
        }
        assert forall|i: int| 0 <= i < ps.len() && #[trigger] pack_holds(ps[i], uri) implies merged_nodes(
            ps,
        ).dom().contains(uri) by {
            if i < l {
                assert(pack_holds(pre[i], uri));
            }
        }
        assert forall|i: int|
            0 <= i < ps.len() && #[trigger] pack_holds(ps[i], uri) && (forall|j: int|
                i < j < ps.len() ==> !pack_holds(#[trigger] ps[j], uri)) implies merged_nodes(ps)[uri]
            == ps[i].spec_index().spec_nodes()[uri] by {
            if i < l {
                assert(!pack_holds(ps[l], uri));
                assert(pack_holds(pre[i], uri));
                assert forall|j: int| i < j < pre.len() implies !pack_holds(#[trigger] pre[j], uri) by {
                    assert(pre[j] == ps[j]);
                    assert(!pack_holds(ps[j], uri));
                }
            }
        }
    }
}

/// Merges the index of `p` into `index`, which holds the merged indexes of `done`.
fn merge_pack(index: &mut Index, p: &Package<String>, Ghost(done): Ghost<Seq<Package<String>>>)
    requires
        old(index).wf(),
        old(index).spec_nodes() == merged_nodes(done),
        old(index).spec_dirs() == merged_dirs(done),
    ensures
        final(index).wf(),
        final(index).spec_nodes() == merged_nodes(done.push(*p)),
        final(index).spec_dirs() == merged_dirs(done.push(*p)),
{
    index.merge(p.index());
    assert(done.push(*p).drop_last() =~= done);
}

/// Builds an `Rpm` from packages.
pub struct RpmBuilder {
    inner: Rpm,
}

impl RpmBuilder {
    /// The storage built so far.
    pub closed spec fn spec_inner(&self) -> Rpm {
        self.inner
    }

    /// A builder with `main` as the main package and no other.
    pub fn new(main: Package<String>) -> (r: Self)
        ensures
            r.spec_inner().spec_main() == Some(main),
            r.spec_inner().spec_patch() is None,
            r.spec_inner().spec_voice() is None,
            r.spec_inner().spec_extra() == Seq::<Package<String>>::empty(),
            r.spec_inner().spec_index().wf(),
            r.spec_inner().spec_index().spec_nodes() == Map::<Seq<u8>, Node>::empty(),
            r.spec_inner().spec_index().spec_dirs() == Map::<Seq<u8>, Seq<Seq<u8>>>::empty(),
    {
        RpmBuilder {
            inner: Rpm { main: Some(main), patch: None, voice: None, extra: Vec::new(), index: Index::new() },
        }
    }

    /// Adds `pack` after its kind: a patch or a voice package only if there is none yet,
    /// extra packages after the others. A main package only if there is none yet.
    pub fn add_pack(&mut self, pack: Package<String>)
        requires
            pack.spec_kind() == PackageKind::Main ==> old(self).spec_inner().spec_main() is None,
        ensures
            ({
                let o = old(self).spec_inner();
                let n = final(self).spec_inner();
                match pack.spec_kind() {
                    PackageKind::Patch => n.spec_main() == o.spec_main() && n.spec_voice() == o.spec_voice()
                        && n.spec_extra() == o.spec_extra() && n.spec_patch() == (if o.spec_patch() is None {
                        Some(pack)
                    } else {
                        o.spec_patch()
                    }),
                    PackageKind::Voice => n.spec_main() == o.spec_main() && n.spec_patch() == o.spec_patch()
                        && n.spec_extra() == o.spec_extra() && n.spec_voice() == (if o.spec_voice() is None {
                        Some(pack)
                    } else {
                        o.spec_voice()
                    }),
                    PackageKind::Extra => n.spec_main() == o.spec_main() && n.spec_patch() == o.spec_patch()
                        && n.spec_voice() == o.spec_voice() && n.spec_extra() == o.spec_extra().push(pack),
                    PackageKind::Main => n.spec_main() == Some(pack) && n.spec_patch() == o.spec_patch()
                        && n.spec_voice() == o.spec_voice() && n.spec_extra() == o.spec_extra(),
                }
            }),
            final(self).spec_inner().spec_index() == old(self).spec_inner().spec_index(),
    {
        match pack.kind() {
            PackageKind::Patch => {
                if self.inner.patch.is_none() {
                    self.inner.patch = Some(pack);
                }
            },
            PackageKind::Voice => {
                if self.inner.voice.is_none() {
                    self.inner.voice = Some(pack);
                }
            },
            PackageKind::Extra => self.inner.extra.push(pack),
            PackageKind::Main => {
                if self.inner.main.is_none() {
                    self.inner.main = Some(pack);
                }
            },
        }
    }

    /// Consolidates the indexes of all packages, as read into them, into one: the
    /// consolidated index holds the resources and directories of every package, a URI held
    /// by several packages with those of the package of highest priority (see
    /// `by_priority`).
    pub fn consolidate(&mut self)
        ensures
            final(self).spec_inner().spec_main() == old(self).spec_inner().spec_main(),
            final(self).spec_inner().spec_patch() == old(self).spec_inner().spec_patch(),
            final(self).spec_inner().spec_voice() == old(self).spec_inner().spec_voice(),
            final(self).spec_inner().spec_extra() == old(self).spec_inner().spec_extra(),
            final(self).spec_inner().spec_index().wf(),
            final(self).spec_inner().spec_index().spec_nodes() == merged_nodes(
                by_priority(old(self).spec_inner()),
            ),
            final(self).spec_inner().spec_index().spec_dirs() == merged_dirs(
                by_priority(old(self).spec_inner()),
            ),
    {
        let mut index = Index::new();
        let ghost mut done: Seq<Package<String>> = Seq::empty();
        assert(merged_nodes(done) =~= Map::empty());
        assert(merged_dirs(done) =~= Map::empty());
        match &self.inner.main {
            Some(p) => {
                merge_pack(&mut index, p, Ghost(done));
                proof { done = done.push(*p); }
            },
            None => {},
        }
        assert(done =~= opt_seq(self.inner.main));
        let mut i: usize = 0;
        while i < self.inner.extra.len()
            invariant
                i <= self.inner.extra@.len(),
                index.wf(),
                done == opt_seq(self.inner.main) + self.inner.extra@.take(i as int),
                index.spec_nodes() == merged_nodes(done),
                index.spec_dirs() == merged_dirs(done),
            decreases self.inner.extra@.len() - i,
        {
            merge_pack(&mut index, &self.inner.extra[i], Ghost(done));
            proof { done = done.push(self.inner.extra@[i as int]); }
            i = i + 1;
            assert(done =~= opt_seq(self.inner.main) + self.inner.extra@.take(i as int));
        }
        assert(self.inner.extra@.take(i as int) =~= self.inner.extra@);
        match &self.inner.voice {
            Some(p) => {
                merge_pack(&mut index, p, Ghost(done));
                proof { done = done.push(*p); }
            },
            None => {},
        }
        match &self.inner.patch {
            Some(p) => {
                merge_pack(&mut index, p, Ghost(done));
                proof { done = done.push(*p); }
            },
            None => {},
        }
        assert(done =~= by_priority(self.inner));
        self.inner.index = index;
    }

    /// The storage built.
    pub fn into_inner(self) -> (r: Rpm)
        ensures
            r == self.spec_inner(),
    {
        self.inner
    }

    /// The main package, taken out.
    pub fn take_main(&mut self) -> (r: Option<Package<String>>)
        ensures
            r == old(self).spec_inner().spec_main(),
            final(self).spec_inner().spec_main() is None,
            final(self).spec_inner().spec_patch() == old(self).spec_inner().spec_patch(),
            final(self).spec_inner().spec_voice() == old(self).spec_inner().spec_voice(),
            final(self).spec_inner().spec_extra() == old(self).spec_inner().spec_extra(),
            final(self).spec_inner().spec_index() == old(self).spec_inner().spec_index(),
    {
        self.inner.main.take()
    }

    /// Puts `main` as the main package.
    pub fn put_main(&mut self, main: Package<String>)
        ensures
            final(self).spec_inner().spec_main() == Some(main),
            final(self).spec_inner().spec_patch() == old(self).spec_inner().spec_patch(),
            final(self).spec_inner().spec_voice() == old(self).spec_inner().spec_voice(),
            final(self).spec_inner().spec_extra() == old(self).spec_inner().spec_extra(),
            final(self).spec_inner().spec_index() == old(self).spec_inner().spec_index(),
    {
        self.inner.main = Some(main);
    }
}

} // verus!
