//! Packages: an index with the kind and the location of the package.
use vstd::prelude::*;
use crate::utils::{ByteStream, ReadError};
use super::index::Index;
use super::reader::{read_to, read_ends, spec_read_events, apply_events};

verus! {

/// The role of a package among the packages of a game.
#[derive(Debug, Clone, Copy, PartialEq, Eq, Structural)]
pub enum PackageKind {
    Main,
    Patch,
    Voice,
    Extra,
}

/// A package: its index, kind and location.
#[derive(Debug)]
pub struct Package<P> {
    index: Index,
    kind: PackageKind,
    uri: P,
}

impl Package<String> {
    /// The location, as text.
    pub fn uri_str(&self) -> (r: &str)
        ensures
            r@ == self.spec_uri()@,
    {
        self.uri.as_str()
    }
}

impl<P> Package<P> {
    /// The index.
    pub closed spec fn spec_index(&self) -> Index {
        self.index
    }

    /// The kind.
    pub closed spec fn spec_kind(&self) -> PackageKind {
        self.kind
    }

    /// The location.
    pub closed spec fn spec_uri(&self) -> P {
        self.uri
    }

    /// A package of `kind` at `uri` with an empty index.
    pub fn new(uri: P, kind: PackageKind) -> (r: Self)
        ensures
            r.spec_uri() == uri,
            r.spec_kind() == kind,
            r.spec_index().wf(),
            r.spec_index().spec_nodes() == Map::<Seq<u8>, super::node::Node>::empty(),
            r.spec_index().spec_dirs() == Map::<Seq<u8>, Seq<Seq<u8>>>::empty(),
    {
        Package { uri, kind, index: Index::new() }
    }

    pub fn uri(&self) -> (r: &P)
        ensures
            *r == self.spec_uri(),
    {
        &self.uri
    }

    pub fn kind(&self) -> (r: &PackageKind)
        ensures
            *r == self.spec_kind(),
    {
        &self.kind
    }

    pub fn index(&self) -> (r: &Index)
        ensures
            *r == self.spec_index(),
    {
        &self.index
    }

    pub fn index_mut(&mut self) -> (r: &mut Index)
        ensures
            *r == old(self).spec_index(),
            final(self).spec_index() == *final(r),
            final(self).spec_kind() == old(self).spec_kind(),
            final(self).spec_uri() == old(self).spec_uri(),
    {
        &mut self.index
    }

    /// Whether the index holds no resource.
    pub fn is_empty(&self) -> (r: bool)
        ensures
            r == (self.spec_index().spec_nodes() == Map::<Seq<u8>, super::node::Node>::empty()),
    {
        self.index.is_empty()
    }

    /// The package, opened with `reader`.
    pub fn open_with<R>(self, reader: R) -> (r: OpenPackage<R, P>)
        ensures
            r.spec_inner() == self,
            r.spec_reader() == reader,
    {
        OpenPackage { inner: self, reader }
    }
}

/// A package together with the stream it is read from.
pub struct OpenPackage<R, P> {
    inner: Package<P>,
    reader: R,
}

impl<R> OpenPackage<R, String> {
    /// The location, as text.
    pub fn uri_str(&self) -> (r: &str)
        ensures
            r@ == self.spec_inner().spec_uri()@,
    {
        self.inner.uri_str()
    }
}

impl<R, P> OpenPackage<R, P> {
    /// The package.
    pub closed spec fn spec_inner(&self) -> Package<P> {
        self.inner
    }

    /// The stream.
    pub closed spec fn spec_reader(&self) -> R {
        self.reader
    }

    pub fn new(pack: Package<P>, reader: R) -> (r: Self)
        ensures
            r.spec_inner() == pack,
            r.spec_reader() == reader,
    {
        Self { inner: pack, reader }
    }

    pub fn uri(&self) -> (r: &P)
        ensures
            *r == self.spec_inner().spec_uri(),
    {
        self.inner.uri()
    }

    pub fn index(&self) -> (r: &Index)
        ensures
            *r == self.spec_inner().spec_index(),
    {
        self.inner.index()
    }

    pub fn index_mut(&mut self) -> (r: &mut Index)
        ensures
            *r == old(self).spec_inner().spec_index(),
            final(self).spec_inner().spec_index() == *final(r),
            final(self).spec_inner().spec_kind() == old(self).spec_inner().spec_kind(),
            final(self).spec_inner().spec_uri() == old(self).spec_inner().spec_uri(),
            final(self).spec_reader() == old(self).spec_reader(),
    {
        self.inner.index_mut()
    }

    pub fn is_empty(&self) -> (r: bool)
        ensures
            r == (self.spec_inner().spec_index().spec_nodes() == Map::<Seq<u8>, super::node::Node>::empty()),
    {
        self.inner.is_empty()
    }

    pub fn reader(&mut self) -> (r: &mut R)
        ensures
            *r == old(self).spec_reader(),
            final(self).spec_reader() == *final(r),
            final(self).spec_inner() == old(self).spec_inner(),
    {
        &mut self.reader
    }

    pub fn split_mut(&mut self) -> (r: (&Index, &mut R))
        ensures
            *r.0 == old(self).spec_inner().spec_index(),
            *r.1 == old(self).spec_reader(),
            final(self).spec_reader() == *final(r.1),
            final(self).spec_inner() == old(self).spec_inner(),
    {
        let index = &self.inner.index;
        (index, &mut self.reader)
    }

    pub fn split_mut_ext(&mut self) -> (r: (&mut Index, &mut R))
        ensures
            *r.0 == old(self).spec_inner().spec_index(),
            *r.1 == old(self).spec_reader(),
            final(self).spec_reader() == *final(r.1),
            final(self).spec_inner().spec_index() == *final(r.0),
            final(self).spec_inner().spec_kind() == old(self).spec_inner().spec_kind(),
            final(self).spec_inner().spec_uri() == old(self).spec_inner().spec_uri(),
    {
        let index = &mut self.inner.index;
        (index, &mut self.reader)
    }

    pub fn split(self) -> (r: (Package<P>, R))
        ensures
            r.0 == self.spec_inner(),
            r.1 == self.spec_reader(),
    {
        (self.inner, self.reader)
    }

    /// The package, without its stream.
    pub fn close(self) -> (r: Package<P>)
        ensures
            r == self.spec_inner(),
    {
        self.inner
    }
}

impl<R, P> AsRef<Package<P>> for OpenPackage<R, P> {
    fn as_ref(&self) -> (r: &Package<P>)
        ensures
            *r == self.spec_inner(),
    {
        &self.inner
    }
}

impl<P> AsRef<Index> for Package<P> {
    fn as_ref(&self) -> (r: &Index)
        ensures
            *r == self.spec_index(),
    {
        &self.index
    }
}

/// Reads the index of the package from its stream, at the stream's current position.
pub fn read_package<'a, P>(pack: &mut OpenPackage<ByteStream<'a>, P>) -> (r: Result<(), ReadError>)
    requires
        read_ends(old(pack).spec_reader().spec_data(), old(pack).spec_reader().spec_pos()),
        spec_read_events(old(pack).spec_reader().spec_data(), old(pack).spec_reader().spec_pos()) is Some,
        old(pack).spec_inner().spec_index().wf(),
    ensures
        ({
            let s = old(pack).spec_reader();
            let (sevs, sres) = spec_read_events(s.spec_data(), s.spec_pos()).unwrap();
            let idx = final(pack).spec_inner().spec_index();
            let idx0 = old(pack).spec_inner().spec_index();
            &&& r == sres
            &&& idx.wf()
            &&& (idx.spec_nodes(), idx.spec_dirs()) == apply_events(idx0.spec_nodes(), idx0.spec_dirs(), sevs)
            &&& final(pack).spec_inner().spec_kind() == old(pack).spec_inner().spec_kind()
            &&& final(pack).spec_inner().spec_uri() == old(pack).spec_inner().spec_uri()
            &&& final(pack).spec_reader().spec_data() == s.spec_data()
        }),
{
    let (index, stream) = pack.split_mut_ext();
    read_to(stream, index)
}

} // verus!
